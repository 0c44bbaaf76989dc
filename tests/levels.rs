use bracket_lib::random::RandomNumberGenerator;
use dungeoncrawl::architect::{
    automata_round, build_random_rooms, cave_from_noise, count_floor, level_from_cave, level_from_rooms, largest_region_start, noise_tile, place_room, walk_step, CellularAutomataArchitect,
    DrunkardsWalkArchitect, GenerationError, MapBuilder, RoomsArchitect, DESIRED_FLOOR, MIN_ROOMS,
};
use dungeoncrawl::rect::Rect;
use dungeoncrawl::flood::{find_most_distant, flood_distances, remove_unreached};
use dungeoncrawl::map::{map_idx, DungeonMap, Point, TileType, NUM_TILES};
use dungeoncrawl::theme::{architect_for_draw, build_level, ArchitectKind, DungeonTheme, ForestTheme, Theme};

fn check_playable(mb: &MapBuilder) {
    let start = map_idx(mb.player_start.x, mb.player_start.y);
    assert_eq!(mb.map.tiles[start], TileType::Floor);
    let dist = flood_distances(&mb.map, start);
    for i in 0..NUM_TILES {
        if mb.map.tiles[i] == TileType::Floor {
            assert!(dist[i].is_some(), "floor tile {} unreachable", i);
        }
    }
    let goal = map_idx(mb.amulet_start.x, mb.amulet_start.y);
    assert_eq!(mb.map.tiles[goal], TileType::Floor);
    let best = dist.iter().filter_map(|d| *d).max().unwrap();
    assert_eq!(dist[goal], Some(best));
    let first = dist.iter().position(|d| *d == Some(best)).unwrap();
    assert_eq!(goal, first);
    for s in &mb.spawn_locations {
        assert_eq!(mb.map.tiles[map_idx(s.point.x, s.point.y)], TileType::Floor);
    }
}

#[test]
fn rooms_level_is_connected_and_rooms_apart() {
    for seed in 0..5u64 {
        let mut rng = RandomNumberGenerator::seeded(seed);
        let mb = RoomsArchitect {}.create_map_builder(&mut rng, DungeonTheme::new()).unwrap();
        check_playable(&mb);
        assert!(mb.rooms.len() >= MIN_ROOMS);
        for i in 0..mb.rooms.len() {
            for j in (i + 1)..mb.rooms.len() {
                assert!(!mb.rooms[i].intersect(&mb.rooms[j]));
            }
        }
        assert_eq!(mb.player_start, mb.rooms[0].center());
        let mut dug = vec![false; NUM_TILES];
        for r in &mb.rooms {
            for y in r.y1..r.y2 {
                for x in r.x1..r.x2 {
                    dug[map_idx(x, y)] = true;
                }
            }
        }
        for k in 1..mb.rooms.len() {
            let a = mb.rooms[k - 1].center();
            let b = mb.rooms[k].center();
            let (lx, hx) = (a.x.min(b.x), a.x.max(b.x));
            let (ly, hy) = (a.y.min(b.y), a.y.max(b.y));
            let (row_y, col_x) = if (b.x - a.x).abs() <= (b.y - a.y).abs() { (a.y, b.x) } else { (b.y, a.x) };
            for x in lx..=hx {
                dug[map_idx(x, row_y)] = true;
            }
            for y in ly..=hy {
                dug[map_idx(col_x, y)] = true;
            }
        }
        for i in 0..NUM_TILES {
            assert_eq!(mb.map.tiles[i] == TileType::Floor, dug[i], "tile {}", i);
        }
        for r in &mb.rooms {
            assert!((2..=9).contains(&(r.x2 - r.x1)) && (2..=9).contains(&(r.y2 - r.y1)));
            assert!(r.x1 >= 1 && r.x2 <= 79 && r.y1 >= 1 && r.y2 <= 49);
            for y in r.y1..r.y2 {
                for x in r.x1..r.x2 {
                    assert_eq!(mb.map.tiles[map_idx(x, y)], TileType::Floor);
                }
            }
        }
        assert_eq!(mb.spawn_locations.len(), mb.rooms.len() - 1);
        for (s, r) in mb.spawn_locations.iter().zip(mb.rooms.iter().skip(1)) {
            assert_eq!(s.point, r.center());
            assert!(s.preferred_entity.is_none());
        }
    }
}

#[test]
fn drunkard_level_is_connected_and_covered() {
    for seed in 0..3u64 {
        let mut rng = RandomNumberGenerator::seeded(seed);
        match (DrunkardsWalkArchitect {}).create_map_builder(&mut rng, ForestTheme::new()) {
            Ok(mb) => {
                check_playable(&mb);
                assert!(count_floor(&mb.map) >= DESIRED_FLOOR);
                for a in 0..mb.spawn_locations.len() {
                    for b in (a + 1)..mb.spawn_locations.len() {
                        assert_ne!(mb.spawn_locations[a].point, mb.spawn_locations[b].point);
                    }
                }
                assert_eq!(mb.player_start, Point::new(40, 25));
            },
            Err(e) => assert_eq!(e, GenerationError::TooLittleFloor),
        }
    }
}

#[test]
fn automata_level_has_one_region() {
    for seed in 0..3u64 {
        let mut rng = RandomNumberGenerator::seeded(seed);
        let mb = (CellularAutomataArchitect {}).create_map_builder(&mut rng, ForestTheme::new()).unwrap();
        check_playable(&mb);
    }
}

#[test]
fn same_seed_gives_same_map() {
    for kind in [ArchitectKind::Rooms, ArchitectKind::DrunkardsWalk, ArchitectKind::CellularAutomata] {
        let mut a = RandomNumberGenerator::seeded(77);
        let mut b = RandomNumberGenerator::seeded(77);
        let ma = kind.create_map_builder(&mut a, Theme::Dungeon);
        let mb = kind.create_map_builder(&mut b, Theme::Dungeon);
        match (ma, mb) {
            (Ok(x), Ok(y)) => {
                assert_eq!(x.map.tiles, y.map.tiles);
                assert_eq!(x.player_start, y.player_start);
                assert_eq!(x.amulet_start, y.amulet_start);
                let px: Vec<Point> = x.spawn_locations.iter().map(|s| s.point).collect();
                let py: Vec<Point> = y.spawn_locations.iter().map(|s| s.point).collect();
                assert_eq!(px, py);
            },
            (Err(x), Err(y)) => assert_eq!(x, y),
            _ => panic!("runs differ"),
        }
    }
}

#[test]
fn themes_draw_their_glyphs() {
    let d = DungeonTheme::new();
    assert_eq!(d.tile_to_render(TileType::Floor), 46);
    assert_eq!(d.tile_to_render(TileType::Wall), 35);
    assert_eq!(d.tile_to_render(TileType::Exit), 62);
    let f = ForestTheme::new();
    assert_eq!(f.tile_to_render(TileType::Floor), 59);
    assert_eq!(f.tile_to_render(TileType::Wall), 34);
    assert_eq!(f.tile_to_render(TileType::Exit), 62);
}

#[test]
fn themes_pick_their_architects() {
    assert_eq!(Theme::Dungeon.get_architect(), ArchitectKind::Rooms);
    for _ in 0..20 {
        let k = Theme::Forest.get_architect();
        assert!(k == ArchitectKind::DrunkardsWalk || k == ArchitectKind::CellularAutomata);
    }
    let mut rng = RandomNumberGenerator::seeded(5);
    let mb = build_level(Theme::Dungeon, &mut rng).unwrap();
    assert_eq!(mb.theme, Theme::Dungeon);
    assert!(mb.rooms.len() >= 2);
}

fn map_from_rows(rows: &[&str]) -> DungeonMap {
    let mut map = DungeonMap::filled(TileType::Wall);
    for (y, row) in rows.iter().enumerate() {
        for (x, c) in row.chars().enumerate() {
            if c == '.' {
                map.tiles[map_idx(x as i32, y as i32)] = TileType::Floor;
            }
        }
    }
    map
}

#[test]
fn flood_gives_walking_distance_around_walls() {
    let map = map_from_rows(&["#####", "#...#", "###.#", "#...#", "#####"]);
    let start = map_idx(1, 1);
    let dist = flood_distances(&map, start);
    assert_eq!(dist[map_idx(1, 1)], Some(0));
    assert_eq!(dist[map_idx(3, 1)], Some(2));
    assert_eq!(dist[map_idx(3, 3)], Some(4));
    assert_eq!(dist[map_idx(1, 3)], Some(6));
    assert_eq!(dist[map_idx(0, 0)], None);
    assert_eq!(find_most_distant(&dist, start), map_idx(1, 3));
}

#[test]
fn most_distant_ties_go_to_scan_order() {
    let map = map_from_rows(&["#####", "#...#", "#####"]);
    let start = map_idx(2, 1);
    let dist = flood_distances(&map, start);
    assert_eq!(find_most_distant(&dist, start), map_idx(1, 1));
}

#[test]
fn unreached_floor_is_walled_off() {
    let mut map = map_from_rows(&["#####", "#..##", "####.", "#####"]);
    let start = map_idx(1, 1);
    let dist = flood_distances(&map, start);
    remove_unreached(&mut map, &dist);
    assert_eq!(map.tiles[map_idx(4, 2)], TileType::Wall);
    assert_eq!(map.tiles[map_idx(2, 1)], TileType::Floor);
    assert_eq!(count_floor(&map), 2);
}

#[test]
fn largest_region_is_chosen() {
    let map = map_from_rows(&["#..#....", "########"]);
    assert_eq!(largest_region_start(&map), Some(map_idx(4, 0)));
    assert_eq!(largest_region_start(&DungeonMap::filled(TileType::Wall)), None);
}

#[test]
fn automata_rule_counts_off_map_as_wall() {
    let open = DungeonMap::filled(TileType::Floor);
    let next = automata_round(&open);
    assert_eq!(next.tiles[map_idx(0, 0)], TileType::Wall);
    assert_eq!(next.tiles[map_idx(5, 0)], TileType::Floor);
    assert_eq!(next.tiles[map_idx(5, 5)], TileType::Floor);
    let closed = automata_round(&DungeonMap::filled(TileType::Wall));
    assert!(closed.tiles.iter().all(|t| *t == TileType::Wall));
}

#[test]
fn place_room_keeps_only_rooms_apart() {
    let mut rooms: Vec<Rect> = Vec::new();
    assert!(place_room(&mut rooms, Rect::with_size(2, 2, 3, 3)));
    assert!(!place_room(&mut rooms, Rect::with_size(5, 5, 3, 3)));
    assert!(place_room(&mut rooms, Rect::with_size(6, 2, 3, 3)));
    assert_eq!(rooms, vec![Rect::with_size(2, 2, 3, 3), Rect::with_size(6, 2, 3, 3)]);
}

#[test]
fn walk_step_moves_one_tile_inside_the_ring() {
    let p = Point::new(10, 10);
    assert_eq!(walk_step(p, 0), Some(Point::new(9, 10)));
    assert_eq!(walk_step(p, 1), Some(Point::new(11, 10)));
    assert_eq!(walk_step(p, 2), Some(Point::new(10, 9)));
    assert_eq!(walk_step(p, 3), Some(Point::new(10, 11)));
    assert_eq!(walk_step(Point::new(1, 5), 0), None);
    assert_eq!(walk_step(Point::new(78, 5), 1), None);
    assert_eq!(walk_step(Point::new(5, 1), 2), None);
    assert_eq!(walk_step(Point::new(5, 48), 3), None);
    assert_eq!(walk_step(Point::new(i32::MIN, 5), 0), None);
}

#[test]
fn noise_draws_below_threshold_are_wall() {
    assert_eq!(noise_tile(0), TileType::Wall);
    assert_eq!(noise_tile(44), TileType::Wall);
    assert_eq!(noise_tile(45), TileType::Floor);
    assert_eq!(noise_tile(99), TileType::Floor);
}

#[test]
fn equal_regions_go_to_the_first() {
    let map = map_from_rows(&["..#..", "#####"]);
    assert_eq!(largest_region_start(&map), Some(map_idx(0, 0)));
}

#[test]
fn one_room_is_too_few() {
    let mut map = DungeonMap::filled(TileType::Wall);
    let room = Rect::with_size(5, 5, 3, 3);
    for y in 5..8 {
        for x in 5..8 {
            map.tiles[map_idx(x, y)] = TileType::Floor;
        }
    }
    let r = level_from_rooms(map, vec![room], Theme::Dungeon);
    assert_eq!(r.unwrap_err(), GenerationError::TooFewRooms);
}

#[test]
fn two_rooms_make_a_level() {
    let mut map = DungeonMap::filled(TileType::Wall);
    let rooms = vec![Rect::with_size(2, 2, 3, 3), Rect::with_size(10, 8, 2, 2)];
    for r in &rooms {
        for y in r.y1..r.y2 {
            for x in r.x1..r.x2 {
                map.tiles[map_idx(x, y)] = TileType::Floor;
            }
        }
    }
    let mb = level_from_rooms(map, rooms.clone(), Theme::Dungeon).unwrap();
    assert_eq!(mb.rooms, rooms);
    assert_eq!(mb.player_start, Point::new(3, 3));
    assert_eq!(mb.spawn_locations.len(), 1);
    assert_eq!(mb.spawn_locations[0].point, Point::new(11, 9));
    check_playable(&mb);
}

#[test]
fn drawn_rooms_respect_the_budget() {
    let mut rng = RandomNumberGenerator::seeded(12);
    let mut map = DungeonMap::filled(TileType::Wall);
    let (rooms, attempts) = build_random_rooms(&mut map, &mut rng);
    assert!(rooms.len() == 20 || attempts == 500);
    assert!(rooms.len() >= 2);
}

#[test]
fn small_cave_is_refused() {
    let mut map = DungeonMap::filled(TileType::Wall);
    for x in 35..45 {
        map.tiles[map_idx(x, 25)] = TileType::Floor;
    }
    let mut rng = RandomNumberGenerator::seeded(1);
    let r = level_from_cave(map, &mut rng, Theme::Forest);
    assert_eq!(r.unwrap_err(), GenerationError::TooLittleFloor);
}

#[test]
fn wall_noise_gives_no_floor() {
    let mut rng = RandomNumberGenerator::seeded(1);
    let r = cave_from_noise(DungeonMap::filled(TileType::Wall), &mut rng, Theme::Forest);
    assert_eq!(r.unwrap_err(), GenerationError::NoFloor);
    let mb = cave_from_noise(DungeonMap::filled(TileType::Floor), &mut rng, Theme::Forest).unwrap();
    check_playable(&mb);
}

#[test]
fn forest_draw_picks_strategy() {
    assert_eq!(architect_for_draw(0), ArchitectKind::DrunkardsWalk);
    assert_eq!(architect_for_draw(1), ArchitectKind::CellularAutomata);
}
