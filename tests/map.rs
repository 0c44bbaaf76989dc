use dungeoncrawl::fov::{field_of_view_set, fov, FieldOfView, Viewer};
use dungeoncrawl::map::{in_bounds, map_idx, idx_to_point, DungeonMap, Point, TileType};
use dungeoncrawl::rect::Rect;

#[test]
fn indices_are_row_major() {
    assert_eq!(map_idx(0, 0), 0);
    assert_eq!(map_idx(3, 2), 163);
    assert_eq!(idx_to_point(163), Point::new(3, 2));
    assert!(in_bounds(Point::new(79, 49)));
    assert!(!in_bounds(Point::new(80, 0)));
    assert!(!in_bounds(Point::new(0, -1)));
}

#[test]
fn out_of_bounds_queries_are_rejected() {
    let mut map = DungeonMap::new();
    assert_eq!(map.try_idx(Point::new(-1, 3)), None);
    assert_eq!(map.try_idx(Point::new(2, 1)), Some(82));
    assert_eq!(map.tile_at(Point::new(0, 50)), None);
    map.tiles[82] = TileType::Wall;
    assert!(!map.can_enter_tile(Point::new(2, 1)));
    assert!(map.can_enter_tile(Point::new(3, 1)));
    map.tiles[83] = TileType::Exit;
    assert!(map.can_enter_tile(Point::new(3, 1)));
    assert!(!map.can_enter_tile(Point::new(80, 1)));
    map.fill(TileType::Wall);
    assert!(map.tiles.iter().all(|t| *t == TileType::Wall));
}

#[test]
fn rect_center_and_intersection() {
    let a = Rect::with_size(2, 2, 4, 3);
    assert_eq!(a, Rect { x1: 2, x2: 6, y1: 2, y2: 5 });
    assert_eq!(a.center(), Point::new(4, 3));
    assert!(a.intersect(&Rect::with_size(6, 5, 2, 2)));
    assert!(!a.intersect(&Rect::with_size(7, 2, 2, 2)));
}

#[test]
fn view_sees_own_tile_and_stops_at_walls() {
    let mut map = DungeonMap::new();
    map.tiles[map_idx(12, 10)] = TileType::Wall;
    let seen = field_of_view_set(Point::new(10, 10), 4, &map);
    assert!(seen.contains(&Point::new(10, 10)));
    assert!(seen.contains(&Point::new(11, 10)));
    assert!(seen.contains(&Point::new(12, 10)));
    assert!(!seen.contains(&Point::new(13, 10)));
    assert!(!seen.contains(&Point::new(14, 10)));
    assert!(seen.contains(&Point::new(10, 14)));
    assert!(!seen.contains(&Point::new(10, 15)));
    assert!(!seen.contains(&Point::new(13, 13)));
}

#[test]
fn view_at_radius_zero_is_own_tile() {
    let map = DungeonMap::new();
    assert_eq!(field_of_view_set(Point::new(0, 0), 0, &map), vec![Point::new(0, 0)]);
    assert_eq!(field_of_view_set(Point::new(0, 0), -1, &map), vec![Point::new(0, 0)]);
    assert_eq!(field_of_view_set(Point::new(-3, 90), 5, &map), vec![Point::new(-3, 90)]);
}

#[test]
fn negative_radius_still_sees_own_tile() {
    let map = DungeonMap::new();
    let mut viewers = vec![Viewer { position: Point::new(5, 5), fov: FieldOfView::new(-1) }];
    fov(&mut viewers, &map);
    assert_eq!(viewers[0].fov.visible_tiles, vec![Point::new(5, 5)]);
}

#[test]
fn only_dirty_views_are_recomputed() {
    let map = DungeonMap::new();
    let stale = FieldOfView::new(2);
    let fresh = FieldOfView { visible_tiles: vec![Point::new(7, 7)], radius: 2, is_dirty: false };
    let mut viewers = vec![
        Viewer { position: Point::new(5, 5), fov: stale },
        Viewer { position: Point::new(20, 20), fov: fresh },
    ];
    fov(&mut viewers, &map);
    assert!(!viewers[0].fov.is_dirty);
    assert!(viewers[0].fov.visible_tiles.contains(&Point::new(5, 5)));
    assert!(viewers[0].fov.visible_tiles.contains(&Point::new(7, 5)));
    assert_eq!(viewers[0].fov.visible_tiles.len(), 13);
    assert_eq!(viewers[1].fov.visible_tiles, vec![Point::new(7, 7)]);
    assert!(!viewers[1].fov.is_dirty);
}
