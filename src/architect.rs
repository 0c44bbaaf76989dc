use vstd::prelude::*;
use bracket_lib::random::RandomNumberGenerator;
use crate::flood::{
    farthest, find_most_distant, flood_distances, flood_size, is_flood, lemma_flood_counts_region, lemma_pruned_flood,
    lemma_region_size_shared, region_size, remove_unreached,
};
use crate::map::{
    adjacent, connected_from, idx_spec, in_bounds_spec, is_floor, is_path, lemma_join_paths, map_idx, reachable, DungeonMap,
    Point, TileType, NUM_TILES,
    SCREEN_HEIGHT, SCREEN_WIDTH,
};
use crate::rect::{center_spec, in_rect, inside_border, rects_meet, Rect};
use crate::rng::rng_range;
use crate::theme::Theme;

verus! {

/// How many rooms the rooms architect aims for.
pub const NUM_ROOMS: usize = 20;

/// How many candidate rooms the rooms architect draws at most.
pub const ROOM_ATTEMPTS: usize = 500;

/// Fewer accepted rooms than this is a failed level.
pub const MIN_ROOMS: usize = 2;

/// Why an architect gave up on a level.
#[derive(Clone, Copy, Debug, PartialEq, Eq, Structural)]
pub enum GenerationError {
    /// Fewer than two rooms fitted within the attempt budget.
    TooFewRooms,
    /// The carved floor stayed under the coverage target within the step budget.
    TooLittleFloor,
    /// No Floor tile survived generation.
    NoFloor,
}

/// Where the spawner may place one entity.
#[derive(Clone, Debug)]
pub struct SpawnLocation {
    pub point: Point,
    pub preferred_entity: Option<String>,
}

/// A generated level: the map, its rooms, the player's and the goal's places,
/// and the places for the spawner.
#[derive(Debug)]
pub struct MapBuilder {
    pub map: DungeonMap,
    pub rooms: Vec<Rect>,
    pub spawn_locations: Vec<SpawnLocation>,
    pub player_start: Point,
    pub amulet_start: Point,
    pub theme: Theme,
}

/// The index of an in-bounds point.
pub open spec fn pidx(p: Point) -> int {
    idx_spec(p.x as int, p.y as int)
}

pub open spec fn point_in_bounds(p: Point) -> bool {
    in_bounds_spec(p.x as int, p.y as int)
}

/// Every tile that was Floor still is.
pub open spec fn keeps_floor(a: Seq<TileType>, b: Seq<TileType>) -> bool {
    &&& a.len() == b.len()
    &&& forall|i: int| 0 <= i < a.len() && a[i] == TileType::Floor ==> #[trigger] b[i] == TileType::Floor
}

/// No two of the rooms overlap or touch.
pub open spec fn rooms_apart(rooms: Seq<Rect>) -> bool {
    forall|i: int, j: int| 0 <= i < j < rooms.len() ==> !#[trigger] rects_meet(rooms[i], rooms[j])
}

/// A map on which every Floor tile can be walked to from `start`, and `goal` is
/// the tile farthest from it by walking distance (first in scan order on ties).
pub open spec fn playable(tiles: Seq<TileType>, start: int, goal: int) -> bool {
    &&& tiles.len() == NUM_TILES
    &&& is_floor(tiles, start)
    &&& is_floor(tiles, goal)
    &&& connected_from(tiles, start)
    &&& exists|dist: Seq<Option<usize>>| #[trigger] is_flood(tiles, dist, start) && farthest(dist, goal)
}

impl MapBuilder {
    /// A finished level: playable from the player's start to the goal, with every
    /// spawn place on Floor.
    pub open spec fn level_ready(&self) -> bool {
        &&& self.map.wf()
        &&& point_in_bounds(self.player_start)
        &&& point_in_bounds(self.amulet_start)
        &&& playable(self.map.tiles@, pidx(self.player_start), pidx(self.amulet_start))
        &&& forall|k: int|
            0 <= k < self.spawn_locations@.len() ==> point_in_bounds(#[trigger] self.spawn_locations@[k].point)
                && is_floor(self.map.tiles@, pidx(self.spawn_locations@[k].point))
    }
}

/// Walls off what cannot be reached from `start` and finds the goal: the
/// Floor tile with the greatest walking distance.
fn settle(map: &mut DungeonMap, start: usize) -> (res: (usize, Vec<Option<usize>>))
    requires
        old(map).wf(),
        start < NUM_TILES,
        old(map).tiles@[start as int] == TileType::Floor,
    ensures
        final(map).wf(),
        playable(final(map).tiles@, start as int, res.0 as int),
        is_flood(final(map).tiles@, res.1@, start as int),
        farthest(res.1@, res.0 as int),
        forall|t: int| #[trigger] reachable(old(map).tiles@, start as int, t) ==> is_floor(final(map).tiles@, t),
        connected_from(old(map).tiles@, start as int) ==> final(map).tiles@ == old(map).tiles@,
        forall|i: int|
            0 <= i < NUM_TILES ==> #[trigger] final(map).tiles@[i] == old(map).tiles@[i] || final(map).tiles@[i]
                == TileType::Wall,
        forall|i: int|
            0 <= i < NUM_TILES && #[trigger] final(map).tiles@[i] == TileType::Floor ==> old(map).tiles@[i] == TileType::Floor,
{
    let dist = flood_distances(map, start);
    let ghost before = map.tiles@;
    remove_unreached(map, &dist);
    proof {
        lemma_pruned_flood(before, map.tiles@, dist@, start as int);
        assert forall|t: int| #[trigger] reachable(before, start as int, t) implies is_floor(map.tiles@, t) by {
            let p = choose|p: Seq<int>| #[trigger] is_path(before, p) && p[0] == start as int && p.last() == t;
            assert(is_floor(before, p[p.len() - 1]));
            crate::flood::lemma_flood_reaches_exactly(before, dist@, start as int, t);
            assert(map.tiles@[t] == crate::flood::pruned_tile(before[t], dist@[t]));
        }
        assert forall|i: int|
            0 <= i < NUM_TILES && #[trigger] map.tiles@[i] == TileType::Floor implies before[i] == TileType::Floor by {
            assert(map.tiles@[i] == crate::flood::pruned_tile(before[i], dist@[i]));
        }
        assert forall|i: int|
            0 <= i < NUM_TILES implies #[trigger] map.tiles@[i] == before[i] || map.tiles@[i] == TileType::Wall by {
            assert(map.tiles@[i] == crate::flood::pruned_tile(before[i], dist@[i]));
        }
        if connected_from(before, start as int) {
            assert forall|i: int| 0 <= i < NUM_TILES implies #[trigger] map.tiles@[i] == before[i] by {
                assert(map.tiles@[i] == crate::flood::pruned_tile(before[i], dist@[i]));
                if before[i] == TileType::Floor {
                    assert(is_floor(before, i));
                    crate::flood::lemma_flood_reaches_exactly(before, dist@, start as int, i);
                }
            }
            assert(map.tiles@ =~= before);
        }
    }
    let goal = find_most_distant(&dist, start);
    proof {
        assert(dist@[goal as int].is_some());
    }
    (goal, dist)
}

/// Sets every tile of the room to Floor.
fn carve_room(map: &mut DungeonMap, room: Rect)
    requires
        old(map).wf(),
        inside_border(room),
    ensures
        final(map).wf(),
        keeps_floor(old(map).tiles@, final(map).tiles@),
        forall|x: int, y: int| in_rect(room, x, y) ==> #[trigger] final(map).tiles@[idx_spec(x, y)] == TileType::Floor,
        forall|px: int, py: int|
            in_bounds_spec(px, py) && #[trigger] final(map).tiles@[idx_spec(px, py)] == TileType::Floor ==> old(map).tiles@[idx_spec(
                px,
                py,
            )] == TileType::Floor || in_rect(room, px, py),
        forall|i: int| 0 <= i < NUM_TILES ==> #[trigger] final(map).tiles@[i] == old(map).tiles@[i] || final(map).tiles@[i] == TileType::Floor,
{
    let mut y: i32 = room.y1;
    while y < room.y2
        invariant
            room.y1 <= y <= room.y2,
            inside_border(room),
            map.wf(),
            keeps_floor(old(map).tiles@, map.tiles@),
            forall|i: int| 0 <= i < NUM_TILES ==> #[trigger] map.tiles@[i] == old(map).tiles@[i] || map.tiles@[i] == TileType::Floor,
            forall|px: int, py: int|
                in_rect(room, px, py) && py < y ==> #[trigger] map.tiles@[idx_spec(px, py)] == TileType::Floor,
            forall|px: int, py: int|
                in_bounds_spec(px, py) && #[trigger] map.tiles@[idx_spec(px, py)] == TileType::Floor ==> old(map).tiles@[idx_spec(
                    px,
                    py,
                )] == TileType::Floor || in_rect(room, px, py),
        decreases room.y2 - y,
    {
        let mut x: i32 = room.x1;
        while x < room.x2
            invariant
                room.y1 <= y < room.y2,
                room.x1 <= x <= room.x2,
                inside_border(room),
                map.wf(),
                keeps_floor(old(map).tiles@, map.tiles@),
            forall|i: int| 0 <= i < NUM_TILES ==> #[trigger] map.tiles@[i] == old(map).tiles@[i] || map.tiles@[i] == TileType::Floor,
                forall|px: int, py: int|
                    in_rect(room, px, py) && (py < y || (py == y && px < x)) ==> #[trigger] map.tiles@[idx_spec(px, py)]
                        == TileType::Floor,
                forall|px: int, py: int|
                    in_bounds_spec(px, py) && #[trigger] map.tiles@[idx_spec(px, py)] == TileType::Floor ==> old(map).tiles@[idx_spec(
                        px,
                        py,
                    )] == TileType::Floor || in_rect(room, px, py),
            decreases room.x2 - x,
        {
            let i = map_idx(x, y);
            map.tiles.set(i, TileType::Floor);
            x = x + 1;
        }
        y = y + 1;
    }
}

/// The point lies in one of the rooms.
pub open spec fn in_some_room(rooms: Seq<Rect>, x: int, y: int) -> bool {
    exists|k: int| 0 <= k < rooms.len() && in_rect(#[trigger] rooms[k], x, y)
}

/// The point lies on the L-shaped corridor from `a` to `b`, whose first leg runs
/// along the axis on which they differ less.
pub open spec fn on_corridor(a: Point, b: Point, x: int, y: int) -> bool {
    if crate::fov::abs(b.x - a.x) <= crate::fov::abs(b.y - a.y) {
        (y == a.y && between(x, a.x as int, b.x as int)) || (x == b.x && between(y, a.y as int, b.y as int))
    } else {
        (x == a.x && between(y, a.y as int, b.y as int)) || (y == b.y && between(x, a.x as int, b.x as int))
    }
}

/// The point lies on the corridor that joins room `k` to room `k - 1`.
pub open spec fn on_corridor_k(rooms: Seq<Rect>, k: int, x: int, y: int) -> bool {
    on_corridor(center_spec(rooms[k - 1]), center_spec(rooms[k]), x, y)
}

/// The point lies on one of the corridors that join the first `n` rooms.
pub open spec fn on_corridor_before(rooms: Seq<Rect>, n: int, x: int, y: int) -> bool {
    exists|k: int| 1 <= k < n && #[trigger] on_corridor_k(rooms, k, x, y)
}

/// The point lies on one of the corridors between consecutive rooms.
pub open spec fn on_some_corridor(rooms: Seq<Rect>, x: int, y: int) -> bool {
    on_corridor_before(rooms, rooms.len() as int, x, y)
}

/// `v` lies between `a` and `b`, both included.
pub open spec fn between(v: int, a: int, b: int) -> bool {
    (a <= v <= b) || (b <= v <= a)
}

/// Carves Floor along row `y` from column `x1` to column `x2`, both included.
fn horizontal_tunnel(map: &mut DungeonMap, x1: i32, x2: i32, y: i32)
    requires
        old(map).wf(),
        in_bounds_spec(x1 as int, y as int),
        in_bounds_spec(x2 as int, y as int),
    ensures
        final(map).wf(),
        keeps_floor(old(map).tiles@, final(map).tiles@),
        forall|x: int|
            (x1 <= x <= x2 || x2 <= x <= x1) ==> #[trigger] final(map).tiles@[idx_spec(x, y as int)] == TileType::Floor,
        forall|px: int, py: int|
            in_bounds_spec(px, py) && #[trigger] final(map).tiles@[idx_spec(px, py)] == TileType::Floor ==> old(map).tiles@[idx_spec(
                px,
                py,
            )] == TileType::Floor || (py == y && between(px, x1 as int, x2 as int)),
        forall|i: int| 0 <= i < NUM_TILES ==> #[trigger] final(map).tiles@[i] == old(map).tiles@[i] || final(map).tiles@[i] == TileType::Floor,
{
    let lo = if x1 < x2 { x1 } else { x2 };
    let hi = if x1 < x2 { x2 } else { x1 };
    let mut x: i32 = lo;
    while x <= hi
        invariant
            lo <= x <= hi + 1,
            0 <= lo,
            hi < SCREEN_WIDTH,
            lo == x1 || lo == x2,
            hi == x1 || hi == x2,
            lo <= hi,
            in_bounds_spec(0, y as int),
            map.wf(),
            keeps_floor(old(map).tiles@, map.tiles@),
            forall|i: int| 0 <= i < NUM_TILES ==> #[trigger] map.tiles@[i] == old(map).tiles@[i] || map.tiles@[i] == TileType::Floor,
            forall|px: int| lo <= px < x ==> #[trigger] map.tiles@[idx_spec(px, y as int)] == TileType::Floor,
            forall|px: int, py: int|
                in_bounds_spec(px, py) && #[trigger] map.tiles@[idx_spec(px, py)] == TileType::Floor ==> old(map).tiles@[idx_spec(
                    px,
                    py,
                )] == TileType::Floor || (py == y && between(px, x1 as int, x2 as int)),
        decreases hi + 1 - x,
    {
        let i = map_idx(x, y);
        map.tiles.set(i, TileType::Floor);
        x = x + 1;
    }
}

/// Carves Floor along column `x` from row `y1` to row `y2`, both included.
fn vertical_tunnel(map: &mut DungeonMap, y1: i32, y2: i32, x: i32)
    requires
        old(map).wf(),
        in_bounds_spec(x as int, y1 as int),
        in_bounds_spec(x as int, y2 as int),
    ensures
        final(map).wf(),
        keeps_floor(old(map).tiles@, final(map).tiles@),
        forall|y: int|
            (y1 <= y <= y2 || y2 <= y <= y1) ==> #[trigger] final(map).tiles@[idx_spec(x as int, y)] == TileType::Floor,
        forall|px: int, py: int|
            in_bounds_spec(px, py) && #[trigger] final(map).tiles@[idx_spec(px, py)] == TileType::Floor ==> old(map).tiles@[idx_spec(
                px,
                py,
            )] == TileType::Floor || (px == x && between(py, y1 as int, y2 as int)),
        forall|i: int| 0 <= i < NUM_TILES ==> #[trigger] final(map).tiles@[i] == old(map).tiles@[i] || final(map).tiles@[i] == TileType::Floor,
{
    let lo = if y1 < y2 { y1 } else { y2 };
    let hi = if y1 < y2 { y2 } else { y1 };
    let mut y: i32 = lo;
    while y <= hi
        invariant
            lo <= y <= hi + 1,
            0 <= lo,
            hi < SCREEN_HEIGHT,
            lo == y1 || lo == y2,
            hi == y1 || hi == y2,
            lo <= hi,
            in_bounds_spec(x as int, 0),
            map.wf(),
            keeps_floor(old(map).tiles@, map.tiles@),
            forall|i: int| 0 <= i < NUM_TILES ==> #[trigger] map.tiles@[i] == old(map).tiles@[i] || map.tiles@[i] == TileType::Floor,
            forall|py: int| lo <= py < y ==> #[trigger] map.tiles@[idx_spec(x as int, py)] == TileType::Floor,
            forall|px: int, py: int|
                in_bounds_spec(px, py) && #[trigger] map.tiles@[idx_spec(px, py)] == TileType::Floor ==> old(map).tiles@[idx_spec(
                    px,
                    py,
                )] == TileType::Floor || (px == x && between(py, y1 as int, y2 as int)),
        decreases hi + 1 - y,
    {
        let i = map_idx(x, y);
        map.tiles.set(i, TileType::Floor);
        y = y + 1;
    }
}

/// The room was drawn within the size range: 2 to 9 tiles on each side.
pub open spec fn room_size_ok(r: Rect) -> bool {
    2 <= r.x2 - r.x1 <= 9 && 2 <= r.y2 - r.y1 <= 9
}

/// Keeps a candidate room exactly when it meets none of the rooms kept before.
pub fn place_room(rooms: &mut Vec<Rect>, cand: Rect) -> (kept: bool)
    ensures
        kept == forall|k: int| 0 <= k < old(rooms)@.len() ==> !#[trigger] rects_meet(old(rooms)@[k], cand),
        final(rooms)@ == if kept {
            old(rooms)@.push(cand)
        } else {
            old(rooms)@
        },
{
    let mut k: usize = 0;
    while k < rooms.len()
        invariant
            k <= rooms@.len(),
            rooms@ == old(rooms)@,
            forall|j: int| 0 <= j < k ==> !#[trigger] rects_meet(rooms@[j], cand),
        decreases rooms@.len() - k,
    {
        if rooms[k].intersect(&cand) {
            return false;
        }
        k = k + 1;
    }
    rooms.push(cand);
    true
}

/// Draws candidate rooms and keeps, in order, each that meets none kept before,
/// until `NUM_ROOMS` are kept or `ROOM_ATTEMPTS` candidates have been drawn.
/// Returns the rooms and the number of candidates drawn.
pub fn build_random_rooms(map: &mut DungeonMap, rng: &mut RandomNumberGenerator) -> (res: (Vec<Rect>, usize))
    requires
        old(map).wf(),
    ensures
        final(map).wf(),
        keeps_floor(old(map).tiles@, final(map).tiles@),
        res.0@.len() <= NUM_ROOMS,
        res.1 <= ROOM_ATTEMPTS,
        res.0@.len() == NUM_ROOMS || res.1 == ROOM_ATTEMPTS,
        rooms_apart(res.0@),
        forall|k: int| 0 <= k < res.0@.len() ==> #[trigger] inside_border(res.0@[k]),
        forall|k: int| 0 <= k < res.0@.len() ==> #[trigger] room_size_ok(res.0@[k]),
        forall|k: int| 0 <= k < res.0@.len() ==> #[trigger] final(map).tiles@[pidx(center_spec(res.0@[k]))] == TileType::Floor,
        forall|k: int, x: int, y: int|
            0 <= k < res.0@.len() && #[trigger] in_rect(res.0@[k], x, y) ==> final(map).tiles@[idx_spec(x, y)]
                == TileType::Floor,
        forall|px: int, py: int|
            in_bounds_spec(px, py) && #[trigger] final(map).tiles@[idx_spec(px, py)] == TileType::Floor ==> old(map).tiles@[idx_spec(
                px,
                py,
            )] == TileType::Floor || in_some_room(res.0@, px, py),
        forall|i: int| 0 <= i < NUM_TILES ==> #[trigger] final(map).tiles@[i] == old(map).tiles@[i] || final(map).tiles@[i] == TileType::Floor,
{
    let mut rooms: Vec<Rect> = Vec::new();
    let mut attempts: usize = 0;
    while rooms.len() < NUM_ROOMS && attempts < ROOM_ATTEMPTS
        invariant
            map.wf(),
            attempts <= ROOM_ATTEMPTS,
            rooms@.len() <= NUM_ROOMS,
            keeps_floor(old(map).tiles@, map.tiles@),
            forall|i: int| 0 <= i < NUM_TILES ==> #[trigger] map.tiles@[i] == old(map).tiles@[i] || map.tiles@[i] == TileType::Floor,
            rooms_apart(rooms@),
            forall|k: int| 0 <= k < rooms@.len() ==> #[trigger] inside_border(rooms@[k]),
            forall|k: int| 0 <= k < rooms@.len() ==> #[trigger] room_size_ok(rooms@[k]),
            forall|k: int| 0 <= k < rooms@.len() ==> #[trigger] map.tiles@[pidx(center_spec(rooms@[k]))] == TileType::Floor,
            forall|k: int, x: int, y: int|
                0 <= k < rooms@.len() && #[trigger] in_rect(rooms@[k], x, y) ==> map.tiles@[idx_spec(x, y)]
                    == TileType::Floor,
            forall|px: int, py: int|
                in_bounds_spec(px, py) && #[trigger] map.tiles@[idx_spec(px, py)] == TileType::Floor ==> old(map).tiles@[idx_spec(
                    px,
                    py,
                )] == TileType::Floor || in_some_room(rooms@, px, py),
        decreases ROOM_ATTEMPTS - attempts,
    {
        attempts = attempts + 1;
        let x = rng_range(rng, 1, SCREEN_WIDTH - 10);
        let y = rng_range(rng, 1, SCREEN_HEIGHT - 10);
        let w = rng_range(rng, 2, 10);
        let h = rng_range(rng, 2, 10);
        let room = Rect::with_size(x, y, w, h);
        assert(room_size_ok(room) && inside_border(room));
        let ghost old_rooms = rooms@;
        let kept = place_room(&mut rooms, room);
        if kept {
            let ghost mid = map.tiles@;
            carve_room(map, room);
            let c = room.center();
            assert(in_rect(room, c.x as int, c.y as int));
            assert(rooms@.last() == room);
            assert forall|k: int| 0 <= k < rooms@.len() implies #[trigger] map.tiles@[pidx(center_spec(rooms@[k]))]
                == TileType::Floor by {
                if k < old_rooms.len() {
                    assert(rooms@[k] == old_rooms[k]);
                    assert(inside_border(old_rooms[k]));
                    assert(mid[pidx(center_spec(old_rooms[k]))] == TileType::Floor);
                }
            }
            assert forall|k: int| 0 <= k < rooms@.len() implies inside_border(#[trigger] rooms@[k]) && room_size_ok(
                rooms@[k],
            ) by {
                if k < old_rooms.len() {
                    assert(rooms@[k] == old_rooms[k]);
                    assert(inside_border(old_rooms[k]) && room_size_ok(old_rooms[k]));
                } else {
                    assert(rooms@[k] == room);
                }
            }
            assert forall|k: int, x: int, y: int|
                0 <= k < rooms@.len() && #[trigger] in_rect(rooms@[k], x, y) implies map.tiles@[idx_spec(x, y)]
                    == TileType::Floor by {
                if k < old_rooms.len() {
                    assert(rooms@[k] == old_rooms[k]);
                    assert(in_rect(old_rooms[k], x, y));
                    assert(inside_border(old_rooms[k]));
                    assert(mid[idx_spec(x, y)] == TileType::Floor);
                }
            }
            assert forall|px: int, py: int|
                in_bounds_spec(px, py) && #[trigger] map.tiles@[idx_spec(px, py)] == TileType::Floor implies old(map).tiles@[idx_spec(
                    px,
                    py,
                )] == TileType::Floor || in_some_room(rooms@, px, py) by {
                if in_rect(room, px, py) {
                    assert(in_rect(rooms@[old_rooms.len() as int], px, py));
                } else {
                    assert(mid[idx_spec(px, py)] == TileType::Floor);
                    if in_some_room(old_rooms, px, py) {
                        let k = choose|k: int| 0 <= k < old_rooms.len() && in_rect(#[trigger] old_rooms[k], px, py);
                        assert(rooms@[k] == old_rooms[k]);
                        assert(in_rect(rooms@[k], px, py));
                    }
                }
            }
            assert(rooms_apart(rooms@)) by {
                assert forall|i: int, j: int| 0 <= i < j < rooms@.len() implies !#[trigger] rects_meet(rooms@[i], rooms@[j]) by {
                    assert(rooms@[i] == old_rooms[i]);
                    if j < rooms@.len() - 1 {
                        assert(rooms@[j] == old_rooms[j]);
                    } else {
                        assert(!rects_meet(old_rooms[i], room));
                    }
                }
            }
        } else {
            assert(rooms@ == old_rooms);
            assert forall|k: int| 0 <= k < rooms@.len() implies inside_border(#[trigger] rooms@[k]) && room_size_ok(
                rooms@[k],
            ) by {
                assert(inside_border(old_rooms[k]) && room_size_ok(old_rooms[k]));
            }
        }
    }
    (rooms, attempts)
}

/// The tiles of row `y` from column `a` to column `b`, in walking order.
pub open spec fn row_walk(a: int, b: int, y: int) -> Seq<int> {
    if a <= b {
        Seq::new((b - a + 1) as nat, |k: int| idx_spec(a + k, y))
    } else {
        Seq::new((a - b + 1) as nat, |k: int| idx_spec(a - k, y))
    }
}

/// The tiles of column `x` from row `a` to row `b`, in walking order.
pub open spec fn col_walk(a: int, b: int, x: int) -> Seq<int> {
    if a <= b {
        Seq::new((b - a + 1) as nat, |k: int| idx_spec(x, a + k))
    } else {
        Seq::new((a - b + 1) as nat, |k: int| idx_spec(x, a - k))
    }
}

proof fn lemma_row_walk(tiles: Seq<TileType>, a: int, b: int, y: int)
    requires
        tiles.len() == NUM_TILES,
        in_bounds_spec(a, y),
        in_bounds_spec(b, y),
        forall|x: int| (a <= x <= b || b <= x <= a) ==> #[trigger] tiles[idx_spec(x, y)] == TileType::Floor,
    ensures
        is_path(tiles, row_walk(a, b, y)),
        row_walk(a, b, y)[0] == idx_spec(a, y),
        row_walk(a, b, y).last() == idx_spec(b, y),
{
    let p = row_walk(a, b, y);
    assert forall|k: int| 0 <= k < p.len() implies #[trigger] is_floor(tiles, p[k]) by {
        if a <= b {
            assert(tiles[idx_spec(a + k, y)] == TileType::Floor);
        } else {
            assert(tiles[idx_spec(a - k, y)] == TileType::Floor);
        }
    }
    assert forall|k: int| 0 <= k < p.len() - 1 implies #[trigger] adjacent(p[k], p[k + 1]) by {
        let x = if a <= b { a + k } else { a - k };
        assert((y * 80 + x) % 80 == x) by (nonlinear_arith)
            requires
                0 <= x < 80,
                0 <= y,
        ;
    }
}

proof fn lemma_col_walk(tiles: Seq<TileType>, a: int, b: int, x: int)
    requires
        tiles.len() == NUM_TILES,
        in_bounds_spec(x, a),
        in_bounds_spec(x, b),
        forall|y: int| (a <= y <= b || b <= y <= a) ==> #[trigger] tiles[idx_spec(x, y)] == TileType::Floor,
    ensures
        is_path(tiles, col_walk(a, b, x)),
        col_walk(a, b, x)[0] == idx_spec(x, a),
        col_walk(a, b, x).last() == idx_spec(x, b),
{
    let p = col_walk(a, b, x);
    assert forall|k: int| 0 <= k < p.len() implies #[trigger] is_floor(tiles, p[k]) by {
        if a <= b {
            assert(tiles[idx_spec(x, a + k)] == TileType::Floor);
        } else {
            assert(tiles[idx_spec(x, a - k)] == TileType::Floor);
        }
    }
}

/// A walk stays a walk when no Floor tile is lost.
proof fn lemma_path_kept(a: Seq<TileType>, b: Seq<TileType>, p: Seq<int>)
    requires
        is_path(a, p),
        keeps_floor(a, b),
    ensures
        is_path(b, p),
{
    assert forall|k: int| 0 <= k < p.len() implies #[trigger] is_floor(b, p[k]) by {
        assert(is_floor(a, p[k]));
    }
}

/// What can be walked to stays so when no Floor tile is lost.
proof fn lemma_reach_kept(a: Seq<TileType>, b: Seq<TileType>, s: int, t: int)
    requires
        reachable(a, s, t),
        keeps_floor(a, b),
    ensures
        reachable(b, s, t),
{
    let p = choose|p: Seq<int>| #[trigger] is_path(a, p) && p[0] == s && p.last() == t;
    lemma_path_kept(a, b, p);
}

/// An L-shaped corridor from `a` to `b` extends what can be walked to from `c0`.
proof fn lemma_corridor_joins(t: Seq<TileType>, c0: int, a: Point, b: Point, row_first: bool)
    requires
        t.len() == NUM_TILES,
        point_in_bounds(a),
        point_in_bounds(b),
        reachable(t, c0, pidx(a)),
        row_first ==> forall|x: int|
            (a.x <= x <= b.x || b.x <= x <= a.x) ==> #[trigger] t[idx_spec(x, a.y as int)] == TileType::Floor,
        row_first ==> forall|y: int|
            (a.y <= y <= b.y || b.y <= y <= a.y) ==> #[trigger] t[idx_spec(b.x as int, y)] == TileType::Floor,
        !row_first ==> forall|y: int|
            (a.y <= y <= b.y || b.y <= y <= a.y) ==> #[trigger] t[idx_spec(a.x as int, y)] == TileType::Floor,
        !row_first ==> forall|x: int|
            (a.x <= x <= b.x || b.x <= x <= a.x) ==> #[trigger] t[idx_spec(x, b.y as int)] == TileType::Floor,
    ensures
        reachable(t, c0, pidx(b)),
{
    let p1 = choose|p: Seq<int>| #[trigger] is_path(t, p) && p[0] == c0 && p.last() == pidx(a);
    let leg = if row_first {
        lemma_row_walk(t, a.x as int, b.x as int, a.y as int);
        lemma_col_walk(t, a.y as int, b.y as int, b.x as int);
        lemma_join_paths(t, row_walk(a.x as int, b.x as int, a.y as int), col_walk(a.y as int, b.y as int, b.x as int))
    } else {
        lemma_col_walk(t, a.y as int, b.y as int, a.x as int);
        lemma_row_walk(t, a.x as int, b.x as int, b.y as int);
        lemma_join_paths(t, col_walk(a.y as int, b.y as int, a.x as int), row_walk(a.x as int, b.x as int, b.y as int))
    };
    let whole = lemma_join_paths(t, p1, leg);
    assert(is_path(t, whole) && whole[0] == c0 && whole.last() == pidx(b));
}

/// Every tile of the corridor into room `k` can be walked to from wherever
/// the centre of room `k - 1` can.
proof fn lemma_corridor_tile_reachable(t: Seq<TileType>, c0: int, rooms: Seq<Rect>, k: int, px: int, py: int)
    requires
        t.len() == NUM_TILES,
        1 <= k < rooms.len(),
        inside_border(rooms[k - 1]),
        inside_border(rooms[k]),
        reachable(t, c0, pidx(center_spec(rooms[k - 1]))),
        forall|x: int, y: int| #[trigger] on_corridor_k(rooms, k, x, y) ==> t[idx_spec(x, y)] == TileType::Floor,
        on_corridor_k(rooms, k, px, py),
    ensures
        reachable(t, c0, idx_spec(px, py)),
{
    let a = center_spec(rooms[k - 1]);
    let n = center_spec(rooms[k]);
    let b = Point { x: px as i32, y: py as i32 };
    let row_first = crate::fov::abs(n.x - a.x) <= crate::fov::abs(n.y - a.y);
    if row_first {
        if py == a.y {
            assert forall|x: int| (a.x <= x <= b.x || b.x <= x <= a.x) implies #[trigger] t[idx_spec(x, a.y as int)]
                == TileType::Floor by {
                assert(on_corridor_k(rooms, k, x, a.y as int));
            }
            assert forall|y: int| (a.y <= y <= b.y || b.y <= y <= a.y) implies #[trigger] t[idx_spec(b.x as int, y)]
                == TileType::Floor by {
                assert(on_corridor_k(rooms, k, px, y));
            }
            lemma_corridor_joins(t, c0, a, b, true);
        } else {
            assert forall|x: int| (a.x <= x <= b.x || b.x <= x <= a.x) implies #[trigger] t[idx_spec(x, a.y as int)]
                == TileType::Floor by {
                assert(on_corridor_k(rooms, k, x, a.y as int));
            }
            assert forall|y: int| (a.y <= y <= b.y || b.y <= y <= a.y) implies #[trigger] t[idx_spec(b.x as int, y)]
                == TileType::Floor by {
                assert(on_corridor_k(rooms, k, px, y));
            }
            lemma_corridor_joins(t, c0, a, b, true);
        }
    } else {
        if px == a.x {
            assert forall|y: int| (a.y <= y <= b.y || b.y <= y <= a.y) implies #[trigger] t[idx_spec(a.x as int, y)]
                == TileType::Floor by {
                assert(on_corridor_k(rooms, k, a.x as int, y));
            }
            assert forall|x: int| (a.x <= x <= b.x || b.x <= x <= a.x) implies #[trigger] t[idx_spec(x, b.y as int)]
                == TileType::Floor by {
                assert(on_corridor_k(rooms, k, x, py));
            }
            lemma_corridor_joins(t, c0, a, b, false);
        } else {
            assert forall|y: int| (a.y <= y <= b.y || b.y <= y <= a.y) implies #[trigger] t[idx_spec(a.x as int, y)]
                == TileType::Floor by {
                assert(on_corridor_k(rooms, k, a.x as int, y));
            }
            assert forall|x: int| (a.x <= x <= b.x || b.x <= x <= a.x) implies #[trigger] t[idx_spec(x, b.y as int)]
                == TileType::Floor by {
                assert(on_corridor_k(rooms, k, x, py));
            }
            lemma_corridor_joins(t, c0, a, b, false);
        }
    }
}

/// Joins each room to the one before it by an L-shaped corridor between their
/// centres, walking first along the axis on which they differ less.
#[verifier::rlimit(60)]
fn build_corridors(map: &mut DungeonMap, rooms: &Vec<Rect>)
    requires
        old(map).wf(),
        rooms@.len() > 0,
        forall|k: int| 0 <= k < rooms@.len() ==> #[trigger] inside_border(rooms@[k]),
        forall|k: int| 0 <= k < rooms@.len() ==> #[trigger] old(map).tiles@[pidx(center_spec(rooms@[k]))] == TileType::Floor,
    ensures
        final(map).wf(),
        keeps_floor(old(map).tiles@, final(map).tiles@),
        forall|k: int|
            0 <= k < rooms@.len() ==> #[trigger] reachable(
                final(map).tiles@,
                pidx(center_spec(rooms@[0])),
                pidx(center_spec(rooms@[k])),
            ),
        forall|px: int, py: int|
            in_bounds_spec(px, py) && #[trigger] final(map).tiles@[idx_spec(px, py)] == TileType::Floor ==> old(map).tiles@[idx_spec(
                px,
                py,
            )] == TileType::Floor || on_some_corridor(rooms@, px, py),
        forall|k: int, px: int, py: int|
            1 <= k < rooms@.len() && #[trigger] on_corridor_k(rooms@, k, px, py) ==> final(map).tiles@[idx_spec(px, py)]
                == TileType::Floor,
        forall|i: int| 0 <= i < NUM_TILES ==> #[trigger] final(map).tiles@[i] == old(map).tiles@[i] || final(map).tiles@[i] == TileType::Floor,
{
    let ghost c0 = pidx(center_spec(rooms@[0]));
    proof {
        assert(inside_border(rooms@[0]));
        assert(old(map).tiles@[c0] == TileType::Floor);
        let single = seq![c0];
        assert(is_path(old(map).tiles@, single));
    }
    let mut i: usize = 1;
    while i < rooms.len()
        invariant
            1 <= i <= rooms@.len(),
            map.wf(),
            c0 == pidx(center_spec(rooms@[0])),
            keeps_floor(old(map).tiles@, map.tiles@),
            forall|i: int| 0 <= i < NUM_TILES ==> #[trigger] map.tiles@[i] == old(map).tiles@[i] || map.tiles@[i] == TileType::Floor,
            forall|k: int| 0 <= k < rooms@.len() ==> #[trigger] inside_border(rooms@[k]),
            forall|k: int| 0 <= k < i ==> #[trigger] reachable(map.tiles@, c0, pidx(center_spec(rooms@[k]))),
            forall|px: int, py: int|
                in_bounds_spec(px, py) && #[trigger] map.tiles@[idx_spec(px, py)] == TileType::Floor ==> old(map).tiles@[idx_spec(
                    px,
                    py,
                )] == TileType::Floor || on_corridor_before(rooms@, i as int, px, py),
            forall|k: int, px: int, py: int|
                1 <= k < i && #[trigger] on_corridor_k(rooms@, k, px, py) ==> map.tiles@[idx_spec(px, py)] == TileType::Floor,
        decreases rooms@.len() - i,
    {
        assert(inside_border(rooms@[i - 1]) && inside_border(rooms@[i as int]));
        let prev = rooms[i - 1].center();
        let new = rooms[i].center();
        let ghost t0 = map.tiles@;
        assert(prev == center_spec(rooms@[i - 1]) && new == center_spec(rooms@[i as int]));
        let dx = if new.x >= prev.x { new.x - prev.x } else { prev.x - new.x };
        let dy = if new.y >= prev.y { new.y - prev.y } else { prev.y - new.y };
        let row_first = dx <= dy;
        if row_first {
            horizontal_tunnel(map, prev.x, new.x, prev.y);
            let ghost t1 = map.tiles@;
            vertical_tunnel(map, prev.y, new.y, new.x);
            proof {
                assert forall|x: int| (prev.x <= x <= new.x || new.x <= x <= prev.x) implies #[trigger] map.tiles@[idx_spec(
                    x,
                    prev.y as int,
                )] == TileType::Floor by {
                    assert(t1[idx_spec(x, prev.y as int)] == TileType::Floor);
                }
            }
        } else {
            vertical_tunnel(map, prev.y, new.y, prev.x);
            let ghost t1 = map.tiles@;
            horizontal_tunnel(map, prev.x, new.x, new.y);
            proof {
                assert forall|y: int| (prev.y <= y <= new.y || new.y <= y <= prev.y) implies #[trigger] map.tiles@[idx_spec(
                    prev.x as int,
                    y,
                )] == TileType::Floor by {
                    assert(t1[idx_spec(prev.x as int, y)] == TileType::Floor);
                }
            }
        }
        proof {
            let t2 = map.tiles@;
            assert(keeps_floor(t0, t2));
            assert forall|j: int| 0 <= j < NUM_TILES implies #[trigger] t2[j] == old(map).tiles@[j] || t2[j]
                == TileType::Floor by {
                assert(t0[j] == old(map).tiles@[j] || t0[j] == TileType::Floor);
                if t0[j] == TileType::Floor {
                    assert(t2[j] == TileType::Floor);
                }
            }
            assert forall|k: int| 0 <= k < i implies #[trigger] reachable(t2, c0, pidx(center_spec(rooms@[k]))) by {
                assert(reachable(t0, c0, pidx(center_spec(rooms@[k]))));
                lemma_reach_kept(t0, t2, c0, pidx(center_spec(rooms@[k])));
            }
            assert(reachable(t2, c0, pidx(center_spec(rooms@[i - 1]))));
            lemma_corridor_joins(t2, c0, prev, new, row_first);
            assert forall|k: int, px: int, py: int|
                1 <= k < i + 1 && #[trigger] on_corridor_k(rooms@, k, px, py) implies t2[idx_spec(px, py)] == TileType::Floor by {
                assert(inside_border(rooms@[k - 1]) && inside_border(rooms@[k]));
                if k < i {
                    assert(t0[idx_spec(px, py)] == TileType::Floor);
                } else if row_first {
                    if py == prev.y && between(px, prev.x as int, new.x as int) {
                        assert(t2[idx_spec(px, prev.y as int)] == TileType::Floor);
                    }
                } else {
                    if px == prev.x && between(py, prev.y as int, new.y as int) {
                        assert(t2[idx_spec(prev.x as int, py)] == TileType::Floor);
                    }
                }
            }
            assert forall|px: int, py: int|
                in_bounds_spec(px, py) && #[trigger] t2[idx_spec(px, py)] == TileType::Floor implies old(map).tiles@[idx_spec(
                    px,
                    py,
                )] == TileType::Floor || on_corridor_before(rooms@, i + 1, px, py) by {
                if t0[idx_spec(px, py)] == TileType::Floor {
                    if on_corridor_before(rooms@, i as int, px, py) {
                        let k = choose|k: int| 1 <= k < i && #[trigger] on_corridor_k(rooms@, k, px, py);
                        assert(on_corridor_k(rooms@, k, px, py));
                    }
                } else {
                    assert(on_corridor_k(rooms@, i as int, px, py));
                }
            }
        }
        i = i + 1;
    }
}

/// The random-rooms strategy.
/// The rooms have been drawn and carved into an otherwise all-Wall map: they
/// are apart, inside the border and of the drawn sizes, their tiles are Floor,
/// no other tile is, and every tile is Floor or Wall.
pub open spec fn rooms_carved(tiles: Seq<TileType>, rooms: Seq<Rect>) -> bool {
    &&& tiles.len() == NUM_TILES
    &&& rooms_apart(rooms)
    &&& forall|k: int| 0 <= k < rooms.len() ==> #[trigger] inside_border(rooms[k])
    &&& forall|k: int| 0 <= k < rooms.len() ==> #[trigger] room_size_ok(rooms[k])
    &&& forall|k: int, x: int, y: int|
        0 <= k < rooms.len() && #[trigger] in_rect(rooms[k], x, y) ==> tiles[idx_spec(x, y)] == TileType::Floor
    &&& forall|px: int, py: int|
        in_bounds_spec(px, py) && #[trigger] tiles[idx_spec(px, py)] == TileType::Floor ==> in_some_room(rooms, px, py)
    &&& forall|i: int| 0 <= i < NUM_TILES ==> #[trigger] tiles[i] == TileType::Floor || tiles[i] == TileType::Wall
}

/// A finished rooms level: playable; at least two rooms, apart, inside the border
/// and of the drawn sizes; the player in the first room; Floor exactly on the
/// rooms and on the L-shaped corridors between consecutive room centres, Wall
/// everywhere else; a spawn place at the centre of every room after the first.
pub open spec fn rooms_level(mb: MapBuilder) -> bool {
    &&& mb.level_ready()
    &&& MIN_ROOMS <= mb.rooms@.len()
    &&& rooms_apart(mb.rooms@)
    &&& forall|k: int| 0 <= k < mb.rooms@.len() ==> #[trigger] inside_border(mb.rooms@[k])
    &&& forall|k: int| 0 <= k < mb.rooms@.len() ==> #[trigger] room_size_ok(mb.rooms@[k])
    &&& mb.player_start == center_spec(mb.rooms@[0])
    &&& forall|px: int, py: int|
        in_bounds_spec(px, py) && #[trigger] mb.map.tiles@[idx_spec(px, py)] == TileType::Floor
            ==> in_some_room(mb.rooms@, px, py) || on_some_corridor(mb.rooms@, px, py)
    &&& forall|k: int, px: int, py: int|
        1 <= k < mb.rooms@.len() && #[trigger] on_corridor_k(mb.rooms@, k, px, py)
            ==> mb.map.tiles@[idx_spec(px, py)] == TileType::Floor
    &&& forall|k: int, x: int, y: int|
        0 <= k < mb.rooms@.len() && #[trigger] in_rect(mb.rooms@[k], x, y) ==> mb.map.tiles@[idx_spec(x, y)]
            == TileType::Floor
    &&& mb.spawn_locations@.len() == mb.rooms@.len() - 1
    &&& forall|k: int|
        0 <= k < mb.spawn_locations@.len() ==> (#[trigger] mb.spawn_locations@[k]).point == center_spec(
            mb.rooms@[k + 1],
        ) && mb.spawn_locations@[k].preferred_entity.is_none()
    &&& forall|i: int| 0 <= i < NUM_TILES ==> #[trigger] mb.map.tiles@[i] == TileType::Floor || mb.map.tiles@[i]
        == TileType::Wall
}

/// Turns carved rooms into a level: corridors between consecutive rooms, the
/// player in the first room, the goal, spawn places. Fails exactly when fewer
/// than `MIN_ROOMS` rooms were placed.
pub fn level_from_rooms(map: DungeonMap, rooms: Vec<Rect>, theme: Theme) -> (r: Result<MapBuilder, GenerationError>)
    requires
        map.wf(),
        rooms_carved(map.tiles@, rooms@),
    ensures
        r.is_err() <==> rooms@.len() < MIN_ROOMS,
        r.is_err() ==> r.unwrap_err() == GenerationError::TooFewRooms,
        r.is_ok() ==> r.unwrap().rooms@ == rooms@ && r.unwrap().theme == theme && rooms_level(r.unwrap()),
{
    let mut map = map;
    let ghost uncut = map.tiles@;
    if rooms.len() < MIN_ROOMS {
        return Err(GenerationError::TooFewRooms);
    }
    assert(inside_border(rooms@[0]));
    let ghost c0 = pidx(center_spec(rooms@[0]));
    assert forall|k: int| 0 <= k < rooms@.len() implies #[trigger] map.tiles@[pidx(center_spec(rooms@[k]))]
        == TileType::Floor by {
        let r = rooms@[k];
        assert(inside_border(r));
        assert(in_rect(r, center_spec(r).x as int, center_spec(r).y as int));
    }
    assert(map.tiles@[c0] == TileType::Floor);
    build_corridors(&mut map, &rooms);
    assert(map.tiles@[c0] == TileType::Floor);
    let player_start = rooms[0].center();
    let start = map_idx(player_start.x, player_start.y);
    let ghost carved = map.tiles@;
    let (goal, _dist) = settle(&mut map, start);
    let amulet_start = crate::map::idx_to_point(goal);
    let mut spawn_locations: Vec<SpawnLocation> = Vec::new();
    let mut k: usize = 1;
    while k < rooms.len()
        invariant
            1 <= k <= rooms@.len(),
            map.wf(),
            forall|k: int| 0 <= k < rooms@.len() ==> #[trigger] inside_border(rooms@[k]),
            forall|m: int|
                0 <= m < spawn_locations@.len() ==> point_in_bounds(#[trigger] spawn_locations@[m].point)
                    && is_floor(map.tiles@, pidx(spawn_locations@[m].point)),
            spawn_locations@.len() == k - 1,
            forall|m: int|
                0 <= m < spawn_locations@.len() ==> (#[trigger] spawn_locations@[m]).point == center_spec(rooms@[m + 1])
                    && spawn_locations@[m].preferred_entity.is_none(),
            forall|t: int| #[trigger] reachable(carved, start as int, t) ==> is_floor(map.tiles@, t),
            forall|m: int| 0 <= m < rooms@.len() ==> #[trigger] reachable(carved, start as int, pidx(center_spec(rooms@[m]))),
        decreases rooms@.len() - k,
    {
        assert(inside_border(rooms@[k as int]));
        let c = rooms[k].center();
        assert(reachable(carved, start as int, pidx(center_spec(rooms@[k as int]))));
        spawn_locations.push(SpawnLocation { point: c, preferred_entity: None });
        k = k + 1;
    }
    proof {
        assert forall|k: int, x: int, y: int|
            0 <= k < rooms@.len() && #[trigger] in_rect(rooms@[k], x, y) implies map.tiles@[idx_spec(x, y)]
                == TileType::Floor by {
            let r = rooms@[k];
            assert(inside_border(r));
            let c = center_spec(r);
            assert forall|px: int| (c.x <= px <= x || x <= px <= c.x) implies #[trigger] carved[idx_spec(px, c.y as int)]
                == TileType::Floor by {
                assert(in_rect(r, px, c.y as int));
                assert(uncut[idx_spec(px, c.y as int)] == TileType::Floor);
            }
            assert forall|py: int| (c.y <= py <= y || y <= py <= c.y) implies #[trigger] carved[idx_spec(x, py)]
                == TileType::Floor by {
                assert(in_rect(r, x, py));
                assert(uncut[idx_spec(x, py)] == TileType::Floor);
            }
            assert(reachable(carved, start as int, pidx(c)));
            lemma_corridor_joins(carved, start as int, c, Point { x: x as i32, y: y as i32 }, true);
            assert(reachable(carved, start as int, idx_spec(x, y)));
        }
        assert forall|k: int, px: int, py: int|
            1 <= k < rooms@.len() && #[trigger] on_corridor_k(rooms@, k, px, py) implies map.tiles@[idx_spec(px, py)]
                == TileType::Floor by {
            assert(inside_border(rooms@[k - 1]) && inside_border(rooms@[k]));
            assert(reachable(carved, start as int, pidx(center_spec(rooms@[k - 1]))));
            lemma_corridor_tile_reachable(carved, start as int, rooms@, k, px, py);
        }
        assert forall|i: int| 0 <= i < NUM_TILES implies #[trigger] map.tiles@[i] == TileType::Floor || map.tiles@[i]
            == TileType::Wall by {
            assert(carved[i] == uncut[i] || carved[i] == TileType::Floor);
            assert(uncut[i] == TileType::Floor || uncut[i] == TileType::Wall);
        }
        assert forall|px: int, py: int|
            in_bounds_spec(px, py) && #[trigger] map.tiles@[idx_spec(px, py)] == TileType::Floor implies in_some_room(
                rooms@,
                px,
                py,
            ) || on_some_corridor(rooms@, px, py) by {
            assert(carved[idx_spec(px, py)] == TileType::Floor);
            assert(uncut[idx_spec(px, py)] == TileType::Floor ==> in_some_room(rooms@, px, py));
        }
    }
    Ok(MapBuilder { map, rooms, spawn_locations, player_start, amulet_start, theme })
}

/// The random-rooms strategy.
pub struct RoomsArchitect {}

impl RoomsArchitect {
    /// Draws rooms into an all-Wall map, at most `NUM_ROOMS`, then builds the
    /// level from them. Fails when fewer than two rooms fit in the attempt budget.
    pub fn create_map_builder(&mut self, rng: &mut RandomNumberGenerator, theme: Theme) -> (r: Result<MapBuilder, GenerationError>)
        ensures
            r.is_ok() ==> rooms_level(r.unwrap()) && r.unwrap().theme == theme && r.unwrap().rooms@.len() <= NUM_ROOMS,
            r.is_err() ==> r.unwrap_err() == GenerationError::TooFewRooms,
    {
        let mut map = DungeonMap::filled(TileType::Wall);
        let ghost blank = map.tiles@;
        let (rooms, _attempts) = build_random_rooms(&mut map, rng);
        proof {
            assert forall|px: int, py: int|
                in_bounds_spec(px, py) && #[trigger] map.tiles@[idx_spec(px, py)] == TileType::Floor implies in_some_room(
                    rooms@,
                    px,
                    py,
                ) by {
                assert(blank[idx_spec(px, py)] == TileType::Wall);
            }
            assert forall|i: int| 0 <= i < NUM_TILES implies #[trigger] map.tiles@[i] == TileType::Floor || map.tiles@[i]
                == TileType::Wall by {
                assert(map.tiles@[i] == blank[i] || map.tiles@[i] == TileType::Floor);
            }
        }
        level_from_rooms(map, rooms, theme)
    }
}

/// How many spawn places the open-cave strategies draw at most.
pub const NUM_MONSTERS: usize = 50;

/// Spawn places of the open-cave strategies lie further than this from the start.
pub const SPAWN_MIN_DISTANCE: usize = 10;

/// How many steps one drunkard's walk takes at most.
pub const STAGGER_DISTANCE: usize = 400;

/// The drunkard's walk carves until this many tiles are Floor.
pub const DESIRED_FLOOR: usize = NUM_TILES / 3;

/// How many walks the drunkard's walk may start in all.
pub const MAX_WALKS: usize = 200;

/// Cellular-automata rounds.
pub const AUTOMATA_ROUNDS: usize = 10;

/// A cell with more Wall neighbours than this becomes Wall.
pub const WALL_THRESHOLD: u32 = 4;

/// Out of a hundred, the chance that a cell of the initial noise is Wall.
pub const WALL_PERCENT: i32 = 45;

/// How many tiles are Floor.
pub open spec fn floor_count(tiles: Seq<TileType>) -> nat
    decreases tiles.len(),
{
    if tiles.len() == 0 {
        0
    } else {
        floor_count(tiles.drop_last()) + if tiles.last() == TileType::Floor { 1nat } else { 0nat }
    }
}

/// Counts the Floor tiles of the map.
pub fn count_floor(map: &DungeonMap) -> (n: usize)
    requires
        map.wf(),
    ensures
        n == floor_count(map.tiles@),
{
    let mut n: usize = 0;
    let mut i: usize = 0;
    while i < map.tiles.len()
        invariant
            i <= map.tiles@.len(),
            map.wf(),
            n <= i,
            n == floor_count(map.tiles@.subrange(0, i as int)),
        decreases map.tiles@.len() - i,
    {
        assert(map.tiles@.subrange(0, i + 1).drop_last() =~= map.tiles@.subrange(0, i as int));
        if map.tiles[i] == TileType::Floor {
            n = n + 1;
        }
        i = i + 1;
    }
    assert(map.tiles@.subrange(0, i as int) =~= map.tiles@);
    n
}

/// The tile was reached, further than `SPAWN_MIN_DISTANCE` from the start.
pub open spec fn far_tile(dist: Seq<Option<usize>>, i: int) -> bool {
    dist[i].is_some() && dist[i].unwrap() > SPAWN_MIN_DISTANCE
}

/// How many of the first `n` tiles are far tiles.
pub open spec fn far_count(dist: Seq<Option<usize>>, n: int) -> nat
    decreases n,
{
    if n <= 0 {
        0
    } else {
        far_count(dist, n - 1) + if far_tile(dist, n - 1) { 1nat } else { 0nat }
    }
}

pub open spec fn min_nat(a: nat, b: nat) -> nat {
    if a <= b {
        a
    } else {
        b
    }
}

/// `NUM_MONSTERS` far tiles drawn at random without repeats, or all far tiles
/// when there are fewer.
fn spawn_far_points(map: &DungeonMap, dist: &Vec<Option<usize>>, rng: &mut RandomNumberGenerator) -> (spawns: Vec<SpawnLocation>)
    requires
        map.wf(),
        dist@.len() == NUM_TILES,
        forall|i: int| 0 <= i < NUM_TILES && (#[trigger] dist@[i]).is_some() ==> is_floor(map.tiles@, i),
    ensures
        spawns@.len() == min_nat(NUM_MONSTERS as nat, far_count(dist@, NUM_TILES as int)),
        forall|k: int|
            0 <= k < spawns@.len() ==> point_in_bounds(#[trigger] spawns@[k].point) && is_floor(map.tiles@, pidx(spawns@[k].point))
                && far_tile(dist@, pidx(spawns@[k].point)) && spawns@[k].preferred_entity.is_none(),
        forall|a: int, b: int| 0 <= a < b < spawns@.len() ==> (#[trigger] spawns@[a]).point != (#[trigger] spawns@[b]).point,
{
    let mut candidates: Vec<usize> = Vec::new();
    let mut i: usize = 0;
    while i < NUM_TILES
        invariant
            i <= NUM_TILES,
            dist@.len() == NUM_TILES,
            candidates@.len() == far_count(dist@, i as int),
            candidates@.len() <= i,
            forall|k: int| 0 <= k < candidates@.len() ==> #[trigger] candidates@[k] < i && far_tile(dist@, candidates@[k] as int),
            forall|a: int, b: int| 0 <= a < b < candidates@.len() ==> #[trigger] candidates@[a] < #[trigger] candidates@[b],
        decreases NUM_TILES - i,
    {
        match dist[i] {
            Some(d) => {
                if d > SPAWN_MIN_DISTANCE {
                    candidates.push(i);
                }
            },
            None => {},
        }
        i = i + 1;
    }
    let mut spawns: Vec<SpawnLocation> = Vec::new();
    let ghost mut chosen: Seq<usize> = Seq::empty();
    while spawns.len() < NUM_MONSTERS && candidates.len() > 0
        invariant
            spawns@.len() <= NUM_MONSTERS,
            candidates@.len() <= NUM_TILES,
            map.wf(),
            dist@.len() == NUM_TILES,
            chosen.len() == spawns@.len(),
            spawns@.len() + candidates@.len() == far_count(dist@, NUM_TILES as int),
            forall|i: int| 0 <= i < NUM_TILES && (#[trigger] dist@[i]).is_some() ==> is_floor(map.tiles@, i),
            forall|k: int|
                0 <= k < candidates@.len() ==> #[trigger] candidates@[k] < NUM_TILES && far_tile(dist@, candidates@[k] as int),
            forall|a: int, b: int| 0 <= a < b < candidates@.len() ==> #[trigger] candidates@[a] != #[trigger] candidates@[b],
            forall|a: int, b: int| 0 <= a < b < chosen.len() ==> #[trigger] chosen[a] != #[trigger] chosen[b],
            forall|a: int, c: int| 0 <= a < chosen.len() && 0 <= c < candidates@.len() ==> #[trigger] chosen[a] != #[trigger] candidates@[c],
            forall|k: int|
                0 <= k < spawns@.len() ==> point_in_bounds(#[trigger] spawns@[k].point) && is_floor(map.tiles@, pidx(spawns@[k].point))
                    && far_tile(dist@, pidx(spawns@[k].point)) && spawns@[k].preferred_entity.is_none()
                    && pidx(spawns@[k].point) == chosen[k] as int,
        decreases NUM_MONSTERS - spawns@.len(),
    {
        let k = rng_range(rng, 0, candidates.len() as i32) as usize;
        let ghost before = candidates@;
        let c = candidates.remove(k);
        proof {
            assert forall|m: int| 0 <= m < candidates@.len() implies #[trigger] candidates@[m] == if m < k {
                before[m]
            } else {
                before[m + 1]
            } by {}
            assert(c == before[k as int]);
            assert(far_tile(dist@, c as int));
            assert(dist@[c as int].is_some());
            assert forall|a: int, b: int| 0 <= a < b < candidates@.len() implies #[trigger] candidates@[a]
                != #[trigger] candidates@[b] by {
                let a0 = if a < k { a } else { a + 1 };
                let b0 = if b < k { b } else { b + 1 };
                assert(candidates@[a] == before[a0] && candidates@[b] == before[b0]);
                assert(before[a0] != before[b0]);
            }
            assert forall|m: int| 0 <= m < candidates@.len() implies #[trigger] candidates@[m] != c by {
                let m0 = if m < k { m } else { m + 1 };
                assert(candidates@[m] == before[m0]);
                if m0 < k {
                    assert(before[m0] != before[k as int]);
                } else {
                    assert(before[k as int] != before[m0]);
                }
            }
            assert forall|a: int, m: int| 0 <= a < chosen.len() && 0 <= m < candidates@.len() implies #[trigger] chosen[a]
                != #[trigger] candidates@[m] by {
                let m0 = if m < k { m } else { m + 1 };
                assert(candidates@[m] == before[m0]);
                assert(chosen[a] != before[m0]);
            }
            assert forall|a: int| 0 <= a < chosen.len() implies #[trigger] chosen[a] != c by {
                assert(chosen[a] != before[k as int]);
            }
        }
        let p = crate::map::idx_to_point(c);
        let ghost old_spawns = spawns@;
        let ghost old_chosen = chosen;
        spawns.push(SpawnLocation { point: p, preferred_entity: None });
        proof {
            chosen = chosen.push(c);
            assert forall|m: int|
                0 <= m < spawns@.len() implies point_in_bounds(#[trigger] spawns@[m].point) && is_floor(
                    map.tiles@,
                    pidx(spawns@[m].point),
                ) && far_tile(dist@, pidx(spawns@[m].point)) && spawns@[m].preferred_entity.is_none() && pidx(
                    spawns@[m].point,
                ) == chosen[m] as int by {
                if m < old_spawns.len() {
                    assert(spawns@[m] == old_spawns[m]);
                    assert(chosen[m] == old_chosen[m]);
                }
            }
            assert forall|a: int, b: int| 0 <= a < b < chosen.len() implies #[trigger] chosen[a] != #[trigger] chosen[b] by {
                if b < old_chosen.len() {
                    assert(chosen[a] == old_chosen[a] && chosen[b] == old_chosen[b]);
                } else {
                    assert(chosen[a] == old_chosen[a] && chosen[b] == c);
                }
            }
            assert forall|a: int, m: int| 0 <= a < chosen.len() && 0 <= m < candidates@.len() implies #[trigger] chosen[a]
                != #[trigger] candidates@[m] by {
                if a < old_chosen.len() {
                    assert(chosen[a] == old_chosen[a]);
                }
            }
        }
    }
    proof {
        assert forall|a: int, b: int| 0 <= a < b < spawns@.len() implies (#[trigger] spawns@[a]).point != (
        #[trigger] spawns@[b]).point by {
            assert(chosen[a] != chosen[b]);
        }
    }
    spawns
}

/// The point lies off the map's outer ring.
pub open spec fn interior(p: Point) -> bool {
    1 <= p.x < SCREEN_WIDTH - 1 && 1 <= p.y < SCREEN_HEIGHT - 1
}

/// Where one step of a walk in direction `dir` leads: 0 west, 1 east, 2 north, any other south.
pub open spec fn step_spec(pos: Point, dir: i32) -> (int, int) {
    if dir == 0 {
        (pos.x - 1, pos.y as int)
    } else if dir == 1 {
        (pos.x + 1, pos.y as int)
    } else if dir == 2 {
        (pos.x as int, pos.y - 1)
    } else {
        (pos.x as int, pos.y + 1)
    }
}

pub open spec fn interior_xy(x: int, y: int) -> bool {
    1 <= x < SCREEN_WIDTH - 1 && 1 <= y < SCREEN_HEIGHT - 1
}

/// `b` is one orthogonal step from `a`.
pub open spec fn one_step(a: Point, b: Point) -> bool {
    ||| (b.x == a.x - 1 && b.y == a.y)
    ||| (b.x == a.x + 1 && b.y == a.y)
    ||| (b.x == a.x && b.y == a.y - 1)
    ||| (b.x == a.x && b.y == a.y + 1)
}

/// Tile `i` was stood on somewhere along the trail.
pub open spec fn on_trail(trail: Seq<Point>, i: int) -> bool {
    exists|k: int| 0 <= k < trail.len() && pidx(#[trigger] trail[k]) == i
}

proof fn lemma_one_step_adjacent(a: Point, b: Point)
    requires
        interior(a),
        interior(b),
        one_step(a, b),
    ensures
        adjacent(pidx(a), pidx(b)),
{
    assert((a.y * 80 + a.x) % 80 == a.x) by (nonlinear_arith)
        requires
            0 <= a.x < 80,
            0 <= a.y,
    ;
}

/// Every tile of a trail can be walked to from wherever its first tile can.
proof fn lemma_trail_reachable(t: Seq<TileType>, c: int, trail: Seq<Point>, k: int)
    requires
        t.len() == NUM_TILES,
        0 <= k < trail.len(),
        reachable(t, c, pidx(trail[0])),
        forall|j: int| 0 <= j < trail.len() ==> interior(#[trigger] trail[j]) && t[pidx(trail[j])] == TileType::Floor,
        forall|j: int| 0 <= j < trail.len() - 1 ==> one_step(#[trigger] trail[j], trail[j + 1]),
    ensures
        reachable(t, c, pidx(trail[k])),
    decreases k,
{
    if k > 0 {
        lemma_trail_reachable(t, c, trail, k - 1);
        let a = trail[k - 1];
        let b = trail[k];
        assert(one_step(trail[k - 1], trail[(k - 1) + 1]));
        assert(interior(a) && interior(b));
        lemma_one_step_adjacent(a, b);
        let p = choose|p: Seq<int>| #[trigger] is_path(t, p) && p[0] == c && p.last() == pidx(a);
        let two = seq![pidx(a), pidx(b)];
        assert(is_floor(t, two[0]) && is_floor(t, two[1]));
        assert(is_path(t, two));
        let q = lemma_join_paths(t, p, two);
        assert(is_path(t, q) && q[0] == c && q.last() == pidx(b));
    }
}

/// The point is on the innermost ring that a walk may still stand on.
pub open spec fn on_rim(p: Point) -> bool {
    p.x == 1 || p.x == SCREEN_WIDTH - 2 || p.y == 1 || p.y == SCREEN_HEIGHT - 2
}

/// One step of a walk: the neighbour in direction `dir`, or `None` when that
/// neighbour lies on the map's outer ring or off the map.
pub fn walk_step(pos: Point, dir: i32) -> (next: Option<Point>)
    ensures
        next.is_none() <==> !interior_xy(step_spec(pos, dir).0, step_spec(pos, dir).1),
        next.is_some() ==> next.unwrap().x == step_spec(pos, dir).0 && next.unwrap().y == step_spec(pos, dir).1,
{
    let x = pos.x as i64;
    let y = pos.y as i64;
    let (nx, ny) = if dir == 0 {
        (x - 1, y)
    } else if dir == 1 {
        (x + 1, y)
    } else if dir == 2 {
        (x, y - 1)
    } else {
        (x, y + 1)
    };
    if nx >= 1 && nx < (SCREEN_WIDTH - 1) as i64 && ny >= 1 && ny < (SCREEN_HEIGHT - 1) as i64 {
        Some(Point { x: nx as i32, y: ny as i32 })
    } else {
        None
    }
}

/// One random walk from `start` that turns Floor every tile it steps on. It
/// stops when a step would reach the outer ring, or after `STAGGER_DISTANCE`
/// steps. Returns the tiles stood on, in order.
fn drunkard_walk(map: &mut DungeonMap, start: Point, rng: &mut RandomNumberGenerator) -> (trail: Vec<Point>)
    requires
        old(map).wf(),
        interior(start),
    ensures
        final(map).wf(),
        keeps_floor(old(map).tiles@, final(map).tiles@),
        final(map).tiles@[pidx(start)] == TileType::Floor,
        1 <= trail@.len() <= STAGGER_DISTANCE + 1,
        trail@[0] == start,
        forall|k: int|
            0 <= k < trail@.len() ==> interior(#[trigger] trail@[k]) && final(map).tiles@[pidx(trail@[k])]
                == TileType::Floor,
        forall|k: int|
            0 <= k < trail@.len() - 1 ==> one_step(#[trigger] trail@[k], trail@[k + 1]),
        trail@.len() == STAGGER_DISTANCE + 1 || on_rim(trail@.last()),
        forall|i: int|
            0 <= i < NUM_TILES && #[trigger] final(map).tiles@[i] == TileType::Floor && old(map).tiles@[i] != TileType::Floor
                ==> on_trail(trail@, i),
{
    let si = map_idx(start.x, start.y);
    map.tiles.set(si, TileType::Floor);
    let mut trail: Vec<Point> = Vec::new();
    trail.push(start);
    assert(pidx(trail@[0]) == si as int);
    assert(on_trail(trail@, si as int));
    let mut pos = start;
    while trail.len() <= STAGGER_DISTANCE
        invariant
            map.wf(),
            si as int == pidx(start),
            si < NUM_TILES,
            keeps_floor(old(map).tiles@, map.tiles@),
            1 <= trail@.len() <= STAGGER_DISTANCE + 1,
            trail@[0] == start,
            pos == trail@.last(),
            forall|k: int|
                0 <= k < trail@.len() ==> interior(#[trigger] trail@[k]) && map.tiles@[pidx(trail@[k])]
                    == TileType::Floor,
            forall|k: int|
                0 <= k < trail@.len() - 1 ==> one_step(#[trigger] trail@[k], trail@[k + 1]),
            forall|i: int|
                0 <= i < NUM_TILES && #[trigger] map.tiles@[i] == TileType::Floor && old(map).tiles@[i] != TileType::Floor
                    ==> on_trail(trail@, i),
        ensures
            map.wf(),
            keeps_floor(old(map).tiles@, map.tiles@),
            1 <= trail@.len() <= STAGGER_DISTANCE + 1,
            trail@[0] == start,
            forall|k: int|
                0 <= k < trail@.len() ==> interior(#[trigger] trail@[k]) && map.tiles@[pidx(trail@[k])]
                    == TileType::Floor,
            forall|k: int|
                0 <= k < trail@.len() - 1 ==> one_step(#[trigger] trail@[k], trail@[k + 1]),
            trail@.len() == STAGGER_DISTANCE + 1 || on_rim(trail@.last()),
            forall|i: int|
                0 <= i < NUM_TILES && #[trigger] map.tiles@[i] == TileType::Floor && old(map).tiles@[i] != TileType::Floor
                    ==> on_trail(trail@, i),
        decreases STAGGER_DISTANCE + 1 - trail@.len(),
    {
        let dir = rng_range(rng, 0, 4);
        match walk_step(pos, dir) {
            None => {
                assert(interior(pos));
                break;
            },
            Some(next) => {
                let i = map_idx(next.x, next.y);
                let ghost before = trail@;
                let ghost tiles_before = map.tiles@;
                map.tiles.set(i, TileType::Floor);
                trail.push(next);
                pos = next;
                assert forall|j: int|
                    0 <= j < NUM_TILES && #[trigger] map.tiles@[j] == TileType::Floor && old(map).tiles@[j]
                        != TileType::Floor implies on_trail(trail@, j) by {
                    if j == i {
                        assert(pidx(trail@[before.len() as int]) == j);
                    } else {
                        assert(tiles_before[j] == TileType::Floor);
                        let k = choose|k: int| 0 <= k < before.len() && pidx(#[trigger] before[k]) == j;
                        assert(trail@[k] == before[k]);
                    }
                }
                assert forall|k: int|
                    0 <= k < trail@.len() implies interior(#[trigger] trail@[k]) && map.tiles@[pidx(trail@[k])]
                        == TileType::Floor by {
                    if k < before.len() {
                        assert(trail@[k] == before[k]);
                    }
                }
                assert forall|k: int| 0 <= k < trail@.len() - 1 implies one_step(#[trigger] trail@[k], trail@[k + 1]) by {
                    if k < before.len() - 1 {
                        assert(trail@[k] == before[k] && trail@[k + 1] == before[k + 1]);
                        assert(one_step(before[k], before[k + 1]));
                    } else {
                        assert(trail@[k] == before.last() && trail@[k + 1] == next);
                    }
                }
            },
        }
    }
    trail
}

/// The indices of all Floor tiles, in scan order.
fn floor_tiles(map: &DungeonMap) -> (r: Vec<usize>)
    requires
        map.wf(),
    ensures
        r@.len() <= NUM_TILES,
        forall|k: int| 0 <= k < r@.len() ==> #[trigger] r@[k] < NUM_TILES && map.tiles@[r@[k] as int] == TileType::Floor,
{
    let mut r: Vec<usize> = Vec::new();
    let mut i: usize = 0;
    while i < NUM_TILES
        invariant
            i <= NUM_TILES,
            map.wf(),
            r@.len() <= i,
            forall|k: int| 0 <= k < r@.len() ==> #[trigger] r@[k] < NUM_TILES && map.tiles@[r@[k] as int] == TileType::Floor,
        decreases NUM_TILES - i,
    {
        if map.tiles[i] == TileType::Floor {
            r.push(i);
        }
        i = i + 1;
    }
    r
}

/// A walk that starts on a tile reachable from `c`, on a map that was one
/// region around `c`, leaves it one region around `c`.
proof fn lemma_walk_keeps_connected(t0: Seq<TileType>, t: Seq<TileType>, c: int, trail: Seq<Point>)
    requires
        t0.len() == NUM_TILES,
        connected_from(t0, c),
        keeps_floor(t0, t),
        1 <= trail.len(),
        reachable(t, c, pidx(trail[0])),
        forall|j: int| 0 <= j < trail.len() ==> interior(#[trigger] trail[j]) && t[pidx(trail[j])] == TileType::Floor,
        forall|j: int| 0 <= j < trail.len() - 1 ==> one_step(#[trigger] trail[j], trail[j + 1]),
        forall|i: int|
            0 <= i < NUM_TILES && #[trigger] t[i] == TileType::Floor && t0[i] != TileType::Floor ==> on_trail(trail, i),
    ensures
        connected_from(t, c),
{
    assert forall|i: int| #[trigger] is_floor(t, i) implies reachable(t, c, i) by {
        if t0[i] == TileType::Floor {
            assert(is_floor(t0, i));
            lemma_reach_kept(t0, t, c, i);
        } else {
            assert(t[i] == TileType::Floor);
            let k = choose|k: int| 0 <= k < trail.len() && pidx(#[trigger] trail[k]) == i;
            lemma_trail_reachable(t, c, trail, k);
        }
    }
}

/// Carves a cave into an all-Wall map: a first walk from the map's centre,
/// then walks from random Floor tiles while less than `DESIRED_FLOOR` tiles
/// are Floor and fewer than `MAX_WALKS` walks were made. Returns the number of
/// walks. Every walk starts on Floor, so the cave stays one region.
fn carve_cave(map: &mut DungeonMap, rng: &mut RandomNumberGenerator) -> (walks: usize)
    requires
        old(map).wf(),
        forall|i: int| 0 <= i < NUM_TILES ==> old(map).tiles@[i] == TileType::Wall,
    ensures
        final(map).wf(),
        1 <= walks <= MAX_WALKS,
        floor_count(final(map).tiles@) >= DESIRED_FLOOR || walks == MAX_WALKS,
        is_floor(final(map).tiles@, idx_spec(SCREEN_WIDTH / 2, SCREEN_HEIGHT / 2)),
        connected_from(final(map).tiles@, idx_spec(SCREEN_WIDTH / 2, SCREEN_HEIGHT / 2)),
{
    let center = Point::new(SCREEN_WIDTH / 2, SCREEN_HEIGHT / 2);
    let ci = map_idx(center.x, center.y);
    let ghost blank = map.tiles@;
    let first = drunkard_walk(map, center, rng);
    proof {
        let t = map.tiles@;
        assert(is_path(t, seq![ci as int]));
        assert(reachable(t, ci as int, pidx(first@[0])));
        assert(connected_from(blank, ci as int));
        lemma_walk_keeps_connected(blank, t, ci as int, first@);
    }
    let mut walks: usize = 1;
    while count_floor(map) < DESIRED_FLOOR && walks < MAX_WALKS
        invariant
            map.wf(),
            1 <= walks <= MAX_WALKS,
            ci as int == pidx(center),
            ci as int == idx_spec(SCREEN_WIDTH / 2, SCREEN_HEIGHT / 2),
            ci < NUM_TILES,
            is_floor(map.tiles@, ci as int),
            connected_from(map.tiles@, ci as int),
        decreases MAX_WALKS - walks,
    {
        let floors = floor_tiles(map);
        if floors.len() > 0 {
            let k = rng_range(rng, 0, floors.len() as i32) as usize;
            let from = crate::map::idx_to_point(floors[k]);
            if from.x >= 1 && from.x < SCREEN_WIDTH - 1 && from.y >= 1 && from.y < SCREEN_HEIGHT - 1 {
                let ghost t0 = map.tiles@;
                assert(is_floor(t0, pidx(from)));
                assert(reachable(t0, ci as int, pidx(from)));
                let trail = drunkard_walk(map, from, rng);
                proof {
                    let t = map.tiles@;
                    lemma_reach_kept(t0, t, ci as int, pidx(from));
                    lemma_walk_keeps_connected(t0, t, ci as int, trail@);
                }
            }
        }
        walks = walks + 1;
    }
    walks
}

/// The drunkard's-walk strategy.
/// A finished cave level around the map's centre.
pub open spec fn cave_level(mb: MapBuilder) -> bool {
    &&& mb.level_ready()
    &&& mb.rooms@.len() == 0
    &&& mb.spawn_locations@.len() <= NUM_MONSTERS
}

/// Turns a carved cave, one region around the map's centre, into a level: the
/// player at the centre, the goal, spawn places. Fails exactly when less than
/// `DESIRED_FLOOR` tiles are Floor; the map is kept as it is.
pub fn level_from_cave(map: DungeonMap, rng: &mut RandomNumberGenerator, theme: Theme) -> (r: Result<MapBuilder, GenerationError>)
    requires
        map.wf(),
        is_floor(map.tiles@, idx_spec(SCREEN_WIDTH / 2, SCREEN_HEIGHT / 2)),
        connected_from(map.tiles@, idx_spec(SCREEN_WIDTH / 2, SCREEN_HEIGHT / 2)),
    ensures
        r.is_err() <==> floor_count(map.tiles@) < DESIRED_FLOOR,
        r.is_err() ==> r.unwrap_err() == GenerationError::TooLittleFloor,
        r.is_ok() ==> {
            &&& cave_level(r.unwrap())
            &&& r.unwrap().theme == theme
            &&& r.unwrap().map.tiles@ == map.tiles@
            &&& r.unwrap().player_start.x == SCREEN_WIDTH / 2
            &&& r.unwrap().player_start.y == SCREEN_HEIGHT / 2
        },
{
    let mut map = map;
    let center = Point::new(SCREEN_WIDTH / 2, SCREEN_HEIGHT / 2);
    let ci = map_idx(center.x, center.y);
    if count_floor(&map) < DESIRED_FLOOR {
        return Err(GenerationError::TooLittleFloor);
    }
    let (goal, dist) = settle(&mut map, ci);
    let spawn_locations = spawn_far_points(&map, &dist, rng);
    let amulet_start = crate::map::idx_to_point(goal);
    Ok(MapBuilder { map, rooms: Vec::new(), spawn_locations, player_start: center, amulet_start, theme })
}

/// The drunkard's-walk strategy.
pub struct DrunkardsWalkArchitect {}

impl DrunkardsWalkArchitect {
    /// Carves a cave by random walks (see `carve_cave`) and builds the level
    /// from it. Fails when the walk budget ran out before a third of the map
    /// was Floor.
    pub fn create_map_builder(&mut self, rng: &mut RandomNumberGenerator, theme: Theme) -> (r: Result<MapBuilder, GenerationError>)
        ensures
            r.is_ok() ==> {
                &&& cave_level(r.unwrap())
                &&& r.unwrap().theme == theme
                &&& r.unwrap().player_start.x == SCREEN_WIDTH / 2
                &&& r.unwrap().player_start.y == SCREEN_HEIGHT / 2
                &&& floor_count(r.unwrap().map.tiles@) >= DESIRED_FLOOR
            },
            r.is_err() ==> r.unwrap_err() == GenerationError::TooLittleFloor,
    {
        let mut map = DungeonMap::filled(TileType::Wall);
        let _walks = carve_cave(&mut map, rng);
        level_from_cave(map, rng, theme)
    }
}

/// 1 where the cell is off the map or a Wall, else 0.
pub open spec fn wall_at(tiles: Seq<TileType>, x: int, y: int) -> int {
    if !in_bounds_spec(x, y) || tiles[idx_spec(x, y)] == TileType::Wall {
        1
    } else {
        0
    }
}

/// How many of the eight cells around `(x, y)` are Wall or off the map.
pub open spec fn wall_neighbours(tiles: Seq<TileType>, x: int, y: int) -> int {
    wall_at(tiles, x - 1, y - 1) + wall_at(tiles, x, y - 1) + wall_at(tiles, x + 1, y - 1) + wall_at(tiles, x - 1, y)
        + wall_at(tiles, x + 1, y) + wall_at(tiles, x - 1, y + 1) + wall_at(tiles, x, y + 1) + wall_at(
        tiles,
        x + 1,
        y + 1,
    )
}

/// What a cell becomes in the next automata round.
pub open spec fn next_tile(tiles: Seq<TileType>, i: int) -> TileType {
    let p = crate::map::point_of(i);
    if wall_neighbours(tiles, p.x as int, p.y as int) > WALL_THRESHOLD {
        TileType::Wall
    } else {
        TileType::Floor
    }
}

fn wall_count_at(map: &DungeonMap, x: i32, y: i32) -> (r: u32)
    requires
        map.wf(),
    ensures
        r == wall_at(map.tiles@, x as int, y as int),
{
    if map.is_opaque(Point { x, y }) {
        1
    } else {
        0
    }
}

/// Counts the Wall cells around `(x, y)`, with cells off the map counted as Wall.
pub fn count_wall_neighbours(map: &DungeonMap, x: i32, y: i32) -> (n: u32)
    requires
        map.wf(),
        in_bounds_spec(x as int, y as int),
    ensures
        n == wall_neighbours(map.tiles@, x as int, y as int),
{
    wall_count_at(map, x - 1, y - 1) + wall_count_at(map, x, y - 1) + wall_count_at(map, x + 1, y - 1) + wall_count_at(
        map,
        x - 1,
        y,
    ) + wall_count_at(map, x + 1, y) + wall_count_at(map, x - 1, y + 1) + wall_count_at(map, x, y + 1)
        + wall_count_at(map, x + 1, y + 1)
}

/// One round of the automaton, every cell computed from the old map.
pub fn automata_round(map: &DungeonMap) -> (r: DungeonMap)
    requires
        map.wf(),
    ensures
        r.wf(),
        forall|i: int| 0 <= i < NUM_TILES ==> #[trigger] r.tiles@[i] == next_tile(map.tiles@, i),
{
    let mut tiles: Vec<TileType> = Vec::new();
    let mut i: usize = 0;
    while i < NUM_TILES
        invariant
            i <= NUM_TILES,
            map.wf(),
            tiles@.len() == i,
            forall|k: int| 0 <= k < i ==> #[trigger] tiles@[k] == next_tile(map.tiles@, k),
        decreases NUM_TILES - i,
    {
        let p = crate::map::idx_to_point(i);
        let n = count_wall_neighbours(map, p.x, p.y);
        if n > WALL_THRESHOLD {
            tiles.push(TileType::Wall);
        } else {
            tiles.push(TileType::Floor);
        }
        i = i + 1;
    }
    DungeonMap { tiles }
}

/// What a cell of the initial noise becomes for a draw from 0 to 99.
pub open spec fn noise_spec(draw: int) -> TileType {
    if draw < WALL_PERCENT {
        TileType::Wall
    } else {
        TileType::Floor
    }
}

/// The cell for one draw: Wall when the draw is below `WALL_PERCENT`, else Floor.
pub fn noise_tile(draw: i32) -> (t: TileType)
    ensures
        t == noise_spec(draw as int),
{
    if draw < WALL_PERCENT {
        TileType::Wall
    } else {
        TileType::Floor
    }
}

/// A map of independent random cells, each Wall with chance `WALL_PERCENT` in
/// a hundred. Returns the map and the draws, one from 0 to 99 per cell.
fn random_noise_map(rng: &mut RandomNumberGenerator) -> (r: (DungeonMap, Ghost<Seq<i32>>))
    ensures
        r.0.wf(),
        r.1@.len() == NUM_TILES,
        forall|i: int| 0 <= i < NUM_TILES ==> 0 <= #[trigger] r.1@[i] < 100 && r.0.tiles@[i] == noise_spec(r.1@[i] as int),
{
    let mut tiles: Vec<TileType> = Vec::new();
    let ghost mut draws: Seq<i32> = Seq::empty();
    let mut i: usize = 0;
    while i < NUM_TILES
        invariant
            i <= NUM_TILES,
            tiles@.len() == i,
            draws.len() == i,
            forall|k: int| 0 <= k < i ==> 0 <= #[trigger] draws[k] < 100 && tiles@[k] == noise_spec(draws[k] as int),
        decreases NUM_TILES - i,
    {
        let draw = rng_range(rng, 0, 100);
        tiles.push(noise_tile(draw));
        proof {
            draws = draws.push(draw);
        }
        i = i + 1;
    }
    (DungeonMap { tiles }, Ghost(draws))
}

/// A Floor tile of the largest Floor region, the region met first in scan order
/// on ties; `None` when the map has no Floor.
pub fn largest_region_start(map: &DungeonMap) -> (r: Option<usize>)
    requires
        map.wf(),
    ensures
        r.is_some() ==> r.unwrap() < NUM_TILES && map.tiles@[r.unwrap() as int] == TileType::Floor,
        r.is_some() ==> forall|t: int|
            #[trigger] is_floor(map.tiles@, t) ==> region_size(map.tiles@, t) <= region_size(map.tiles@, r.unwrap() as int),
        r.is_some() ==> forall|t: int|
            #[trigger] is_floor(map.tiles@, t) && t < r.unwrap() ==> region_size(map.tiles@, t) < region_size(
                map.tiles@,
                r.unwrap() as int,
            ),
        r.is_none() ==> forall|k: int| 0 <= k < NUM_TILES ==> map.tiles@[k] != TileType::Floor,
{
    let ghost tiles = map.tiles@;
    let mut covered: Vec<bool> = Vec::new();
    let mut i: usize = 0;
    while i < NUM_TILES
        invariant
            i <= NUM_TILES,
            covered@.len() == i,
            forall|k: int| 0 <= k < i ==> !covered@[k],
        decreases NUM_TILES - i,
    {
        covered.push(false);
        i = i + 1;
    }
    let mut best: Option<usize> = None;
    let mut best_size: usize = 0;
    i = 0;
    while i < NUM_TILES
        invariant
            i <= NUM_TILES,
            map.wf(),
            tiles == map.tiles@,
            covered@.len() == NUM_TILES,
            best.is_some() ==> best.unwrap() < NUM_TILES && tiles[best.unwrap() as int] == TileType::Floor,
            best.is_some() ==> region_size(tiles, best.unwrap() as int) == best_size,
            best.is_some() ==> forall|t: int|
                #[trigger] is_floor(tiles, t) && t < best.unwrap() ==> region_size(tiles, t) < best_size,
            forall|t: int|
                0 <= t < NUM_TILES && #[trigger] covered@[t] ==> is_floor(tiles, t) && region_size(tiles, t) <= best_size,
            forall|t: int| 0 <= t < i && is_floor(tiles, t) ==> #[trigger] covered@[t],
            best.is_none() ==> forall|k: int| 0 <= k < i ==> tiles[k] != TileType::Floor,
            best.is_none() ==> forall|k: int| 0 <= k < NUM_TILES ==> !covered@[k],
        decreases NUM_TILES - i,
    {
        if map.tiles[i] == TileType::Floor && !covered[i] {
            let dist = flood_distances(map, i);
            let size = flood_size(&dist);
            proof {
                lemma_flood_counts_region(tiles, dist@, i as int, NUM_TILES as int);
                assert(dist@.subrange(0, NUM_TILES as int) =~= dist@);
            }
            if best.is_none() || size > best_size {
                proof {
                    assert forall|t: int| #[trigger] is_floor(tiles, t) && t < i implies region_size(tiles, t) < size by {
                        assert(covered@[t]);
                    }
                }
                best = Some(i);
                best_size = size;
            }
            let mut j: usize = 0;
            while j < NUM_TILES
                invariant
                    j <= NUM_TILES,
                    i < NUM_TILES,
                    tiles == map.tiles@,
                    covered@.len() == NUM_TILES,
                    is_flood(tiles, dist@, i as int),
                    region_size(tiles, i as int) == size,
                    size <= best_size,
                    best.is_some(),
                    best.is_some() ==> forall|t: int|
                        #[trigger] is_floor(tiles, t) && t < best.unwrap() ==> region_size(tiles, t) < best_size,
                    best.is_some() ==> region_size(tiles, best.unwrap() as int) == best_size,
                    best.unwrap() < NUM_TILES && tiles[best.unwrap() as int] == TileType::Floor,
                    forall|t: int|
                        0 <= t < NUM_TILES && #[trigger] covered@[t] ==> is_floor(tiles, t) && region_size(tiles, t)
                            <= best_size,
                    forall|t: int| 0 <= t < i && is_floor(tiles, t) ==> #[trigger] covered@[t],
                    forall|t: int| 0 <= t < j && (#[trigger] dist@[t]).is_some() ==> covered@[t],
                decreases NUM_TILES - j,
            {
                if dist[j].is_some() {
                    proof {
                        crate::flood::lemma_flood_reaches_exactly(tiles, dist@, i as int, j as int);
                        lemma_region_size_shared(tiles, i as int, j as int);
                    }
                    covered.set(j, true);
                }
                j = j + 1;
            }
            assert(dist@[i as int].is_some());
        }
        i = i + 1;
    }
    proof {
        if best.is_some() {
            assert forall|t: int| #[trigger] is_floor(tiles, t) implies region_size(tiles, t) <= region_size(
                tiles,
                best.unwrap() as int,
            ) by {
                assert(covered@[t]);
            }
        }
    }
    best
}

/// The cellular-automata strategy.
/// The map after `n` rounds of the automaton.
pub open spec fn after_rounds(tiles: Seq<TileType>, n: nat) -> Seq<TileType>
    decreases n,
{
    if n == 0 {
        tiles
    } else {
        let prev = after_rounds(tiles, (n - 1) as nat);
        Seq::new(NUM_TILES as nat, |i: int| next_tile(prev, i))
    }
}

/// Runs `AUTOMATA_ROUNDS` rounds of the automaton on the noise, starts the
/// player in the largest Floor region and walls off every other region. Fails
/// exactly when no Floor is left after the rounds.
pub fn cave_from_noise(noise: DungeonMap, rng: &mut RandomNumberGenerator, theme: Theme) -> (r: Result<MapBuilder, GenerationError>)
    requires
        noise.wf(),
    ensures
        r.is_err() <==> forall|i: int|
            0 <= i < NUM_TILES ==> #[trigger] after_rounds(noise.tiles@, AUTOMATA_ROUNDS as nat)[i] != TileType::Floor,
        r.is_err() ==> r.unwrap_err() == GenerationError::NoFloor,
        r.is_ok() ==> {
            let after = after_rounds(noise.tiles@, AUTOMATA_ROUNDS as nat);
            let mb = r.unwrap();
            &&& cave_level(mb)
            &&& mb.theme == theme
            &&& forall|i: int|
                0 <= i < NUM_TILES ==> #[trigger] mb.map.tiles@[i] == after[i] || mb.map.tiles@[i] == TileType::Wall
            &&& forall|t: int|
                #[trigger] is_floor(after, t) ==> region_size(after, t) <= region_size(after, pidx(mb.player_start))
        },
{
    let mut map = noise;
    let mut round: usize = 0;
    while round < AUTOMATA_ROUNDS
        invariant
            round <= AUTOMATA_ROUNDS,
            map.wf(),
            map.tiles@ == after_rounds(noise.tiles@, round as nat),
        decreases AUTOMATA_ROUNDS - round,
    {
        let ghost prev = map.tiles@;
        map = automata_round(&map);
        proof {
            assert(map.tiles@ =~= Seq::new(NUM_TILES as nat, |i: int| next_tile(prev, i)));
        }
        round = round + 1;
    }
    let ghost after = map.tiles@;
    match largest_region_start(&map) {
        None => Err(GenerationError::NoFloor),
        Some(start) => {
            let (goal, dist) = settle(&mut map, start);
            let spawn_locations = spawn_far_points(&map, &dist, rng);
            let player_start = crate::map::idx_to_point(start);
            let amulet_start = crate::map::idx_to_point(goal);
            proof {
                assert(!(forall|i: int| 0 <= i < NUM_TILES ==> #[trigger] after[i] != TileType::Floor));
            }
            Ok(MapBuilder { map, rooms: Vec::new(), spawn_locations, player_start, amulet_start, theme })
        },
    }
}

/// The cellular-automata strategy.
pub struct CellularAutomataArchitect {}

impl CellularAutomataArchitect {
    /// Draws random noise and builds the level from it (see `cave_from_noise`).
    /// Fails when no Floor is left after the rounds.
    pub fn create_map_builder(&mut self, rng: &mut RandomNumberGenerator, theme: Theme) -> (r: Result<MapBuilder, GenerationError>)
        ensures
            r.is_ok() ==> cave_level(r.unwrap()) && r.unwrap().theme == theme,
            r.is_err() ==> r.unwrap_err() == GenerationError::NoFloor,
    {
        let (noise, _draws) = random_noise_map(rng);
        cave_from_noise(noise, rng, theme)
    }
}

} // verus!
