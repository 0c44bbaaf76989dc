use vstd::prelude::*;

verus! {

pub const SCREEN_WIDTH: i32 = 80;
pub const SCREEN_HEIGHT: i32 = 50;
pub const NUM_TILES: usize = 4000;

#[derive(Clone, Copy, Debug, PartialEq, Eq, Structural)]
pub enum TileType {
    Wall,
    Floor,
    Exit,
}

#[derive(Clone, Copy, Debug, PartialEq, Eq, Structural)]
pub struct Point {
    pub x: i32,
    pub y: i32,
}

impl Point {
    pub fn new(x: i32, y: i32) -> (r: Point)
        ensures
            r.x == x,
            r.y == y,
    {
        Point { x, y }
    }

    pub fn zero() -> (r: Point)
        ensures
            r.x == 0,
            r.y == 0,
    {
        Point { x: 0, y: 0 }
    }
}

/// Whether a grid coordinate lies on the map.
pub open spec fn in_bounds_spec(x: int, y: int) -> bool {
    0 <= x < SCREEN_WIDTH && 0 <= y < SCREEN_HEIGHT
}

/// The row-major index of a grid coordinate.
pub open spec fn idx_spec(x: int, y: int) -> int {
    y * SCREEN_WIDTH + x
}

/// The point that a tile index stands for.
pub open spec fn point_of(i: int) -> Point {
    Point { x: (i % SCREEN_WIDTH as int) as i32, y: (i / SCREEN_WIDTH as int) as i32 }
}

/// Two tile indices are orthogonal neighbours on the grid.
pub open spec fn adjacent(i: int, j: int) -> bool {
    &&& 0 <= i < NUM_TILES
    &&& 0 <= j < NUM_TILES
    &&& {
        ||| (j == i + 1 && i % SCREEN_WIDTH as int != SCREEN_WIDTH - 1)
        ||| (j == i - 1 && i % SCREEN_WIDTH as int != 0)
        ||| j == i + SCREEN_WIDTH
        ||| j == i - SCREEN_WIDTH
    }
}

pub open spec fn is_floor(tiles: Seq<TileType>, i: int) -> bool {
    0 <= i < tiles.len() && tiles[i] == TileType::Floor
}

/// A walk over Floor tiles, each step to an orthogonal neighbour.
pub open spec fn is_path(tiles: Seq<TileType>, path: Seq<int>) -> bool {
    &&& path.len() > 0
    &&& forall|k: int| 0 <= k < path.len() ==> #[trigger] is_floor(tiles, path[k])
    &&& forall|k: int| 0 <= k < path.len() - 1 ==> #[trigger] adjacent(path[k], path[k + 1])
}

/// Tile `t` can be walked to from tile `s` over Floor.
pub open spec fn reachable(tiles: Seq<TileType>, s: int, t: int) -> bool {
    exists|path: Seq<int>| #[trigger] is_path(tiles, path) && path[0] == s && path.last() == t
}

/// Every Floor tile can be walked to from `s`.
pub open spec fn connected_from(tiles: Seq<TileType>, s: int) -> bool {
    forall|t: int| #[trigger] is_floor(tiles, t) ==> reachable(tiles, s, t)
}

pub fn in_bounds(p: Point) -> (r: bool)
    ensures
        r == in_bounds_spec(p.x as int, p.y as int),
{
    p.x >= 0 && p.x < SCREEN_WIDTH && p.y >= 0 && p.y < SCREEN_HEIGHT
}

pub fn map_idx(x: i32, y: i32) -> (r: usize)
    requires
        in_bounds_spec(x as int, y as int),
    ensures
        r as int == idx_spec(x as int, y as int),
        r < NUM_TILES,
{
    ((y * SCREEN_WIDTH) + x) as usize
}

pub fn idx_to_point(i: usize) -> (r: Point)
    requires
        i < NUM_TILES,
    ensures
        r == point_of(i as int),
        in_bounds_spec(r.x as int, r.y as int),
        idx_spec(r.x as int, r.y as int) == i,
{
    let w: usize = SCREEN_WIDTH as usize;
    Point { x: (i % w) as i32, y: (i / w) as i32 }
}

#[derive(Clone, Debug)]
pub struct DungeonMap {
    pub tiles: Vec<TileType>,
}

impl DungeonMap {
    pub open spec fn wf(&self) -> bool {
        self.tiles@.len() == NUM_TILES
    }

    /// A map of the fixed size with every tile set to `tile`.
    pub fn filled(tile: TileType) -> (r: DungeonMap)
        ensures
            r.wf(),
            forall|i: int| 0 <= i < NUM_TILES ==> r.tiles@[i] == tile,
    {
        let mut tiles: Vec<TileType> = Vec::new();
        let mut i: usize = 0;
        while i < NUM_TILES
            invariant
                i <= NUM_TILES,
                tiles@.len() == i,
                forall|k: int| 0 <= k < i ==> tiles@[k] == tile,
            decreases NUM_TILES - i,
        {
            tiles.push(tile);
            i = i + 1;
        }
        DungeonMap { tiles }
    }

    /// A fresh map, all Floor.
    pub fn new() -> (r: DungeonMap)
        ensures
            r.wf(),
            forall|i: int| 0 <= i < NUM_TILES ==> r.tiles@[i] == TileType::Floor,
    {
        DungeonMap::filled(TileType::Floor)
    }

    /// Sets every tile to `tile`.
    pub fn fill(&mut self, tile: TileType)
        requires
            old(self).wf(),
        ensures
            final(self).wf(),
            forall|i: int| 0 <= i < NUM_TILES ==> final(self).tiles@[i] == tile,
    {
        let mut i: usize = 0;
        while i < NUM_TILES
            invariant
                i <= NUM_TILES,
                self.tiles@.len() == NUM_TILES,
                forall|k: int| 0 <= k < i ==> self.tiles@[k] == tile,
            decreases NUM_TILES - i,
        {
            self.tiles.set(i, tile);
            i = i + 1;
        }
    }

    /// The index of an in-bounds point, `None` for one off the map.
    pub fn try_idx(&self, p: Point) -> (r: Option<usize>)
        ensures
            r.is_some() <==> in_bounds_spec(p.x as int, p.y as int),
            r.is_some() ==> r.unwrap() as int == idx_spec(p.x as int, p.y as int),
    {
        if in_bounds(p) {
            Some(map_idx(p.x, p.y))
        } else {
            None
        }
    }

    /// The tile at a point, `None` off the map.
    pub fn tile_at(&self, p: Point) -> (r: Option<TileType>)
        requires
            self.wf(),
        ensures
            r.is_some() <==> in_bounds_spec(p.x as int, p.y as int),
            r.is_some() ==> r.unwrap() == self.tiles@[idx_spec(p.x as int, p.y as int)],
    {
        match self.try_idx(p) {
            Some(i) => Some(self.tiles[i]),
            None => None,
        }
    }

    /// An in-bounds point whose tile is Floor or Exit.
    pub fn can_enter_tile(&self, p: Point) -> (r: bool)
        requires
            self.wf(),
        ensures
            r == (in_bounds_spec(p.x as int, p.y as int) && {
                let t = self.tiles@[idx_spec(p.x as int, p.y as int)];
                t == TileType::Floor || t == TileType::Exit
            }),
    {
        match self.try_idx(p) {
            Some(i) => {
                let t = self.tiles[i];
                t == TileType::Floor || t == TileType::Exit
            },
            None => false,
        }
    }

    /// Whether a point is off the map or a Wall: what blocks sight.
    pub fn is_opaque(&self, p: Point) -> (r: bool)
        requires
            self.wf(),
        ensures
            r == opaque_spec(self.tiles@, p),
    {
        match self.try_idx(p) {
            Some(i) => self.tiles[i] == TileType::Wall,
            None => true,
        }
    }
}

/// Off the map, or a Wall.
pub open spec fn opaque_spec(tiles: Seq<TileType>, p: Point) -> bool {
    !in_bounds_spec(p.x as int, p.y as int) || tiles[idx_spec(p.x as int, p.y as int)] == TileType::Wall
}

proof fn lemma_adjacent_symmetric(i: int, j: int)
    requires
        adjacent(i, j),
    ensures
        adjacent(j, i),
{
    if j == i + 1 && i % SCREEN_WIDTH as int != SCREEN_WIDTH - 1 {
        assert(j % 80 != 0) by (nonlinear_arith)
            requires
                j == i + 1,
                i % 80 != 79,
                0 <= i,
        ;
    } else if j == i - 1 && i % SCREEN_WIDTH as int != 0 {
        assert(j % 80 != 79) by (nonlinear_arith)
            requires
                j == i - 1,
                i % 80 != 0,
                0 <= j,
        ;
    }
}

/// A walk read backwards is a walk.
pub proof fn lemma_reverse_path(tiles: Seq<TileType>, p: Seq<int>) -> (q: Seq<int>)
    requires
        is_path(tiles, p),
    ensures
        is_path(tiles, q),
        q[0] == p.last(),
        q.last() == p[0],
{
    let n = p.len();
    let q = Seq::new(n, |k: int| p[n - 1 - k]);
    assert forall|k: int| 0 <= k < q.len() implies #[trigger] is_floor(tiles, q[k]) by {
        assert(is_floor(tiles, p[n - 1 - k]));
    }
    assert forall|k: int| 0 <= k < q.len() - 1 implies #[trigger] adjacent(q[k], q[k + 1]) by {
        let m = n - 2 - k;
        assert(adjacent(p[m], p[m + 1]));
        lemma_adjacent_symmetric(p[m], p[m + 1]);
    }
    q
}

/// Two walks that meet end to start make one walk.
pub proof fn lemma_join_paths(tiles: Seq<TileType>, a: Seq<int>, b: Seq<int>) -> (c: Seq<int>)
    requires
        is_path(tiles, a),
        is_path(tiles, b),
        a.last() == b[0],
    ensures
        is_path(tiles, c),
        c[0] == a[0],
        c.last() == b.last(),
{
    let c = a + b.subrange(1, b.len() as int);
    assert forall|k: int| 0 <= k < c.len() implies #[trigger] is_floor(tiles, c[k]) by {
        if k < a.len() {
            assert(is_floor(tiles, a[k]));
        } else {
            assert(c[k] == b[k - a.len() + 1]);
            assert(is_floor(tiles, b[k - a.len() + 1]));
        }
    }
    assert forall|k: int| 0 <= k < c.len() - 1 implies #[trigger] adjacent(c[k], c[k + 1]) by {
        if k < a.len() - 1 {
            assert(adjacent(a[k], a[k + 1]));
        } else if k == a.len() - 1 {
            assert(c[k] == b[0] && c[k + 1] == b[1]);
            assert(adjacent(b[0], b[1]));
        } else {
            let m = k - a.len() + 1;
            assert(c[k] == b[m] && c[k + 1] == b[m + 1]);
            assert(adjacent(b[m], b[m + 1]));
        }
    }
    if b.len() == 1 {
        assert(c =~= a);
    }
    c
}

/// A map whose every Floor tile can be walked to from one Floor tile holds a
/// single Floor region: any Floor tile can be walked to from any other.
pub proof fn lemma_single_region(tiles: Seq<TileType>, s: int, a: int, b: int)
    requires
        is_floor(tiles, s),
        connected_from(tiles, s),
        is_floor(tiles, a),
        is_floor(tiles, b),
    ensures
        reachable(tiles, a, b),
{
    assert(reachable(tiles, s, a));
    assert(reachable(tiles, s, b));
    let pa = choose|p: Seq<int>| #[trigger] is_path(tiles, p) && p[0] == s && p.last() == a;
    let pb = choose|p: Seq<int>| #[trigger] is_path(tiles, p) && p[0] == s && p.last() == b;
    let ra = lemma_reverse_path(tiles, pa);
    let c = lemma_join_paths(tiles, ra, pb);
    assert(is_path(tiles, c) && c[0] == a && c.last() == b);
}

} // verus!
