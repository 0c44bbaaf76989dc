use vstd::prelude::*;
use crate::map::{in_bounds, in_bounds_spec, idx_spec, DungeonMap, Point, TileType, SCREEN_HEIGHT, SCREEN_WIDTH};

verus! {

/// What one viewer sees: its sight radius, whether its visible set is stale,
/// and the set itself.
#[derive(Debug)]
pub struct FieldOfView {
    pub visible_tiles: Vec<Point>,
    pub radius: i32,
    pub is_dirty: bool,
}

impl FieldOfView {
    /// A stale view that sees nothing yet.
    pub fn new(radius: i32) -> (r: FieldOfView)
        ensures
            r.radius == radius,
            r.is_dirty,
            r.visible_tiles@.len() == 0,
    {
        FieldOfView { visible_tiles: Vec::new(), radius, is_dirty: true }
    }
}

/// An entity that sees: where it stands and its view.
#[derive(Debug)]
pub struct Viewer {
    pub position: Point,
    pub fov: FieldOfView,
}

pub open spec fn abs(d: int) -> int {
    if d < 0 {
        -d
    } else {
        d
    }
}

/// How many steps the sight line from `a` to `b` takes.
pub open spec fn line_steps(a: Point, b: Point) -> int {
    let adx = abs(b.x - a.x);
    let ady = abs(b.y - a.y);
    if adx >= ady {
        adx
    } else {
        ady
    }
}

/// How far along one axis the `k`-th of `n` steps has gone, rounded to nearest.
pub open spec fn line_offset(d: int, k: int, n: int) -> int {
    (abs(d) * k + n / 2) / n
}

pub open spec fn line_coord(from: int, to: int, k: int, n: int) -> int {
    if to - from >= 0 {
        from + line_offset(to - from, k, n)
    } else {
        from - line_offset(to - from, k, n)
    }
}

/// Off the map, or a Wall.
pub open spec fn blocks_sight(tiles: Seq<TileType>, x: int, y: int) -> bool {
    !in_bounds_spec(x, y) || tiles[idx_spec(x, y)] == TileType::Wall
}

/// No tile strictly between `a` and `b` on the sight line blocks sight.
pub open spec fn line_clear(tiles: Seq<TileType>, a: Point, b: Point) -> bool {
    let n = line_steps(a, b);
    forall|k: int|
        1 <= k < n ==> !#[trigger] blocks_sight(
            tiles,
            line_coord(a.x as int, b.x as int, k, n),
            line_coord(a.y as int, b.y as int, k, n),
        )
}

/// `p` is no further than `radius` from `v`.
pub open spec fn in_radius(v: Point, radius: int, p: Point) -> bool {
    radius >= 0 && (p.x - v.x) * (p.x - v.x) + (p.y - v.y) * (p.y - v.y) <= radius * radius
}

/// `p` is seen from `v`: it is the viewer's own tile, whatever the radius; or,
/// for a viewer on the map, it is on the map, within the radius, and nothing
/// blocks the line to it. A blocking tile is itself seen; what lies behind it is not.
pub open spec fn visible_spec(tiles: Seq<TileType>, v: Point, radius: int, p: Point) -> bool {
    ||| p == v
    ||| {
        &&& in_bounds_spec(v.x as int, v.y as int)
        &&& in_bounds_spec(p.x as int, p.y as int)
        &&& in_radius(v, radius, p)
        &&& line_clear(tiles, v, p)
    }
}

/// Whether nothing between `a` and `b` blocks the sight line.
fn sight_line_clear(map: &DungeonMap, a: Point, b: Point) -> (r: bool)
    requires
        map.wf(),
        in_bounds_spec(a.x as int, a.y as int),
        in_bounds_spec(b.x as int, b.y as int),
    ensures
        r == line_clear(map.tiles@, a, b),
{
    let dx = b.x - a.x;
    let dy = b.y - a.y;
    let adx = if dx < 0 { -dx } else { dx };
    let ady = if dy < 0 { -dy } else { dy };
    let n = if adx >= ady { adx } else { ady };
    let mut k: i32 = 1;
    while k < n
        invariant
            map.wf(),
            n == line_steps(a, b),
            adx == abs(dx as int),
            ady == abs(dy as int),
            dx == b.x - a.x,
            dy == b.y - a.y,
            0 <= adx < SCREEN_WIDTH,
            0 <= ady < SCREEN_HEIGHT,
            in_bounds_spec(a.x as int, a.y as int),
            1 <= k,
            forall|j: int|
                1 <= j < k && j < n ==> !#[trigger] blocks_sight(
                    map.tiles@,
                    line_coord(a.x as int, b.x as int, j, n as int),
                    line_coord(a.y as int, b.y as int, j, n as int),
                ),
        decreases n - k,
    {
        assert(adx * k <= 79 * 79) by (nonlinear_arith)
            requires
                0 <= adx <= 79,
                0 < k <= 79,
        ;
        assert(ady * k <= 79 * 79) by (nonlinear_arith)
            requires
                0 <= ady <= 79,
                0 < k <= 79,
        ;
        assert(0 <= adx * k) by (nonlinear_arith)
            requires
                0 <= adx,
                0 < k,
        ;
        assert(0 <= ady * k) by (nonlinear_arith)
            requires
                0 <= ady,
                0 < k,
        ;
        let ox = (adx * k + n / 2) / n;
        let oy = (ady * k + n / 2) / n;
        assert(ox <= adx) by (nonlinear_arith)
            requires
                ox as int == (adx as int * k as int + n as int / 2) / n as int,
                0 < k < n,
                0 <= adx <= n,
        ;
        assert(oy <= ady) by (nonlinear_arith)
            requires
                oy as int == (ady as int * k as int + n as int / 2) / n as int,
                0 < k < n,
                0 <= ady <= n,
        ;
        let x = if dx >= 0 { a.x + ox } else { a.x - ox };
        let y = if dy >= 0 { a.y + oy } else { a.y - oy };
        assert(x == line_coord(a.x as int, b.x as int, k as int, n as int));
        assert(y == line_coord(a.y as int, b.y as int, k as int, n as int));
        if map.is_opaque(Point { x, y }) {
            assert(blocks_sight(
                map.tiles@,
                line_coord(a.x as int, b.x as int, k as int, n as int),
                line_coord(a.y as int, b.y as int, k as int, n as int),
            ));
            return false;
        }
        k = k + 1;
    }
    true
}

/// The set of tiles that a viewer at `center` sees within `radius`, in scan
/// order. A viewer off the map sees only its own point.
///
/// bracket-lib's `field_of_view_set` is not called here. Calling it would take
/// impls of its `Algorithm2D` and `BaseMap` traits on the map type, with its
/// own `Point` declared, and it returns a `HashSet` built by recursive
/// shadowcasting: a result that no contract here could describe beyond giving
/// it a name, so neither the own-tile rule nor the wall rule of this module
/// could be proved of it. The sight rule is stated here instead, as
/// `visible_spec`, and this function is proved to compute exactly it. Its
/// visible sets can differ from bracket-lib's on some maps.
pub fn field_of_view_set(center: Point, radius: i32, map: &DungeonMap) -> (r: Vec<Point>)
    requires
        map.wf(),
    ensures
        forall|p: Point| #[trigger] r@.contains(p) <==> visible_spec(map.tiles@, center, radius as int, p),
{
    let mut r: Vec<Point> = Vec::new();
    if !in_bounds(center) {
        r.push(center);
        proof {
            assert forall|p: Point| #[trigger] r@.contains(p) <==> visible_spec(map.tiles@, center, radius as int, p) by {
                if r@.contains(p) {
                    let j = choose|j: int| 0 <= j < r@.len() && r@[j] == p;
                }
                if p == center {
                    assert(r@[0] == p);
                }
            }
        }
        return r;
    }
    let rr = radius as i64;
    assert(0 <= rr * rr <= 0x4000_0000_0000_0000) by (nonlinear_arith)
        requires
            -0x8000_0000 <= rr <= 0x7fff_ffff,
    ;
    let r2: i64 = rr * rr;
    let mut y: i32 = 0;
    while y < SCREEN_HEIGHT
        invariant
            0 <= y <= SCREEN_HEIGHT,
            map.wf(),
            in_bounds_spec(center.x as int, center.y as int),
            r2 == radius * radius,
            forall|p: Point|
                #[trigger] r@.contains(p) <==> (visible_spec(map.tiles@, center, radius as int, p) && p.y < y),
        decreases SCREEN_HEIGHT - y,
    {
        let mut x: i32 = 0;
        while x < SCREEN_WIDTH
            invariant
                0 <= y < SCREEN_HEIGHT,
                0 <= x <= SCREEN_WIDTH,
                map.wf(),
                in_bounds_spec(center.x as int, center.y as int),
                r2 == radius * radius,
                forall|p: Point|
                    #[trigger] r@.contains(p) <==> (visible_spec(map.tiles@, center, radius as int, p) && (p.y < y || (
                    p.y == y && p.x < x))),
            decreases SCREEN_WIDTH - x,
        {
            let p = Point { x, y };
            let dx = (x - center.x) as i64;
            let dy = (y - center.y) as i64;
            assert(dx * dx <= 80 * 80 && dy * dy <= 80 * 80 && dx * dx >= 0 && dy * dy >= 0) by (nonlinear_arith)
                requires
                    -80 <= dx <= 80,
                    -80 <= dy <= 80,
            ;
            let near = radius >= 0 && dx * dx + dy * dy <= r2;
            assert(near == in_radius(center, radius as int, p));
            let ghost before = r@;
            let clear = if x == center.x && y == center.y {
                true
            } else if near {
                sight_line_clear(map, center, p)
            } else {
                false
            };
            if clear {
                r.push(p);
            }
            proof {
                if clear {
                    assert(r@ =~= before.push(p));
                } else {
                    assert(r@ =~= before);
                }
                assert(!before.contains(p));
                assert forall|q: Point| #[trigger] r@.contains(q) <==> (visible_spec(map.tiles@, center, radius as int, q)
                    && (q.y < y || (q.y == y && q.x < x + 1))) by {
                    if q != p {
                        if r@.contains(q) {
                            let j = choose|j: int| 0 <= j < r@.len() && r@[j] == q;
                            if clear {
                                assert(j < before.len());
                            }
                            assert(before[j] == q);
                            assert(before.contains(q));
                        }
                        if before.contains(q) {
                            let j = choose|j: int| 0 <= j < before.len() && before[j] == q;
                            assert(r@[j] == q);
                        }
                    } else if clear {
                        assert(r@[r@.len() - 1] == p);
                    }
                }
            }
            x = x + 1;
        }
        y = y + 1;
    }
    r
}

/// Refreshes every stale view: its visible set becomes what its viewer sees
/// from where it stands, and it is no longer stale. Views that are not stale
/// are left exactly as they were.
pub fn fov(viewers: &mut Vec<Viewer>, map: &DungeonMap)
    requires
        map.wf(),
    ensures
        final(viewers)@.len() == old(viewers)@.len(),
        forall|i: int|
            0 <= i < old(viewers)@.len() ==> {
                let o = #[trigger] old(viewers)@[i];
                let n = final(viewers)@[i];
                &&& n.position == o.position
                &&& n.fov.radius == o.fov.radius
                &&& !n.fov.is_dirty
                &&& !o.fov.is_dirty ==> n == o
                &&& o.fov.is_dirty ==> forall|p: Point|
                    #[trigger] n.fov.visible_tiles@.contains(p) <==> visible_spec(
                        map.tiles@,
                        o.position,
                        o.fov.radius as int,
                        p,
                    )
            },
{
    let mut i: usize = 0;
    while i < viewers.len()
        invariant
            map.wf(),
            i <= viewers@.len(),
            viewers@.len() == old(viewers)@.len(),
            forall|j: int| i <= j < viewers@.len() ==> #[trigger] viewers@[j] == old(viewers)@[j],
            forall|j: int|
                0 <= j < i ==> {
                    let o = #[trigger] old(viewers)@[j];
                    let n = viewers@[j];
                    &&& n.position == o.position
                    &&& n.fov.radius == o.fov.radius
                    &&& !n.fov.is_dirty
                    &&& !o.fov.is_dirty ==> n == o
                    &&& o.fov.is_dirty ==> forall|p: Point|
                        #[trigger] n.fov.visible_tiles@.contains(p) <==> visible_spec(
                            map.tiles@,
                            o.position,
                            o.fov.radius as int,
                            p,
                        )
                },
        decreases viewers@.len() - i,
    {
        let ghost prev = viewers@;
        if viewers[i].fov.is_dirty {
            let position = viewers[i].position;
            let radius = viewers[i].fov.radius;
            let visible_tiles = field_of_view_set(position, radius, map);
            viewers.set(i, Viewer { position, fov: FieldOfView { visible_tiles, radius, is_dirty: false } });
        }
        assert(forall|j: int| 0 <= j < viewers@.len() && j != i ==> viewers@[j] == prev[j]);
        i = i + 1;
    }
}

/// A viewer always sees its own tile, whatever its radius.
pub proof fn lemma_viewer_sees_own_tile(tiles: Seq<TileType>, v: Point, radius: int)
    ensures
        visible_spec(tiles, v, radius, v),
{
}

/// A tile is not seen when a tile that blocks sight stands between it and the
/// viewer on the sight line.
pub proof fn lemma_blocked_tile_unseen(tiles: Seq<TileType>, v: Point, radius: int, p: Point, k: int)
    requires
        p != v,
        1 <= k < line_steps(v, p),
        blocks_sight(
            tiles,
            line_coord(v.x as int, p.x as int, k, line_steps(v, p)),
            line_coord(v.y as int, p.y as int, k, line_steps(v, p)),
        ),
    ensures
        !visible_spec(tiles, v, radius, p),
{
}

} // verus!
