use vstd::prelude::*;
use crate::map::{
    adjacent, connected_from, is_floor, is_path, lemma_join_paths, lemma_reverse_path, reachable, DungeonMap, TileType,
    NUM_TILES, SCREEN_WIDTH,
};

verus! {

/// How many tiles a flood has reached.
pub open spec fn count_reached(dist: Seq<Option<usize>>) -> nat
    decreases dist.len(),
{
    if dist.len() == 0 {
        0
    } else {
        count_reached(dist.drop_last()) + if dist.last().is_some() { 1nat } else { 0nat }
    }
}

/// A walk over Floor that stays on tiles the flood has reached.
pub open spec fn walk_within(tiles: Seq<TileType>, dist: Seq<Option<usize>>, path: Seq<int>) -> bool {
    &&& is_path(tiles, path)
    &&& forall|k: int| 0 <= k < path.len() ==> (#[trigger] dist[path[k]]).is_some()
}

/// `walk` goes from `start` to `i`, over reached tiles, in as many steps as `i`'s distance.
pub open spec fn witness_for(
    tiles: Seq<TileType>,
    dist: Seq<Option<usize>>,
    start: int,
    i: int,
    walk: Seq<int>,
) -> bool {
    &&& walk_within(tiles, dist, walk)
    &&& walk[0] == start
    &&& walk.last() == i
    &&& walk.len() == dist[i].unwrap() + 1
}

/// Each reached tile is Floor and is walked to from `start` in its distance.
pub open spec fn flood_sound(tiles: Seq<TileType>, dist: Seq<Option<usize>>, start: int) -> bool {
    forall|i: int|
        0 <= i < NUM_TILES && (#[trigger] dist[i]).is_some() ==> is_floor(tiles, i) && exists|walk: Seq<int>|
            #[trigger] witness_for(tiles, dist, start, i, walk)
}

/// No reached tile has a Floor neighbour that is unreached or more than one step further.
pub open spec fn flood_closed(tiles: Seq<TileType>, dist: Seq<Option<usize>>) -> bool {
    forall|i: int, j: int|
        #[trigger] adjacent(i, j) && dist[i].is_some() && is_floor(tiles, j) ==> dist[j].is_some()
            && dist[j].unwrap() <= dist[i].unwrap() + 1
}

/// The flood-fill distances of a map from `start`: sizes, start at zero, sound and closed.
pub open spec fn is_flood(tiles: Seq<TileType>, dist: Seq<Option<usize>>, start: int) -> bool {
    &&& dist.len() == NUM_TILES
    &&& tiles.len() == NUM_TILES
    &&& 0 <= start < NUM_TILES
    &&& dist[start] == Some(0usize)
    &&& flood_sound(tiles, dist, start)
    &&& flood_closed(tiles, dist)
}

pub open spec fn sound_with(tiles: Seq<TileType>, dist: Seq<Option<usize>>, start: int, walks: Seq<Seq<int>>) -> bool {
    forall|i: int|
        0 <= i < NUM_TILES && (#[trigger] dist[i]).is_some() ==> is_floor(tiles, i) && witness_for(
            tiles,
            dist,
            start,
            i,
            walks[i],
        )
}

proof fn lemma_count_le(dist: Seq<Option<usize>>)
    ensures
        count_reached(dist) <= dist.len(),
    decreases dist.len(),
{
    if dist.len() > 0 {
        lemma_count_le(dist.drop_last());
    }
}

proof fn lemma_count_update(dist: Seq<Option<usize>>, i: int, v: Option<usize>)
    requires
        0 <= i < dist.len(),
        dist[i].is_none(),
        v.is_some(),
    ensures
        count_reached(dist.update(i, v)) == count_reached(dist) + 1,
    decreases dist.len(),
{
    if i == dist.len() - 1 {
        assert(dist.update(i, v).drop_last() =~= dist.drop_last());
    } else {
        lemma_count_update(dist.drop_last(), i, v);
        assert(dist.update(i, v).drop_last() =~= dist.drop_last().update(i, v));
    }
}

/// Reaching one more tile keeps every earlier witness walk valid, and gives the new tile one.
proof fn lemma_extend(
    tiles: Seq<TileType>,
    dist: Seq<Option<usize>>,
    start: int,
    walks: Seq<Seq<int>>,
    from: int,
    to: int,
    d: usize,
)
    requires
        tiles.len() == NUM_TILES,
        dist.len() == NUM_TILES,
        walks.len() == NUM_TILES,
        sound_with(tiles, dist, start, walks),
        adjacent(from, to),
        dist[from] == Some(d),
        dist[to].is_none(),
        is_floor(tiles, to),
        d + 1 <= usize::MAX,
    ensures
        sound_with(
            tiles,
            dist.update(to, Some((d + 1) as usize)),
            start,
            walks.update(to, walks[from].push(to)),
        ),
{
    let nd = dist.update(to, Some((d + 1) as usize));
    let nw = walks.update(to, walks[from].push(to));
    assert(dist[from].is_some());
    assert(is_floor(tiles, from) && witness_for(tiles, dist, start, from, walks[from]));
    assert forall|i: int| 0 <= i < NUM_TILES && (#[trigger] nd[i]).is_some() implies is_floor(tiles, i)
        && witness_for(tiles, nd, start, i, nw[i]) by {
        if i == to {
            let w = walks[from];
            assert(dist[from].is_some());
            assert(0 <= from < NUM_TILES);
            assert(is_floor(tiles, from));
            assert(witness_for(tiles, dist, start, from, w));
            let p = w.push(to);
            assert forall|k: int| 0 <= k < p.len() implies #[trigger] is_floor(tiles, p[k]) by {
                if k < w.len() {
                    assert(p[k] == w[k]);
                }
            }
            assert forall|k: int| 0 <= k < p.len() - 1 implies #[trigger] adjacent(p[k], p[k + 1]) by {
                if k < w.len() - 1 {
                    assert(p[k] == w[k] && p[k + 1] == w[k + 1]);
                    assert(adjacent(w[k], w[k + 1]));
                }
            }
            assert forall|k: int| 0 <= k < p.len() implies (#[trigger] nd[p[k]]).is_some() by {
                if k < w.len() {
                    assert(p[k] == w[k]);
                    assert(is_floor(tiles, w[k]));
                    assert(dist[w[k]].is_some());
                }
            }
            assert(nw[i] == p);
        } else {
            let w = walks[i];
            assert(dist[i].is_some());
            assert(witness_for(tiles, dist, start, i, w));
            assert forall|k: int| 0 <= k < w.len() implies (#[trigger] nd[w[k]]).is_some() by {
                assert(is_floor(tiles, w[k]));
                assert(dist[w[k]].is_some());
            }
        }
    }
}

/// Gives `to` the distance `d + 1` when it is Floor and not yet reached.
fn relax(
    map: &DungeonMap,
    dist: &mut Vec<Option<usize>>,
    count: &mut usize,
    from: usize,
    to: usize,
    d: usize,
    Ghost(start): Ghost<int>,
    Ghost(walks): Ghost<Seq<Seq<int>>>,
) -> (new_walks: Ghost<Seq<Seq<int>>>)
    requires
        map.wf(),
        old(dist)@.len() == NUM_TILES,
        walks.len() == NUM_TILES,
        adjacent(from as int, to as int),
        old(dist)@[from as int] == Some(d),
        d < NUM_TILES,
        *old(count) == count_reached(old(dist)@),
        sound_with(map.tiles@, old(dist)@, start, walks),
        forall|x: int| 0 <= x < NUM_TILES && (#[trigger] old(dist)@[x]).is_some() ==> old(dist)@[x].unwrap() <= d + 1,
    ensures
        final(dist)@.len() == NUM_TILES,
        new_walks@.len() == NUM_TILES,
        *final(count) == count_reached(final(dist)@),
        sound_with(map.tiles@, final(dist)@, start, new_walks@),
        is_floor(map.tiles@, to as int) ==> final(dist)@[to as int].is_some() && final(dist)@[to as int].unwrap() <= d + 1,
        forall|x: int| 0 <= x < NUM_TILES && (#[trigger] old(dist)@[x]).is_some() ==> final(dist)@[x] == old(dist)@[x],
        final(dist)@[from as int] == old(dist)@[from as int],
        *final(count) >= *old(count),
        forall|x: int| 0 <= x < NUM_TILES && (#[trigger] final(dist)@[x]).is_some() ==> final(dist)@[x].unwrap() <= d + 1,
        forall|x: int|
            0 <= x < NUM_TILES && (#[trigger] final(dist)@[x]).is_some() && old(dist)@[x].is_none()
                ==> final(dist)@[x].unwrap() == d + 1 && *final(count) > *old(count),
{
    if map.tiles[to] == TileType::Floor && dist[to].is_none() {
        proof {
            lemma_extend(map.tiles@, dist@, start, walks, from as int, to as int, d);
            lemma_count_update(dist@, to as int, Some((d + 1) as usize));
            lemma_count_le(dist@);
        }
        dist.set(to, Some(d + 1));
        *count = *count + 1;
        Ghost(walks.update(to as int, walks[from as int].push(to as int)))
    } else {
        Ghost(walks)
    }
}

/// Breadth-first flood fill over Floor tiles from `start`: the walking distance
/// of every tile that can be reached, `None` for the others.
pub fn flood_distances(map: &DungeonMap, start: usize) -> (dist: Vec<Option<usize>>)
    requires
        map.wf(),
        start < NUM_TILES,
        map.tiles@[start as int] == TileType::Floor,
    ensures
        is_flood(map.tiles@, dist@, start as int),
{
    let mut dist: Vec<Option<usize>> = Vec::new();
    let mut k: usize = 0;
    while k < NUM_TILES
        invariant
            k <= NUM_TILES,
            dist@.len() == k,
            forall|x: int| 0 <= x < k ==> dist@[x].is_none(),
            count_reached(dist@) == 0,
        decreases NUM_TILES - k,
    {
        proof {
            assert(dist@.push(None).drop_last() =~= dist@);
        }
        dist.push(None);
        k = k + 1;
    }
    proof {
        lemma_count_update(dist@, start as int, Some(0usize));
    }
    dist.set(start, Some(0));
    let ghost mut walks: Seq<Seq<int>> = Seq::new(NUM_TILES as nat, |i: int| seq![i]);
    let ghost tiles = map.tiles@;
    let mut count: usize = 1;
    let mut d: usize = 0;
    assert(walk_within(tiles, dist@, walks[start as int]));
    loop
        invariant
            map.wf(),
            tiles == map.tiles@,
            dist@.len() == NUM_TILES,
            walks.len() == NUM_TILES,
            count == count_reached(dist@),
            start < NUM_TILES,
            d < count <= NUM_TILES,
            dist@[start as int] == Some(0usize),
            sound_with(tiles, dist@, start as int, walks),
            forall|x: int| 0 <= x < NUM_TILES && (#[trigger] dist@[x]).is_some() ==> dist@[x].unwrap() <= d,
            forall|i: int, j: int|
                #[trigger] adjacent(i, j) && dist@[i].is_some() && dist@[i].unwrap() < d && is_floor(tiles, j)
                    ==> dist@[j].is_some() && dist@[j].unwrap() <= dist@[i].unwrap() + 1,
        ensures
            dist@.len() == NUM_TILES,
            dist@[start as int] == Some(0usize),
            flood_sound(tiles, dist@, start as int),
            flood_closed(tiles, dist@),
        decreases NUM_TILES - count,
    {
        let before = count;
        let w: usize = SCREEN_WIDTH as usize;
        let mut i: usize = 0;
        while i < NUM_TILES
            invariant
                map.wf(),
                tiles == map.tiles@,
                dist@.len() == NUM_TILES,
                walks.len() == NUM_TILES,
                w == 80,
                i <= NUM_TILES,
                start < NUM_TILES,
                count == count_reached(dist@),
                before <= count,
                d < before,
                dist@[start as int] == Some(0usize),
                sound_with(tiles, dist@, start as int, walks),
                forall|x: int| 0 <= x < NUM_TILES && (#[trigger] dist@[x]).is_some() ==> dist@[x].unwrap() <= d + 1,
                forall|x: int|
                    0 <= x < NUM_TILES && (#[trigger] dist@[x]).is_some() && dist@[x].unwrap() == d + 1
                        ==> count > before,
                forall|a: int, j: int|
                    #[trigger] adjacent(a, j) && dist@[a].is_some() && (dist@[a].unwrap() < d || (
                    dist@[a].unwrap() == d && a < i)) && is_floor(tiles, j) ==> dist@[j].is_some()
                        && dist@[j].unwrap() <= dist@[a].unwrap() + 1,
            decreases NUM_TILES - i,
        {
            proof {
                lemma_count_le(dist@);
            }
            let here = dist[i];
            if here == Some(d) {
                let ghost d0 = dist@;
                if i % w != 0 {
                    let g = relax(map, &mut dist, &mut count, i, i - 1, d, Ghost(start as int), Ghost(walks));
                    proof { walks = g@; }
                }
                let ghost d1 = dist@;
                if i % w != w - 1 {
                    let g = relax(map, &mut dist, &mut count, i, i + 1, d, Ghost(start as int), Ghost(walks));
                    proof { walks = g@; }
                }
                let ghost d2 = dist@;
                if i >= w {
                    let g = relax(map, &mut dist, &mut count, i, i - w, d, Ghost(start as int), Ghost(walks));
                    proof { walks = g@; }
                }
                let ghost d3 = dist@;
                if i + w < NUM_TILES {
                    let g = relax(map, &mut dist, &mut count, i, i + w, d, Ghost(start as int), Ghost(walks));
                    proof { walks = g@; }
                }
                proof {
                    assert(d0[start as int].is_some() && d1[start as int].is_some());
                    assert(d2[start as int].is_some() && d3[start as int].is_some());
                    assert forall|a: int, j: int|
                        #[trigger] adjacent(a, j) && dist@[a].is_some() && (dist@[a].unwrap() < d || (
                        dist@[a].unwrap() == d && a < i + 1)) && is_floor(tiles, j) implies dist@[j].is_some()
                            && dist@[j].unwrap() <= dist@[a].unwrap() + 1 by {
                        assert(d0[a].is_some());
                        if a != i {
                            assert(d0[j].is_some());
                        }
                    }
                }
            }
            i = i + 1;
        }
        proof {
            lemma_count_le(dist@);
        }
        if count == before {
            proof {
                assert forall|i: int, j: int|
                    #[trigger] adjacent(i, j) && dist@[i].is_some() && dist@[i].unwrap() < d + 1 && is_floor(tiles, j)
                        implies dist@[j].is_some() && dist@[j].unwrap() <= dist@[i].unwrap() + 1 by {
                }
                assert forall|x: int| 0 <= x < NUM_TILES && (#[trigger] dist@[x]).is_some() implies dist@[x].unwrap() <= d by {
                }
                assert forall|x: int|
                    0 <= x < NUM_TILES && (#[trigger] dist@[x]).is_some() implies is_floor(tiles, x) && exists|walk: Seq<int>|
                        #[trigger] witness_for(tiles, dist@, start as int, x, walk) by {
                    assert(witness_for(tiles, dist@, start as int, x, walks[x]));
                }
            }
            break;
        }
        d = d + 1;
    }
    dist
}

/// Every Floor walk from `start` ends on a reached tile whose distance is at
/// most the walk's number of steps: the flood's distances are shortest walks.
pub proof fn lemma_flood_is_shortest(tiles: Seq<TileType>, dist: Seq<Option<usize>>, start: int, path: Seq<int>)
    requires
        is_flood(tiles, dist, start),
        is_path(tiles, path),
        path[0] == start,
    ensures
        dist[path.last()].is_some(),
        dist[path.last()].unwrap() <= path.len() - 1,
    decreases path.len(),
{
    if path.len() > 1 {
        let q = path.drop_last();
        assert forall|k: int| 0 <= k < q.len() implies #[trigger] is_floor(tiles, q[k]) by {
            assert(q[k] == path[k]);
        }
        assert forall|k: int| 0 <= k < q.len() - 1 implies #[trigger] adjacent(q[k], q[k + 1]) by {
            assert(q[k] == path[k] && q[k + 1] == path[k + 1]);
            assert(adjacent(path[k], path[k + 1]));
        }
        lemma_flood_is_shortest(tiles, dist, start, q);
        let n = path.len();
        let k = n - 2;
        assert(adjacent(path[k], path[k + 1]));
        assert(is_floor(tiles, path[k + 1]));
        assert(q.last() == path[n - 2]);
    }
}

/// A flood reaches a tile exactly when the tile can be walked to from `start`.
pub proof fn lemma_flood_reaches_exactly(tiles: Seq<TileType>, dist: Seq<Option<usize>>, start: int, t: int)
    requires
        is_flood(tiles, dist, start),
        0 <= t < NUM_TILES,
    ensures
        dist[t].is_some() <==> reachable(tiles, start, t),
{
    if dist[t].is_some() {
        let walk = choose|walk: Seq<int>| #[trigger] witness_for(tiles, dist, start, t, walk);
        assert(is_path(tiles, walk));
    }
    if reachable(tiles, start, t) {
        let path = choose|path: Seq<int>| #[trigger] is_path(tiles, path) && path[0] == start && path.last() == t;
        lemma_flood_is_shortest(tiles, dist, start, path);
    }
}

/// What a tile becomes when unreached Floor is walled off.
pub open spec fn pruned_tile(t: TileType, d: Option<usize>) -> TileType {
    if t == TileType::Floor && d.is_none() {
        TileType::Wall
    } else {
        t
    }
}

/// Turns every Floor tile that the flood did not reach into Wall.
pub fn remove_unreached(map: &mut DungeonMap, dist: &Vec<Option<usize>>)
    requires
        old(map).wf(),
        dist@.len() == NUM_TILES,
    ensures
        final(map).wf(),
        forall|i: int| 0 <= i < NUM_TILES ==> #[trigger] final(map).tiles@[i] == pruned_tile(old(map).tiles@[i], dist@[i]),
{
    let mut i: usize = 0;
    while i < NUM_TILES
        invariant
            i <= NUM_TILES,
            map.wf(),
            dist@.len() == NUM_TILES,
            forall|k: int| 0 <= k < i ==> #[trigger] map.tiles@[k] == pruned_tile(old(map).tiles@[k], dist@[k]),
            forall|k: int| i <= k < NUM_TILES ==> #[trigger] map.tiles@[k] == old(map).tiles@[k],
        decreases NUM_TILES - i,
    {
        if map.tiles[i] == TileType::Floor && dist[i].is_none() {
            map.tiles.set(i, TileType::Wall);
        }
        i = i + 1;
    }
}

/// Walling off what a flood missed leaves the same flood, now over a map in
/// which every Floor tile can be walked to from `start`.
pub proof fn lemma_pruned_flood(old_tiles: Seq<TileType>, new_tiles: Seq<TileType>, dist: Seq<Option<usize>>, start: int)
    requires
        is_flood(old_tiles, dist, start),
        new_tiles.len() == NUM_TILES,
        forall|i: int| 0 <= i < NUM_TILES ==> #[trigger] new_tiles[i] == pruned_tile(old_tiles[i], dist[i]),
    ensures
        is_flood(new_tiles, dist, start),
        connected_from(new_tiles, start),
        is_floor(new_tiles, start),
{
    assert(is_floor(old_tiles, start) && new_tiles[start] == pruned_tile(old_tiles[start], dist[start]));
    assert forall|i: int| 0 <= i < NUM_TILES && (#[trigger] dist[i]).is_some() implies is_floor(new_tiles, i)
        && exists|walk: Seq<int>| #[trigger] witness_for(new_tiles, dist, start, i, walk) by {
        let walk = choose|walk: Seq<int>| #[trigger] witness_for(old_tiles, dist, start, i, walk);
        assert(new_tiles[i] == pruned_tile(old_tiles[i], dist[i]));
        assert forall|k: int| 0 <= k < walk.len() implies #[trigger] is_floor(new_tiles, walk[k]) by {
            assert(is_floor(old_tiles, walk[k]));
            assert(dist[walk[k]].is_some());
            assert(new_tiles[walk[k]] == pruned_tile(old_tiles[walk[k]], dist[walk[k]]));
        }
        assert(witness_for(new_tiles, dist, start, i, walk));
    }
    assert forall|i: int, j: int|
        #[trigger] adjacent(i, j) && dist[i].is_some() && is_floor(new_tiles, j) implies dist[j].is_some()
            && dist[j].unwrap() <= dist[i].unwrap() + 1 by {
        assert(new_tiles[j] == pruned_tile(old_tiles[j], dist[j]));
        assert(is_floor(old_tiles, j));
    }
    assert forall|t: int| #[trigger] is_floor(new_tiles, t) implies reachable(new_tiles, start, t) by {
        assert(new_tiles[t] == pruned_tile(old_tiles[t], dist[t]));
        lemma_flood_reaches_exactly(new_tiles, dist, start, t);
    }
}

/// `g` has the greatest distance of all reached tiles, and is the first such in scan order.
pub open spec fn farthest(dist: Seq<Option<usize>>, g: int) -> bool {
    &&& 0 <= g < dist.len()
    &&& dist[g].is_some()
    &&& forall|i: int| 0 <= i < dist.len() && (#[trigger] dist[i]).is_some() ==> dist[i].unwrap() <= dist[g].unwrap()
    &&& forall|i: int| 0 <= i < g && (#[trigger] dist[i]).is_some() ==> dist[i].unwrap() < dist[g].unwrap()
}

/// The reached tile farthest from the flood's start, the first in scan order on ties.
pub fn find_most_distant(dist: &Vec<Option<usize>>, start: usize) -> (g: usize)
    requires
        start < dist@.len(),
        dist@[start as int].is_some(),
    ensures
        farthest(dist@, g as int),
{
    let mut best: usize = start;
    let mut best_d: usize = match dist[start] { Some(v) => v, None => 0 };
    let mut i: usize = 0;
    let mut found: bool = false;
    while i < dist.len()
        invariant
            i <= dist@.len(),
            best < dist@.len(),
            dist@[best as int] == Some(best_d),
            found ==> best < i,
            !found ==> best == start,
            found ==> forall|k: int| 0 <= k < i && (#[trigger] dist@[k]).is_some() ==> dist@[k].unwrap() <= best_d,
            found ==> forall|k: int| 0 <= k < best && (#[trigger] dist@[k]).is_some() ==> dist@[k].unwrap() < best_d,
            !found ==> forall|k: int| 0 <= k < i ==> (#[trigger] dist@[k]).is_none(),
        decreases dist@.len() - i,
    {
        match dist[i] {
            Some(v) => {
                if !found || v > best_d {
                    best = i;
                    best_d = v;
                    found = true;
                }
            },
            None => {},
        }
        i = i + 1;
    }
    best
}

/// How many of the first `n` tiles can be walked to from `s`.
pub open spec fn reach_count(tiles: Seq<TileType>, s: int, n: int) -> nat
    decreases n,
{
    if n <= 0 {
        0
    } else {
        reach_count(tiles, s, n - 1) + if reachable(tiles, s, n - 1) { 1nat } else { 0nat }
    }
}

/// The number of tiles in the Floor region of `s`.
pub open spec fn region_size(tiles: Seq<TileType>, s: int) -> nat {
    reach_count(tiles, s, NUM_TILES as int)
}

/// A flood counts exactly the tiles of its start's region.
pub proof fn lemma_flood_counts_region(tiles: Seq<TileType>, dist: Seq<Option<usize>>, s: int, n: int)
    requires
        is_flood(tiles, dist, s),
        0 <= n <= NUM_TILES,
    ensures
        count_reached(dist.subrange(0, n)) == reach_count(tiles, s, n),
    decreases n,
{
    if n > 0 {
        lemma_flood_counts_region(tiles, dist, s, n - 1);
        assert(dist.subrange(0, n).drop_last() =~= dist.subrange(0, n - 1));
        lemma_flood_reaches_exactly(tiles, dist, s, n - 1);
    }
}

/// Two tiles of one region reach the same tiles.
pub proof fn lemma_reach_equiv(tiles: Seq<TileType>, a: int, b: int, k: int)
    requires
        reachable(tiles, a, b),
    ensures
        reachable(tiles, a, k) <==> reachable(tiles, b, k),
{
    let ab = choose|p: Seq<int>| #[trigger] is_path(tiles, p) && p[0] == a && p.last() == b;
    if reachable(tiles, a, k) {
        let ak = choose|p: Seq<int>| #[trigger] is_path(tiles, p) && p[0] == a && p.last() == k;
        let ba = lemma_reverse_path(tiles, ab);
        let bk = lemma_join_paths(tiles, ba, ak);
        assert(is_path(tiles, bk) && bk[0] == b && bk.last() == k);
    }
    if reachable(tiles, b, k) {
        let bk = choose|p: Seq<int>| #[trigger] is_path(tiles, p) && p[0] == b && p.last() == k;
        let ak = lemma_join_paths(tiles, ab, bk);
        assert(is_path(tiles, ak) && ak[0] == a && ak.last() == k);
    }
}

proof fn lemma_same_reach_count(tiles: Seq<TileType>, a: int, b: int, n: int)
    requires
        forall|k: int| 0 <= k < NUM_TILES ==> (reachable(tiles, a, k) <==> #[trigger] reachable(tiles, b, k)),
        0 <= n <= NUM_TILES,
    ensures
        reach_count(tiles, a, n) == reach_count(tiles, b, n),
    decreases n,
{
    if n > 0 {
        lemma_same_reach_count(tiles, a, b, n - 1);
        assert(reachable(tiles, a, n - 1) <==> reachable(tiles, b, n - 1));
    }
}

/// Tiles of one region have regions of one size.
pub proof fn lemma_region_size_shared(tiles: Seq<TileType>, a: int, b: int)
    requires
        reachable(tiles, a, b),
    ensures
        region_size(tiles, a) == region_size(tiles, b),
{
    assert forall|k: int| 0 <= k < NUM_TILES implies (reachable(tiles, a, k) <==> #[trigger] reachable(tiles, b, k)) by {
        lemma_reach_equiv(tiles, a, b, k);
    }
    lemma_same_reach_count(tiles, a, b, NUM_TILES as int);
}

/// Counts the tiles a flood reached.
pub fn flood_size(dist: &Vec<Option<usize>>) -> (n: usize)
    ensures
        n == count_reached(dist@),
{
    let mut n: usize = 0;
    let mut j: usize = 0;
    while j < dist.len()
        invariant
            j <= dist@.len(),
            n <= j,
            n == count_reached(dist@.subrange(0, j as int)),
        decreases dist@.len() - j,
    {
        assert(dist@.subrange(0, j + 1).drop_last() =~= dist@.subrange(0, j as int));
        if dist[j].is_some() {
            n = n + 1;
        }
        j = j + 1;
    }
    assert(dist@.subrange(0, j as int) =~= dist@);
    n
}

} // verus!
