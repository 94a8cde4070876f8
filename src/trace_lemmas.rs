use vstd::prelude::*;
use crate::tile_map::{TileMap, TileMapModel};
use crate::trace::{GridRay, TraceHit, next_coord, trace_hits, walk};

verus! {

/// The cell that `ray` reaches after all of `crossings`, whether or not a
/// walk would have gone that far.
pub open spec fn cell_after(ray: GridRay, crossings: Seq<bool>) -> (int, int)
    decreases crossings.len(),
{
    if crossings.len() == 0 {
        (ray.cell_x as int, ray.cell_y as int)
    } else {
        let c = cell_after(ray, crossings.drop_last());
        if crossings.last() {
            (c.0, next_coord(c.1, ray.forward_y))
        } else {
            (next_coord(c.0, ray.forward_x), c.1)
        }
    }
}

/// Whether crossing number `j` of `crossings` enters open space on the grid.
pub open spec fn open_at(map: TileMapModel, ray: GridRay, crossings: Seq<bool>, j: int) -> bool {
    let c = cell_after(ray, crossings.subrange(0, j + 1));
    map.in_grid(c.0, c.1) && map.tile(c.0, c.1) == 0
}

proof fn lemma_open_at_extends(map: TileMapModel, ray: GridRay, crossings: Seq<bool>, j: int)
    requires
        0 <= j < crossings.len() - 1,
        open_at(map, ray, crossings.drop_last(), j),
    ensures
        open_at(map, ray, crossings, j),
{
    assert(crossings.drop_last().subrange(0, j + 1) =~= crossings.subrange(0, j + 1));
}

/// How `stopped` and `ignored` relate to what a walk recorded, the order of
/// the records, and where the walk stands.
spec fn walk_basics(map: TileMapModel, ray: GridRay, crossings: Seq<bool>) -> bool {
    let s = walk(map, ray, crossings);
    let h = s.hits;
    &&& s.stopped <==> (h.len() > 0 && !map.transparent.contains(h.last().tile))
    &&& forall|i: int| 0 <= i < h.len() - 1 ==> map.transparent.contains(#[trigger] h[i].tile)
    &&& forall|i: int| 0 <= i < h.len() ==> (#[trigger] h[i]).tile != 0 && h[i].crossing < crossings.len()
    &&& forall|i: int, k: int| 0 <= i < k < h.len() ==> (#[trigger] h[i]).crossing < (#[trigger] h[k]).crossing
    &&& forall|i: int| 0 <= i < h.len() ==> exists|x: int, y: int|
        map.in_grid(x, y) && #[trigger] map.tile(x, y) == (#[trigger] h[i]).tile
    &&& !s.stopped ==> (s.x, s.y) == cell_after(ray, crossings)
    &&& !s.stopped ==> (s.ignored matches Some(t) ==> h.len() > 0 && h.last().tile == t)
}

proof fn lemma_walk_basics(map: TileMapModel, ray: GridRay, crossings: Seq<bool>)
    requires
        map.wf(),
        crossings.len() <= usize::MAX,
    ensures
        walk_basics(map, ray, crossings),
    decreases crossings.len(),
{
    if crossings.len() == 0 {
        return;
    }
    let front = crossings.drop_last();
    lemma_walk_basics(map, ray, front);
    let s0 = walk(map, ray, front);
    let h0 = s0.hits;
    let h = walk(map, ray, crossings).hits;
    if s0.stopped {
        return;
    }
    if h.len() > h0.len() {
        assert(h == h0.push(h.last()));
        assert(h.last().crossing == front.len());
        assert forall|i: int| 0 <= i < h.len() - 1 implies map.transparent.contains(#[trigger] h[i].tile) by {
            assert(h[i] == h0[i]);
        }
        assert forall|i: int, k: int| 0 <= i < k < h.len() implies (#[trigger] h[i]).crossing < (#[trigger] h[k]).crossing by {
            assert(h[i] == h0[i]);
            if k < h0.len() {
                assert(h[k] == h0[k]);
            }
        }
        let s = walk(map, ray, crossings);
        assert(map.in_grid(s.x, s.y) && map.tile(s.x, s.y) == h.last().tile);
        assert forall|i: int| 0 <= i < h.len() implies exists|x: int, y: int|
            map.in_grid(x, y) && #[trigger] map.tile(x, y) == (#[trigger] h[i]).tile by {
            if i < h0.len() {
                assert(h[i] == h0[i]);
            }
        }
    } else {
        assert(h == h0);
    }
}

/// Where a walk is no longer inside the tile it last recorded, it went
/// through open space on the grid since.
spec fn left_through_open_space(map: TileMapModel, ray: GridRay, crossings: Seq<bool>) -> bool {
    let s = walk(map, ray, crossings);
    let h = s.hits;
    (!s.stopped && h.len() > 0 && s.ignored is None) ==> exists|j: int|
        h.last().crossing < j < crossings.len() && #[trigger] open_at(map, ray, crossings, j)
}

/// Between two records in a row of the same tile in `h`, the walk went
/// through open space on the grid.
spec fn split_by_open_space(map: TileMapModel, ray: GridRay, crossings: Seq<bool>, h: Seq<TraceHit>) -> bool {
    forall|i: int| 0 <= i < h.len() - 1 && (#[trigger] h[i]).tile == h[i + 1].tile ==> exists|j: int|
        h[i].crossing < j < h[i + 1].crossing && #[trigger] open_at(map, ray, crossings, j)
}

proof fn lemma_left_through_open_space(map: TileMapModel, ray: GridRay, crossings: Seq<bool>)
    requires
        map.wf(),
        crossings.len() <= usize::MAX,
    ensures
        left_through_open_space(map, ray, crossings),
    decreases crossings.len(),
{
    if crossings.len() == 0 {
        return;
    }
    let front = crossings.drop_last();
    lemma_walk_basics(map, ray, front);
    lemma_walk_basics(map, ray, crossings);
    lemma_left_through_open_space(map, ray, front);
    let s0 = walk(map, ray, front);
    let h0 = s0.hits;
    let s = walk(map, ray, crossings);
    let h = s.hits;
    let k = front.len() as int;
    if !s.stopped && h.len() > 0 && s.ignored is None {
        if h0.len() > 0 && s0.ignored is None && !s0.stopped {
            let j = choose|j: int| h0.last().crossing < j < front.len() && #[trigger] open_at(map, ray, front, j);
            lemma_open_at_extends(map, ray, crossings, j);
            assert(h == h0);
        } else if s0.stopped {
            assert(s == s0);
        } else {
            assert(crossings.subrange(0, k + 1) =~= crossings);
            assert(open_at(map, ray, crossings, k));
        }
    }
}

/// One crossing more either records nothing, or records a tile at that
/// crossing, which is not the one the walk was inside of.
proof fn lemma_walk_grows(map: TileMapModel, ray: GridRay, crossings: Seq<bool>)
    requires
        map.wf(),
        crossings.len() > 0,
        crossings.len() <= usize::MAX,
    ensures
        ({
            let s0 = walk(map, ray, crossings.drop_last());
            let h0 = s0.hits;
            let h = walk(map, ray, crossings).hits;
            ||| h == h0
            ||| {
                &&& !s0.stopped
                &&& h == h0.push(h.last())
                &&& h.last().crossing == crossings.len() - 1
                &&& s0.ignored != Some(h.last().tile)
            }
        }),
{
}

proof fn lemma_split_extends(map: TileMapModel, ray: GridRay, crossings: Seq<bool>, h0: Seq<TraceHit>, h: Seq<TraceHit>)
    requires
        crossings.len() > 0,
        split_by_open_space(map, ray, crossings.drop_last(), h0),
        forall|i: int| 0 <= i < h0.len() ==> (#[trigger] h0[i]).crossing < crossings.len() - 1,
        h == h0 || {
            &&& h == h0.push(h.last())
            &&& h.last().crossing == crossings.len() - 1
            &&& (h0.len() > 0 && h0.last().tile == h.last().tile) ==> exists|j: int|
                h0.last().crossing < j < crossings.len() - 1 && #[trigger] open_at(map, ray, crossings.drop_last(), j)
        },
    ensures
        split_by_open_space(map, ray, crossings, h),
{
    let front = crossings.drop_last();
    assert forall|i: int| 0 <= i < h0.len() - 1 && (#[trigger] h0[i]).tile == h0[i + 1].tile implies exists|j: int|
        h0[i].crossing < j < h0[i + 1].crossing && #[trigger] open_at(map, ray, crossings, j) by {
        let j = choose|j: int| h0[i].crossing < j < h0[i + 1].crossing && #[trigger] open_at(map, ray, front, j);
        lemma_open_at_extends(map, ray, crossings, j);
    }
    if h != h0 {
        if h0.len() > 0 && h0.last().tile == h.last().tile {
            let j = choose|j: int| h0.last().crossing < j < front.len() && #[trigger] open_at(map, ray, front, j);
            lemma_open_at_extends(map, ray, crossings, j);
            let i = h0.len() - 1;
            assert(h[i] == h0.last());
            assert(h[i + 1] == h.last());
        }
        assert forall|i: int| 0 <= i < h.len() - 1 && (#[trigger] h[i]).tile == h[i + 1].tile implies exists|j: int|
            h[i].crossing < j < h[i + 1].crossing && #[trigger] open_at(map, ray, crossings, j) by {
            if i < h0.len() - 1 {
                assert(h[i] == h0[i] && h[i + 1] == h0[i + 1]);
            }
        }
    }
}

proof fn lemma_repeats_split_by_open_space(map: TileMapModel, ray: GridRay, crossings: Seq<bool>)
    requires
        map.wf(),
        crossings.len() <= usize::MAX,
    ensures
        split_by_open_space(map, ray, crossings, walk(map, ray, crossings).hits),
    decreases crossings.len(),
{
    if crossings.len() == 0 {
        return;
    }
    let front = crossings.drop_last();
    lemma_walk_basics(map, ray, front);
    lemma_left_through_open_space(map, ray, front);
    lemma_repeats_split_by_open_space(map, ray, front);
    lemma_walk_grows(map, ray, crossings);
    let s0 = walk(map, ray, front);
    lemma_split_extends(map, ray, crossings, s0.hits, walk(map, ray, crossings).hits);
}

/// On a grid of open space alone, a ray records nothing, whatever its start,
/// its heading and the crossings it goes through.
pub proof fn lemma_empty_grid_records_nothing(map: TileMapModel, ray: GridRay, crossings: Seq<bool>)
    requires
        map.wf(),
        forall|x: int, y: int| map.in_grid(x, y) ==> #[trigger] map.tile(x, y) == 0,
    ensures
        trace_hits(map, ray, crossings).len() == 0,
    decreases crossings.len(),
{
    if crossings.len() > 0 {
        lemma_empty_grid_records_nothing(map, ray, crossings.drop_last());
    }
}

/// On a grid of open space alone, every ray of a call records nothing: there
/// is one empty record for each ray.
pub proof fn lemma_empty_grid_traces_nothing(map: &TileMap, rays: &Vec<(GridRay, Vec<bool>)>, r: Vec<Vec<TraceHit>>)
    requires
        map.wf(),
        forall|x: int, y: int| map@.in_grid(x, y) ==> #[trigger] map@.tile(x, y) == 0,
        r.len() == rays.len(),
        forall|i: int| 0 <= i < rays.len() ==> (#[trigger] r[i])@ == trace_hits(map@, rays[i].0, rays[i].1@),
    ensures
        r.len() == rays.len(),
        forall|i: int| 0 <= i < r.len() ==> (#[trigger] r[i])@.len() == 0,
{
    assert forall|i: int| 0 <= i < r.len() implies (#[trigger] r[i])@.len() == 0 by {
        lemma_empty_grid_records_nothing(map@, rays[i].0, rays[i].1@);
    }
}

/// Every tile that a ray records but the last is transparent: an opaque tile
/// is the last thing recorded.
pub proof fn lemma_opaque_hit_is_last(map: TileMapModel, ray: GridRay, crossings: Seq<bool>)
    requires
        map.wf(),
        crossings.len() <= usize::MAX,
    ensures
        ({
            let h = trace_hits(map, ray, crossings);
            forall|i: int| 0 <= i < h.len() - 1 ==> map.transparent.contains(#[trigger] h[i].tile)
        }),
{
    lemma_walk_basics(map, ray, crossings);
}

/// Once a ray has recorded an opaque tile within its first `k` crossings, no
/// further crossing records anything.
pub proof fn lemma_nothing_after_opaque_hit(map: TileMapModel, ray: GridRay, crossings: Seq<bool>, k: int)
    requires
        map.wf(),
        crossings.len() <= usize::MAX,
        0 <= k <= crossings.len(),
        trace_hits(map, ray, crossings.subrange(0, k)).len() > 0,
        !map.transparent.contains(trace_hits(map, ray, crossings.subrange(0, k)).last().tile),
    ensures
        trace_hits(map, ray, crossings) == trace_hits(map, ray, crossings.subrange(0, k)),
{
    lemma_walk_basics(map, ray, crossings.subrange(0, k));
    crate::trace::lemma_stopped_walk_stays(map, ray, crossings, k);
}

/// A ray records its tiles nearest first, each at a crossing that it made,
/// and never records open space.
pub proof fn lemma_hits_in_crossing_order(map: TileMapModel, ray: GridRay, crossings: Seq<bool>)
    requires
        map.wf(),
        crossings.len() <= usize::MAX,
    ensures
        ({
            let h = trace_hits(map, ray, crossings);
            &&& forall|i: int| 0 <= i < h.len() ==> (#[trigger] h[i]).tile != 0 && h[i].crossing < crossings.len()
            &&& forall|i: int, k: int| 0 <= i < k < h.len() ==> (#[trigger] h[i]).crossing < (#[trigger] h[k]).crossing
        }),
{
    lemma_walk_basics(map, ray, crossings);
}

/// On a grid whose one tile that is not open space is an opaque wall at
/// `(wx, wy)`, a ray records at most one hit, and that of the wall.
pub proof fn lemma_lone_wall_hit_at_most_once(map: TileMapModel, ray: GridRay, crossings: Seq<bool>, wx: int, wy: int)
    requires
        map.wf(),
        crossings.len() <= usize::MAX,
        map.in_grid(wx, wy),
        !map.transparent.contains(map.tile(wx, wy)),
        forall|x: int, y: int| map.in_grid(x, y) && (x != wx || y != wy) ==> #[trigger] map.tile(x, y) == 0,
    ensures
        trace_hits(map, ray, crossings).len() <= 1,
        trace_hits(map, ray, crossings).len() == 1 ==> trace_hits(map, ray, crossings)[0].tile == map.tile(wx, wy),
{
    lemma_walk_basics(map, ray, crossings);
    let h = trace_hits(map, ray, crossings);
    if h.len() > 0 {
        let (x, y) = choose|x: int, y: int| map.in_grid(x, y) && #[trigger] map.tile(x, y) == h[0].tile;
        assert(h[0].tile == map.tile(wx, wy));
    }
}

/// A transparent tile is recorded once as the ray passes through it: where
/// two records in a row are of the same tile, the ray went through open space
/// on the grid between them.
pub proof fn lemma_no_repeat_without_open_space(map: TileMapModel, ray: GridRay, crossings: Seq<bool>)
    requires
        map.wf(),
        crossings.len() <= usize::MAX,
    ensures
        ({
            let h = trace_hits(map, ray, crossings);
            forall|i: int| 0 <= i < h.len() - 1 && (#[trigger] h[i]).tile == h[i + 1].tile ==> exists|j: int|
                h[i].crossing < j < h[i + 1].crossing && #[trigger] open_at(map, ray, crossings, j)
        }),
{
    lemma_repeats_split_by_open_space(map, ray, crossings);
}

} // verus!
