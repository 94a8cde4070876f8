use vstd::prelude::*;
use crate::tile_map::{TileMap, TileMapModel};

verus! {

/// Where a ray starts on the grid, and which way it heads along each axis.
///
/// `cell_x`, `cell_y` is the cell that holds the ray's origin. `forward_x` is
/// whether the ray's x component is positive (it steps to larger columns),
/// and `forward_y` the same for rows.
#[derive(Clone, Copy, Debug, PartialEq, Eq, Structural)]
pub struct GridRay {
    pub cell_x: i64,
    pub cell_y: i64,
    pub forward_x: bool,
    pub forward_y: bool,
}

/// A tile that a ray recorded.
///
/// `crossing` is the index of the grid-line crossing that entered the tile,
/// `tile` its ID, and `y_side` whether that crossing was of a horizontal grid
/// line (the ray stepped along y).
#[derive(Clone, Copy, Debug, PartialEq, Eq, Structural)]
pub struct TraceHit {
    pub crossing: usize,
    pub tile: i32,
    pub y_side: bool,
}

/// The state of a walk along a ray: the current cell, the transparent tile
/// that the ray is inside of (not recorded again until it leaves it through
/// open space), what has been recorded, and whether an opaque tile ended it.
pub struct WalkState {
    pub x: int,
    pub y: int,
    pub ignored: Option<i32>,
    pub hits: Seq<TraceHit>,
    pub stopped: bool,
}

/// One cell on from `c` along an axis. Coordinates stay in `i64` and stop at
/// its ends: a cell that far out lies off every grid, as the next one would.
pub open spec fn next_coord(c: int, forward: bool) -> int {
    if forward {
        if c < i64::MAX { c + 1 } else { c }
    } else {
        if c > i64::MIN { c - 1 } else { c }
    }
}

pub open spec fn start_state(ray: GridRay) -> WalkState {
    WalkState { x: ray.cell_x as int, y: ray.cell_y as int, ignored: None, hits: seq![], stopped: false }
}

/// The walk after crossing number `k`, which is of a horizontal grid line
/// where `y_side` holds and of a vertical one otherwise.
///
/// Off the grid nothing is recorded. Open space (`0`) ends any transparent
/// tile the ray was inside of. Any other tile is recorded, unless it is the
/// transparent tile the ray is still inside of; a transparent one is then
/// remembered, an opaque one ends the walk.
pub open spec fn step(map: TileMapModel, ray: GridRay, s: WalkState, y_side: bool, k: nat) -> WalkState {
    let x = if y_side { s.x } else { next_coord(s.x, ray.forward_x) };
    let y = if y_side { next_coord(s.y, ray.forward_y) } else { s.y };
    let moved = WalkState { x, y, ..s };
    if !map.in_grid(x, y) {
        moved
    } else {
        let t = map.tile(x, y);
        if t == 0 {
            WalkState { ignored: None, ..moved }
        } else if s.ignored == Some(t) {
            moved
        } else {
            let hits = s.hits.push(TraceHit { crossing: k as usize, tile: t, y_side });
            if map.transparent.contains(t) {
                WalkState { ignored: Some(t), hits, ..moved }
            } else {
                WalkState { hits, stopped: true, ..moved }
            }
        }
    }
}

/// The walk along `ray` through the sequence of grid-line crossings
/// `crossings`, nearest first, up to the end or to an opaque tile.
pub open spec fn walk(map: TileMapModel, ray: GridRay, crossings: Seq<bool>) -> WalkState
    decreases crossings.len(),
{
    if crossings.len() == 0 {
        start_state(ray)
    } else {
        let s = walk(map, ray, crossings.drop_last());
        if s.stopped {
            s
        } else {
            step(map, ray, s, crossings.last(), (crossings.len() - 1) as nat)
        }
    }
}

/// What a ray records on its walk, nearest first.
pub open spec fn trace_hits(map: TileMapModel, ray: GridRay, crossings: Seq<bool>) -> Seq<TraceHit> {
    walk(map, ray, crossings).hits
}

/// A walk that an opaque tile ended stays as it is over any further crossings.
pub(crate) proof fn lemma_stopped_walk_stays(map: TileMapModel, ray: GridRay, crossings: Seq<bool>, k: int)
    requires
        0 <= k <= crossings.len(),
        walk(map, ray, crossings.subrange(0, k)).stopped,
    ensures
        walk(map, ray, crossings) == walk(map, ray, crossings.subrange(0, k)),
    decreases crossings.len(),
{
    if crossings.len() == k {
        assert(crossings.subrange(0, k) =~= crossings);
    } else {
        let front = crossings.drop_last();
        assert(front.subrange(0, k) =~= crossings.subrange(0, k));
        lemma_stopped_walk_stays(map, ray, front, k);
    }
}

/// One cell on from `c` along an axis, as `next_coord` says.
fn advance(c: i64, forward: bool) -> (r: i64)
    ensures
        r == next_coord(c as int, forward),
{
    if forward {
        if c < i64::MAX { c + 1 } else { c }
    } else {
        if c > i64::MIN { c - 1 } else { c }
    }
}

/// Walks `ray` over `map` through `crossings`, the grid lines that the ray
/// crosses in order (`true` for a horizontal line, where it steps along y),
/// and returns the tiles it records, nearest first. The walk ends at the
/// first opaque tile or after the last crossing; leaving the grid does not
/// end it.
pub fn trace_ray(map: &TileMap, ray: GridRay, crossings: &Vec<bool>) -> (r: Vec<TraceHit>)
    requires
        map.wf(),
    ensures
        r@ == trace_hits(map@, ray, crossings@),
{
    let mut x: i64 = ray.cell_x;
    let mut y: i64 = ray.cell_y;
    let mut ignored: Option<i32> = None;
    let mut hits: Vec<TraceHit> = Vec::new();
    let mut stopped = false;
    let mut i: usize = 0;
    proof {
        assert(crossings@.subrange(0, 0) =~= Seq::<bool>::empty());
        assert(hits@ =~= Seq::<TraceHit>::empty());
    }
    while i < crossings.len() && !stopped
        invariant
            map.wf(),
            i <= crossings.len(),
            walk(map@, ray, crossings@.subrange(0, i as int)) == (WalkState {
                x: x as int,
                y: y as int,
                ignored,
                hits: hits@,
                stopped,
            }),
        decreases crossings.len() - i,
    {
        let y_side = crossings[i];
        proof {
            assert(crossings@.subrange(0, i + 1).drop_last() =~= crossings@.subrange(0, i as int));
        }
        if y_side {
            y = advance(y, ray.forward_y);
        } else {
            x = advance(x, ray.forward_x);
        }
        match map.tile_at(x, y) {
            None => {},
            Some(t) => {
                if t == 0 {
                    ignored = None;
                } else {
                    let inside = match ignored {
                        Some(g) => g == t,
                        None => false,
                    };
                    if !inside {
                        hits.push(TraceHit { crossing: i, tile: t, y_side });
                        if map.is_transparent(t) {
                            ignored = Some(t);
                        } else {
                            stopped = true;
                        }
                    }
                }
            },
        }
        i = i + 1;
    }
    proof {
        if stopped {
            lemma_stopped_walk_stays(map@, ray, crossings@, i as int);
        } else {
            assert(crossings@.subrange(0, i as int) =~= crossings@);
        }
    }
    hits
}

/// Walks each ray of `rays` over `map` through its own crossings, as
/// `trace_ray` does, and returns what each records, in the order of `rays`.
pub fn trace_rays(map: &TileMap, rays: &Vec<(GridRay, Vec<bool>)>) -> (r: Vec<Vec<TraceHit>>)
    requires
        map.wf(),
    ensures
        r.len() == rays.len(),
        forall|i: int| 0 <= i < rays.len() ==> (#[trigger] r[i])@ == trace_hits(map@, rays[i].0, rays[i].1@),
{
    let mut all: Vec<Vec<TraceHit>> = Vec::new();
    let mut i: usize = 0;
    while i < rays.len()
        invariant
            map.wf(),
            i <= rays.len(),
            all.len() == i,
            forall|k: int| 0 <= k < i ==> (#[trigger] all[k])@ == trace_hits(map@, rays[k].0, rays[k].1@),
        decreases rays.len() - i,
    {
        let (ray, crossings) = &rays[i];
        let hits = trace_ray(map, *ray, crossings);
        all.push(hits);
        i = i + 1;
    }
    all
}

} // verus!
