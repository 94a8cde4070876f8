use std::collections::HashSet;
use vstd::prelude::*;

verus! {

broadcast use vstd::std_specs::hash::group_hash_axioms;

/// Why a grid was refused: the dimensions it was expected to have and the
/// ones it was found to have.
///
/// `actual_height` is the number of rows given. `actual_width` is the length
/// of the first row whose length is wrong, or the expected width where every
/// row has the right length.
#[derive(Clone, Copy, Debug, PartialEq, Eq, Structural)]
pub struct ShapeMismatch {
    pub expected_width: usize,
    pub expected_height: usize,
    pub actual_width: usize,
    pub actual_height: usize,
}

/// Whether `rows` has exactly `height` rows of exactly `width` tiles each.
pub open spec fn fits_shape(rows: Seq<Seq<i32>>, width: nat, height: nat) -> bool {
    &&& rows.len() == height
    &&& forall|r: int| 0 <= r < rows.len() ==> #[trigger] rows[r].len() == width
}

/// The length of the first row of `rows` that is not `width` long, or
/// `width` where there is none.
pub open spec fn misfit_width(rows: Seq<Seq<i32>>, width: nat) -> nat
    decreases rows.len(),
{
    if rows.len() == 0 {
        width
    } else if rows[0].len() != width {
        rows[0].len()
    } else {
        misfit_width(rows.drop_first(), width)
    }
}

/// What a grid of the given shape is refused with.
pub open spec fn mismatch_of(rows: Seq<Seq<i32>>, width: usize, height: usize) -> ShapeMismatch {
    ShapeMismatch {
        expected_width: width,
        expected_height: height,
        actual_width: misfit_width(rows, width as nat) as usize,
        actual_height: rows.len() as usize,
    }
}

/// A grid of `height` rows by `width` columns of zeros.
pub open spec fn zero_grid(width: nat, height: nat) -> Seq<Seq<i32>> {
    Seq::new(height, |r: int| Seq::new(width, |c: int| 0i32))
}

/// The abstract content of a tile map: its dimensions, its rows of tile IDs
/// (row `y`, column `x` is `tiles[y][x]`), and the IDs that rays pass through.
pub struct TileMapModel {
    pub width: nat,
    pub height: nat,
    pub tiles: Seq<Seq<i32>>,
    pub transparent: Set<i32>,
}

impl TileMapModel {
    pub open spec fn wf(self) -> bool {
        fits_shape(self.tiles, self.width, self.height)
    }

    /// Whether the cell at column `x`, row `y` lies on the grid.
    pub open spec fn in_grid(self, x: int, y: int) -> bool {
        0 <= x < self.width && 0 <= y < self.height
    }

    /// The tile ID at column `x`, row `y`.
    pub open spec fn tile(self, x: int, y: int) -> i32 {
        self.tiles[y][x]
    }
}

/// A rectangular grid of tile IDs, `0` for open space, together with the set
/// of IDs that rays record and then pass through.
#[derive(Debug)]
pub struct TileMap {
    width: usize,
    height: usize,
    tiles: Vec<Vec<i32>>,
    transparent_tiles: HashSet<i32>,
}

impl View for TileMap {
    type V = TileMapModel;

    closed spec fn view(&self) -> TileMapModel {
        TileMapModel {
            width: self.width as nat,
            height: self.height as nat,
            tiles: self.tiles.deep_view(),
            transparent: self.transparent_tiles@,
        }
    }
}

/// Checks `rows` against the shape `width` by `height`.
fn check_shape(rows: &Vec<Vec<i32>>, width: usize, height: usize) -> (r: Result<(), ShapeMismatch>)
    ensures
        r is Ok <==> fits_shape(rows.deep_view(), width as nat, height as nat),
        r matches Err(e) ==> e == mismatch_of(rows.deep_view(), width, height),
{
    let ghost all = rows.deep_view();
    let mut i: usize = 0;
    proof {
        assert(all.subrange(0, all.len() as int) =~= all);
    }
    while i < rows.len()
        invariant
            i <= rows.len(),
            all == rows.deep_view(),
            forall|r: int| 0 <= r < i ==> #[trigger] all[r].len() == width,
            misfit_width(all, width as nat) == misfit_width(all.subrange(i as int, all.len() as int), width as nat),
        decreases rows.len() - i,
    {
        let n = rows[i].len();
        proof {
            let rest = all.subrange(i as int, all.len() as int);
            assert(rest.drop_first() =~= all.subrange(i + 1, all.len() as int));
        }
        if n != width {
            proof {
                assert(!fits_shape(all, width as nat, height as nat) || rows.len() != height);
            }
            return Err(ShapeMismatch {
                expected_width: width,
                expected_height: height,
                actual_width: n,
                actual_height: rows.len(),
            });
        }
        i = i + 1;
    }
    proof {
        assert(all.subrange(all.len() as int, all.len() as int).len() == 0);
    }
    if rows.len() != height {
        return Err(ShapeMismatch {
            expected_width: width,
            expected_height: height,
            actual_width: width,
            actual_height: rows.len(),
        });
    }
    Ok(())
}

impl TileMap {
    pub open spec fn wf(&self) -> bool {
        self@.wf()
    }

    pub fn width(&self) -> (r: usize)
        ensures
            r == self@.width,
    {
        self.width
    }

    pub fn height(&self) -> (r: usize)
        ensures
            r == self@.height,
    {
        self.height
    }

    /// The tile at column `x`, row `y`, or `None` off the grid.
    pub fn tile_at(&self, x: i64, y: i64) -> (r: Option<i32>)
        requires
            self.wf(),
        ensures
            r == (if self@.in_grid(x as int, y as int) {
                Some(self@.tile(x as int, y as int))
            } else {
                None
            }),
    {
        if 0 <= x && (x as i128) < (self.width as i128) && 0 <= y && (y as i128) < (self.height as i128) {
            let row = &self.tiles[y as usize];
            proof {
                assert(self.tiles.deep_view()[y as int] == row.deep_view());
                assert(row.deep_view() =~= row@);
            }
            Some(row[x as usize])
        } else {
            None
        }
    }

    /// Whether rays record `tile` and pass through it.
    pub fn is_transparent(&self, tile: i32) -> (r: bool)
        ensures
            r == self@.transparent.contains(tile),
    {
        self.transparent_tiles.contains(&tile)
    }

    /// Makes a `width` by `height` map from `tiles`, or of zeros where no
    /// tiles are given. Tiles of any other shape are refused. No tile is
    /// transparent yet.
    pub fn new(width: usize, height: usize, tiles: Option<Vec<Vec<i32>>>) -> (r: Result<
        TileMap,
        ShapeMismatch,
    >)
        ensures
            match tiles {
                None => r matches Ok(m) && m.wf() && m@.width == width && m@.height == height
                    && m@.tiles == zero_grid(width as nat, height as nat)
                    && m@.transparent.is_empty(),
                Some(t) => if fits_shape(t.deep_view(), width as nat, height as nat) {
                    r matches Ok(m) && m.wf() && m@.width == width && m@.height == height
                        && m@.tiles == t.deep_view() && m@.transparent.is_empty()
                } else {
                    r == Err::<TileMap, ShapeMismatch>(mismatch_of(t.deep_view(), width, height))
                },
            },
            tiles matches Some(t) && t.len() != height ==> r is Err,
    {
        let grid = match tiles {
            Some(t) => {
                match check_shape(&t, width, height) {
                    Ok(()) => t,
                    Err(e) => return Err(e),
                }
            },
            None => zeros(width, height),
        };
        Ok(TileMap { width, height, tiles: grid, transparent_tiles: HashSet::new() })
    }

    /// Marks `tile` as transparent: rays record it and go on past it.
    pub fn add_transparent_tile(&mut self, tile: i32)
        ensures
            final(self)@ == (TileMapModel {
                transparent: old(self)@.transparent.insert(tile),
                ..old(self)@
            }),
    {
        self.transparent_tiles.insert(tile);
    }

    /// Replaces the whole grid with `tiles`, which must have the map's shape;
    /// otherwise the map is left as it was.
    pub fn set_tiles(&mut self, tiles: Vec<Vec<i32>>) -> (r: Result<(), ShapeMismatch>)
        ensures
            fits_shape(tiles.deep_view(), old(self)@.width, old(self)@.height) ==> {
                &&& r is Ok
                &&& final(self)@ == (TileMapModel { tiles: tiles.deep_view(), ..old(self)@ })
            },
            !fits_shape(tiles.deep_view(), old(self)@.width, old(self)@.height) ==> {
                &&& r == Err::<(), ShapeMismatch>(
                    mismatch_of(tiles.deep_view(), old(self)@.width as usize, old(self)@.height as usize),
                )
                &&& final(self)@ == old(self)@
            },
    {
        match check_shape(&tiles, self.width, self.height) {
            Ok(()) => {
                self.tiles = tiles;
                Ok(())
            },
            Err(e) => Err(e),
        }
    }
}

/// A `height` by `width` grid of zeros.
fn zeros(width: usize, height: usize) -> (r: Vec<Vec<i32>>)
    ensures
        r.deep_view() == zero_grid(width as nat, height as nat),
{
    let mut rows: Vec<Vec<i32>> = Vec::new();
    let mut y: usize = 0;
    while y < height
        invariant
            y <= height,
            rows.deep_view() =~= zero_grid(width as nat, y as nat),
        decreases height - y,
    {
        let mut row: Vec<i32> = Vec::new();
        let mut x: usize = 0;
        while x < width
            invariant
                x <= width,
                row@ =~= Seq::new(x as nat, |c: int| 0i32),
            decreases width - x,
        {
            row.push(0);
            x = x + 1;
        }
        let ghost prev = rows.deep_view();
        rows.push(row);
        proof {
            assert(row.deep_view() =~= row@);
            assert(rows.deep_view() =~= prev.push(row@));
        }
        y = y + 1;
    }
    rows
}

} // verus!
