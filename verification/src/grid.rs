//! The tile grid: addressing, terrain cost, navigability and neighbours.
//!
//! A tile is named by one number, its row times the grid's width plus its
//! column. Costs are whole numbers of thousandths, so that the cost of a
//! plain tile, one unit, is [`COST_SCALE`].
use std::collections::HashSet;
use vstd::arithmetic::div_mod::lemma_fundamental_div_mod;
use vstd::arithmetic::div_mod::lemma_fundamental_div_mod_converse;
use vstd::prelude::*;

verus! {

broadcast use vstd::std_specs::hash::group_hash_axioms;

/// How many cost steps make up one unit of cost.
pub const COST_SCALE: u32 = 1000;

/// A column and a row.
#[derive(Clone, Copy, Debug, PartialEq, Eq, Structural)]
pub struct Point {
    pub x: i32,
    pub y: i32,
}

/// A grid of `width` by `height` tiles with a cost table and a set of
/// navigable tiles. Nothing in it changes after construction.
pub struct WasmGameMap {
    width: usize,
    height: usize,
    costs: Vec<u32>,
    water_tiles: HashSet<u32>,
}

/// The distance between two integers.
pub open spec fn gap(a: int, b: int) -> int {
    if a <= b {
        b - a
    } else {
        a - b
    }
}

impl WasmGameMap {
    /// Number of columns.
    pub closed spec fn width(&self) -> int {
        self.width as int
    }

    /// Number of rows.
    pub closed spec fn height(&self) -> int {
        self.height as int
    }

    /// The cost table, one entry per tile from tile 0 on. It may be shorter
    /// or longer than the grid.
    pub closed spec fn cost_table(&self) -> Seq<u32> {
        self.costs@
    }

    /// The tiles that a search may walk over.
    pub closed spec fn water(&self) -> Set<u32> {
        self.water_tiles@
    }

    /// The sizes for which every column and row fits in an `i32` and every
    /// tile number in a `u32`.
    pub open spec fn valid_size(width: int, height: int) -> bool {
        &&& 0 < width <= i32::MAX
        &&& 0 <= height <= i32::MAX
        &&& width * height <= u32::MAX + 1
    }

    /// Every grid that `new` builds is well formed.
    pub open spec fn wf(&self) -> bool {
        Self::valid_size(self.width(), self.height())
    }

    /// Whether column `x` and row `y` lie on the grid.
    pub open spec fn inside(&self, x: int, y: int) -> bool {
        0 <= x < self.width() && 0 <= y < self.height()
    }

    /// Whether a tile number names a tile of the grid.
    pub open spec fn contains(&self, tile_ref: u32) -> bool {
        tile_ref < self.width() * self.height()
    }

    /// The number of the tile in column `x` of row `y`.
    pub open spec fn spec_ref_tile(&self, x: int, y: int) -> int {
        y * self.width() + x
    }

    /// The column of a tile.
    pub open spec fn spec_x(&self, tile_ref: u32) -> int {
        tile_ref as int % self.width()
    }

    /// The row of a tile.
    pub open spec fn spec_y(&self, tile_ref: u32) -> int {
        tile_ref as int / self.width()
    }

    /// The cost of stepping onto a tile: its entry in the cost table, or one
    /// unit where the table has none.
    pub open spec fn spec_cost(&self, tile_ref: u32) -> u32 {
        if tile_ref < self.cost_table().len() {
            self.cost_table()[tile_ref as int]
        } else {
            COST_SCALE
        }
    }

    /// Steps between two tiles when only moves along rows and columns count.
    pub open spec fn manhattan(&self, a: u32, b: u32) -> int {
        gap(self.spec_x(a), self.spec_x(b)) + gap(self.spec_y(a), self.spec_y(b))
    }

    /// Two tiles of the grid that share an edge.
    pub open spec fn adjacent(&self, a: u32, b: u32) -> bool {
        self.contains(a) && self.contains(b) && self.manhattan(a, b) == 1
    }

    /// The tile in column `x` of row `y` if that lies on the grid, else
    /// nothing.
    pub open spec fn tile_if_inside(&self, x: int, y: int) -> Seq<u32> {
        if self.inside(x, y) {
            seq![self.spec_ref_tile(x, y) as u32]
        } else {
            Seq::empty()
        }
    }

    /// The tiles above, right of, below and left of a tile, in that order,
    /// without those that would lie off the grid.
    pub open spec fn spec_neighbors(&self, tile_ref: u32) -> Seq<u32> {
        let x = self.spec_x(tile_ref);
        let y = self.spec_y(tile_ref);
        self.tile_if_inside(x, y - 1) + self.tile_if_inside(x + 1, y) + self.tile_if_inside(
            x,
            y + 1,
        ) + self.tile_if_inside(x - 1, y)
    }

    /// A grid of the given size. `costs` is the cost table in thousandths of
    /// a unit; `water_tiles` lists the navigable tiles, in any order and
    /// with or without repeats.
    pub fn new(width: usize, height: usize, costs: Vec<u32>, water_tiles: Vec<u32>) -> (map:
        WasmGameMap)
        requires
            Self::valid_size(width as int, height as int),
        ensures
            map.wf(),
            map.width() == width,
            map.height() == height,
            map.cost_table() == costs@,
            map.water() == water_tiles@.to_set(),
    {
        let mut set: HashSet<u32> = HashSet::new();
        let mut i: usize = 0;
        while i < water_tiles.len()
            invariant
                i <= water_tiles.len(),
                set@ == water_tiles@.take(i as int).to_set(),
            decreases water_tiles.len() - i,
        {
            let tile = water_tiles[i];
            set.insert(tile);
            proof {
                let before = water_tiles@.take(i as int);
                let after = water_tiles@.take(i + 1);
                assert(after == before.push(tile));
                assert forall|t: u32| after.to_set().contains(t) <==> before.to_set().insert(
                    tile,
                ).contains(t) by {
                    if before.contains(t) {
                        let j = choose|j: int| 0 <= j < before.len() && before[j] == t;
                        assert(after[j] == t);
                    }
                    if t == tile {
                        assert(after[i as int] == t);
                    }
                }
                assert(after.to_set() == before.to_set().insert(tile));
            }
            i += 1;
        }
        proof {
            assert(water_tiles@.take(water_tiles.len() as int) == water_tiles@);
        }
        WasmGameMap { width, height, costs, water_tiles: set }
    }

    /// Whether column `x` and row `y` have a tile number: the column is one
    /// of the grid's, the row is not negative, and the number fits in a
    /// `u32`. Every point of the grid has one; so have points in rows past
    /// the last row.
    pub open spec fn addressable(&self, x: int, y: int) -> bool {
        0 <= x < self.width() && 0 <= y && self.spec_ref_tile(x, y) <= u32::MAX
    }

    /// The number of the tile in column `x` of row `y`.
    pub fn ref_tile(&self, x: i32, y: i32) -> (tile_ref: u32)
        requires
            self.wf(),
            self.addressable(x as int, y as int),
        ensures
            tile_ref == self.spec_ref_tile(x as int, y as int),
            self.contains(tile_ref) == self.inside(x as int, y as int),
            self.spec_x(tile_ref) == x,
            self.spec_y(tile_ref) == y,
    {
        proof {
            self.lemma_coordinate_round_trip(0, x as int, y as int);
            assert(0 <= y * self.width) by (nonlinear_arith)
                requires
                    0 <= y,
                    0 <= self.width,
            ;
        }
        y as u32 * self.width as u32 + x as u32
    }

    /// The column of a tile.
    pub fn x(&self, tile_ref: u32) -> (x: i32)
        requires
            self.wf(),
        ensures
            x == self.spec_x(tile_ref),
            0 <= x < self.width(),
    {
        (tile_ref % self.width as u32) as i32
    }

    /// The row of a tile.
    pub fn y(&self, tile_ref: u32) -> (y: i32)
        requires
            self.wf(),
            self.spec_y(tile_ref) <= i32::MAX,
        ensures
            y == self.spec_y(tile_ref),
            0 <= y,
            self.contains(tile_ref) ==> y < self.height(),
    {
        proof {
            self.lemma_point_of_tile(tile_ref);
        }
        (tile_ref / self.width as u32) as i32
    }

    /// The cost of stepping onto a tile, in thousandths of a unit.
    pub fn cost(&self, tile_ref: u32) -> (cost: u32)
        ensures
            cost == self.spec_cost(tile_ref),
    {
        let idx = tile_ref as usize;
        if idx < self.costs.len() {
            self.costs[idx]
        } else {
            COST_SCALE
        }
    }

    /// Whether a search may walk over a tile.
    pub fn is_water(&self, tile_ref: u32) -> (navigable: bool)
        ensures
            navigable == self.water().contains(tile_ref),
    {
        self.water_tiles.contains(&tile_ref)
    }

    /// The tiles above, right of, below and left of a tile, in that order,
    /// without those that would lie off the grid.
    pub fn neighbors(&self, tile_ref: u32) -> (out: Vec<u32>)
        requires
            self.wf(),
            self.spec_y(tile_ref) < i32::MAX,
        ensures
            out@ == self.spec_neighbors(tile_ref),
            out@.len() <= 4,
            out@.no_duplicates(),
            forall|i: int| 0 <= i < out@.len() ==> self.contains(#[trigger] out@[i]),
            self.contains(tile_ref) ==> forall|i: int|
                0 <= i < out@.len() ==> self.adjacent(tile_ref, #[trigger] out@[i]),
    {
        let x = self.x(tile_ref);
        let y = self.y(tile_ref);
        let mut out: Vec<u32> = Vec::with_capacity(8);
        self.push_if_inside(&mut out, x, y - 1);
        self.push_if_inside(&mut out, x + 1, y);
        self.push_if_inside(&mut out, x, y + 1);
        self.push_if_inside(&mut out, x - 1, y);
        proof {
            self.lemma_neighbors(tile_ref);
        }
        out
    }

    fn push_if_inside(&self, out: &mut Vec<u32>, x: i32, y: i32)
        requires
            self.wf(),
        ensures
            final(out)@ == old(out)@ + self.tile_if_inside(x as int, y as int),
    {
        if x >= 0 && (x as usize) < self.width && y >= 0 && (y as usize) < self.height {
            proof {
                self.lemma_tile_of_point(x as int, y as int);
            }
            let tile = self.ref_tile(x, y);
            out.push(tile);
        }
    }

    /// On a well-formed grid a point of the grid has a tile number that fits
    /// in a `u32`, names a tile of the grid, and decodes to that point.
    pub proof fn lemma_tile_of_point(&self, x: int, y: int)
        requires
            self.wf(),
            self.inside(x, y),
        ensures
            0 <= self.spec_ref_tile(x, y) < self.width() * self.height(),
            self.spec_ref_tile(x, y) <= u32::MAX,
            self.contains(self.spec_ref_tile(x, y) as u32),
            self.spec_x(self.spec_ref_tile(x, y) as u32) == x,
            self.spec_y(self.spec_ref_tile(x, y) as u32) == y,
    {
        let w = self.width();
        let h = self.height();
        assert(0 <= y * w && y * w + w <= h * w && h * w == w * h) by (nonlinear_arith)
            requires
                0 <= y < h,
                0 < w,
        ;
        lemma_fundamental_div_mod_converse(y * w + x, w, y, x);
    }

    /// A tile's column and row give its number back, and a tile of the grid
    /// lies on the grid.
    pub proof fn lemma_point_of_tile(&self, tile_ref: u32)
        requires
            self.wf(),
        ensures
            self.spec_ref_tile(self.spec_x(tile_ref), self.spec_y(tile_ref)) == tile_ref,
            0 <= self.spec_x(tile_ref) < self.width(),
            0 <= self.spec_y(tile_ref),
            self.contains(tile_ref) <==> self.spec_y(tile_ref) < self.height(),
            self.contains(tile_ref) <==> self.inside(self.spec_x(tile_ref), self.spec_y(tile_ref)),
    {
        let w = self.width();
        let h = self.height();
        let r = tile_ref as int;
        lemma_fundamental_div_mod(r, w);
        assert(w * (r / w) == (r / w) * w) by (nonlinear_arith);
        assert(0 <= r / w) by (nonlinear_arith)
            requires
                0 <= r,
                0 < w,
        ;
        if r / w < h {
            assert((r / w) * w + w <= h * w && h * w == w * h) by (nonlinear_arith)
                requires
                    r / w < h,
                    0 < w,
            ;
        } else {
            assert((r / w) * w >= h * w && h * w == w * h) by (nonlinear_arith)
                requires
                    r / w >= h,
                    0 < w,
            ;
        }
    }

    /// Coordinate round trip: decoding a tile number and encoding the result
    /// gives the number back, and encoding a column and row that have a tile
    /// number and decoding the result gives the column and row back. The
    /// number names a tile of the grid just where the row is one of the
    /// grid's.
    pub proof fn lemma_coordinate_round_trip(&self, tile_ref: u32, x: int, y: int)
        requires
            self.wf(),
            self.addressable(x, y),
        ensures
            self.spec_ref_tile(self.spec_x(tile_ref), self.spec_y(tile_ref)) == tile_ref,
            0 <= self.spec_ref_tile(x, y),
            self.spec_x(self.spec_ref_tile(x, y) as u32) == x,
            self.spec_y(self.spec_ref_tile(x, y) as u32) == y,
            self.contains(self.spec_ref_tile(x, y) as u32) == self.inside(x, y),
    {
        let w = self.width();
        self.lemma_point_of_tile(tile_ref);
        assert(0 <= y * w) by (nonlinear_arith)
            requires
                0 <= y,
                0 < w,
        ;
        lemma_fundamental_div_mod_converse(y * w + x, w, y, x);
        self.lemma_point_of_tile(self.spec_ref_tile(x, y) as u32);
    }

    /// A tile has at most four neighbours, no neighbour is listed twice, and
    /// each lies on the grid. The neighbours of a tile of the grid are one
    /// step away from it.
    pub proof fn lemma_neighbors(&self, tile_ref: u32)
        requires
            self.wf(),
        ensures
            self.spec_neighbors(tile_ref).len() <= 4,
            self.spec_neighbors(tile_ref).no_duplicates(),
            forall|i: int|
                0 <= i < self.spec_neighbors(tile_ref).len() ==> self.contains(
                    #[trigger] self.spec_neighbors(tile_ref)[i],
                ),
            self.contains(tile_ref) ==> forall|i: int|
                0 <= i < self.spec_neighbors(tile_ref).len() ==> self.adjacent(
                    tile_ref,
                    #[trigger] self.spec_neighbors(tile_ref)[i],
                ),
    {
        let x = self.spec_x(tile_ref);
        let y = self.spec_y(tile_ref);
        let out = self.spec_neighbors(tile_ref);
        self.lemma_point_of_tile(tile_ref);
        if self.inside(x, y - 1) {
            self.lemma_tile_of_point(x, y - 1);
        }
        if self.inside(x + 1, y) {
            self.lemma_tile_of_point(x + 1, y);
        }
        if self.inside(x, y + 1) {
            self.lemma_tile_of_point(x, y + 1);
        }
        if self.inside(x - 1, y) {
            self.lemma_tile_of_point(x - 1, y);
        }
        assert forall|i: int| 0 <= i < out.len() implies {
            &&& self.contains(#[trigger] out[i])
            &&& gap(self.spec_x(out[i]), x) + gap(self.spec_y(out[i]), y) == 1
            &&& forall|j: int| 0 <= j < out.len() && j != i ==> out[j] != out[i]
        } by {
            assert forall|j: int| 0 <= j < out.len() && j != i implies out[j] != out[i] by {
                if out[j] == out[i] {
                    assert(self.spec_x(out[j]) == self.spec_x(out[i]));
                    assert(self.spec_y(out[j]) == self.spec_y(out[i]));
                }
            }
        }
    }
}

} // verus!
