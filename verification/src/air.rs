//! One step at a time for units that fly: straight towards the destination,
//! over any terrain, along the column or along the row as a seed decides.
use crate::grid::gap;
use crate::grid::WasmGameMap;
use vstd::prelude::*;

verus! {

/// How much more often a step goes along the row than along the column:
/// one, plus the whole number of times that the columns still to go, and
/// one, fit in the rows still to go.
pub open spec fn spec_ratio(dx: int, dy: int) -> int {
    1 + gap(0, dy) / (gap(0, dx) + 1)
}

/// Whether the seed picks the row to step along: its last two decimal
/// digits are less than 100 times `ratio / (ratio + 1)`, taken exactly.
pub open spec fn spec_prefers_x(ratio: int, random_seed: u32) -> bool {
    (random_seed % 100) * (ratio + 1) < ratio * 100
}

/// One step from `from` towards `to`, or `from` where they are the same.
pub open spec fn toward(from: int, to: int) -> int {
    if from < to {
        from + 1
    } else if from > to {
        from - 1
    } else {
        from
    }
}

/// Where a unit at column `x` and row `y` goes next on its way to column
/// `dst_x` and row `dst_y`: one step along the row if the seed picks the row
/// and the column differs, else one step along the column. It stays where it
/// is when there is nothing to do in the direction picked.
pub open spec fn spec_next_point(x: int, y: int, dst_x: int, dst_y: int, random_seed: u32) -> (
    int,
    int,
) {
    if spec_prefers_x(spec_ratio(dst_x - x, dst_y - y), random_seed) && x != dst_x {
        (toward(x, dst_x), y)
    } else {
        (x, toward(y, dst_y))
    }
}

/// The tile that a unit on `tile` steps to on its way to `dst`, or `None`
/// where it reports that it has arrived: on the destination, and also where
/// the direction picked leaves nothing to do.
pub open spec fn spec_next_tile(
    grid: &WasmGameMap,
    tile: u32,
    dst: u32,
    random_seed: u32,
) -> Option<u32> {
    let x = grid.spec_x(tile);
    let y = grid.spec_y(tile);
    let next = spec_next_point(x, y, grid.spec_x(dst), grid.spec_y(dst), random_seed);
    if next == (x, y) {
        None
    } else {
        Some(grid.spec_ref_tile(next.0, next.1) as u32)
    }
}

/// A path finder for units that ignore terrain. It keeps nothing between
/// calls and never looks at costs or navigability.
pub struct AirPathFinderWasm {
    game_map: WasmGameMap,
}

impl AirPathFinderWasm {
    /// The grid that the units fly over.
    pub closed spec fn grid(&self) -> WasmGameMap {
        self.game_map
    }

    pub fn new(game_map: WasmGameMap) -> (finder: AirPathFinderWasm)
        ensures
            finder.grid() == game_map,
    {
        AirPathFinderWasm { game_map }
    }

    /// The tile to step to from `tile` on the way to `dst`, or `None` for
    /// "arrived". `random_seed` decides between the two directions; the
    /// caller varies it from call to call.
    pub fn next_tile(&self, tile: u32, dst: u32, random_seed: u32) -> (next: Option<u32>)
        requires
            self.grid().wf(),
            self.grid().contains(tile),
            self.grid().contains(dst),
        ensures
            next == spec_next_tile(&self.grid(), tile, dst, random_seed),
            tile == dst ==> next is None,
            next matches Some(t) ==> self.grid().adjacent(tile, t) && self.grid().manhattan(t, dst)
                == self.grid().manhattan(tile, dst) - 1,
    {
        proof {
            self.game_map.lemma_point_of_tile(tile);
            self.game_map.lemma_point_of_tile(dst);
        }
        let x = self.game_map.x(tile);
        let y = self.game_map.y(tile);
        let dst_x = self.game_map.x(dst);
        let dst_y = self.game_map.y(dst);
        if x == dst_x && y == dst_y {
            return None;
        }
        let mut next_x = x;
        let mut next_y = y;
        let rows = abs_diff(dst_y, y);
        let columns = abs_diff(dst_x, x);
        assert(rows as int / (columns + 1) <= rows) by (nonlinear_arith)
            requires
                0 <= rows,
                0 <= columns,
        ;
        let ratio: u64 = 1 + rows / (columns + 1);
        let digits = (random_seed % 100) as u64;
        assert(digits * (ratio + 1) <= 99 * 0x1_0000_0000) by (nonlinear_arith)
            requires
                0 <= digits <= 99,
                0 <= ratio + 1 <= 0x1_0000_0000,
        ;
        let chance = digits * (ratio + 1) < ratio * 100;
        if chance && x != dst_x {
            if x < dst_x {
                next_x += 1;
            } else if x > dst_x {
                next_x -= 1;
            }
        } else {
            if y < dst_y {
                next_y += 1;
            } else if y > dst_y {
                next_y -= 1;
            }
        }
        if next_x == x && next_y == y {
            return None;
        }
        proof {
            lemma_step_approaches(x as int, y as int, dst_x as int, dst_y as int, random_seed);
            self.game_map.lemma_tile_of_point(next_x as int, next_y as int);
        }
        let next = self.game_map.ref_tile(next_x, next_y);
        Some(next)
    }
}

/// The distance between two columns or rows of a grid.
fn abs_diff(a: i32, b: i32) -> (d: u64)
    requires
        0 <= a,
        0 <= b,
    ensures
        d == gap(a as int, b as int),
        d == gap(0, a - b),
        d <= i32::MAX,
{
    if a <= b {
        (b - a) as u64
    } else {
        (a - b) as u64
    }
}

/// A step never leads away: the point stepped to is the same point or lies
/// one step closer to the destination, next to where the step began, and
/// between that and the destination.
pub proof fn lemma_step_approaches(x: int, y: int, dst_x: int, dst_y: int, random_seed: u32)
    ensures
        ({
            let next = spec_next_point(x, y, dst_x, dst_y, random_seed);
            let before = gap(x, dst_x) + gap(y, dst_y);
            let after = gap(next.0, dst_x) + gap(next.1, dst_y);
            if next == (x, y) {
                after == before
            } else {
                &&& after == before - 1
                &&& gap(next.0, x) + gap(next.1, y) == 1
                &&& (x <= next.0 <= dst_x || dst_x <= next.0 <= x)
                &&& (y <= next.1 <= dst_y || dst_y <= next.1 <= y)
            }
        }),
        (x, y) == (dst_x, dst_y) ==> spec_next_point(x, y, dst_x, dst_y, random_seed) == (x, y),
{
}

} // verus!
