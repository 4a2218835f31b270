//! The coarse-to-fine search: the bidirectional search runs on a grid of half
//! the resolution, and the path it finds there is brought back to the full
//! grid, with the gaps between its tiles filled in.
use crate::astar::spec_start;
use crate::astar::SerialAStarWasm;
use crate::grid::gap;
use crate::grid::Point;
use crate::grid::WasmGameMap;
use crate::outcome::PathFindResultType;
use vstd::prelude::*;

verus! {

/// How many tiles of the full grid one tile of the coarse grid stands for
/// along each axis. The library has no other factor.
pub const SCALE_FACTOR: i32 = 2;

/// The column and row of a tile.
pub open spec fn spec_point(grid: &WasmGameMap, tile: u32) -> Point {
    Point { x: grid.spec_x(tile) as i32, y: grid.spec_y(tile) as i32 }
}

/// The columns and rows of the tiles of a path.
pub open spec fn spec_points(grid: &WasmGameMap, tiles: Seq<u32>) -> Seq<Point> {
    Seq::new(tiles.len(), |i: int| spec_point(grid, tiles[i]))
}

/// The tiles at the points of a path.
pub open spec fn spec_tiles(grid: &WasmGameMap, points: Seq<Point>) -> Seq<u32> {
    Seq::new(
        points.len(),
        |i: int| grid.spec_ref_tile(points[i].x as int, points[i].y as int) as u32,
    )
}

/// The tile of the coarse grid `mini` that stands for a tile of the grid
/// `full`: the one at half its column and half its row, rounded down.
pub open spec fn spec_coarsen(full: &WasmGameMap, mini: &WasmGameMap, tile: u32) -> u32 {
    mini.spec_ref_tile(
        full.spec_x(tile) / (SCALE_FACTOR as int),
        full.spec_y(tile) / (SCALE_FACTOR as int),
    ) as u32
}

/// The tiles of the coarse grid that stand for the tiles of a sequence.
pub open spec fn spec_coarsen_all(full: &WasmGameMap, mini: &WasmGameMap, tiles: Seq<u32>) -> Seq<
    u32,
> {
    Seq::new(tiles.len(), |i: int| spec_coarsen(full, mini, tiles[i]))
}

/// The points of a coarse path on the full grid: each column and row times
/// the scale factor.
pub open spec fn spec_scaled(path: Seq<Point>) -> Seq<Point> {
    Seq::new(
        path.len(),
        |i: int|
            Point { x: (SCALE_FACTOR * path[i].x) as i32, y: (SCALE_FACTOR * path[i].y) as i32 },
    )
}

/// The number of steps between two points for a unit that may also step
/// diagonally: the larger of the two distances along the axes.
pub open spec fn chebyshev(a: Point, b: Point) -> int {
    if gap(a.x as int, b.x as int) >= gap(a.y as int, b.y as int) {
        gap(a.x as int, b.x as int)
    } else {
        gap(a.y as int, b.y as int)
    }
}

/// Where one is after `step` of `steps` equal steps from `from` to `to`,
/// rounded towards `from`.
pub open spec fn toward_by(from: int, to: int, step: int, steps: int) -> int {
    if to >= from {
        from + ((to - from) * step) / steps
    } else {
        from - ((from - to) * step) / steps
    }
}

/// The point after `step` steps on the straight line from `a` to `b`, which
/// takes as many steps as `chebyshev` says.
pub open spec fn between(a: Point, b: Point, step: int) -> Point {
    Point {
        x: toward_by(a.x as int, b.x as int, step, chebyshev(a, b)) as i32,
        y: toward_by(a.y as int, b.y as int, step, chebyshev(a, b)) as i32,
    }
}

/// The number of points that `segment` lists.
pub open spec fn segment_len(a: Point, b: Point) -> nat {
    if chebyshev(a, b) <= 1 {
        1
    } else {
        chebyshev(a, b) as nat
    }
}

/// The point `a` and after it the points on the straight line from `a` to
/// `b`, one for each step, without `b` itself.
pub open spec fn segment(a: Point, b: Point) -> Seq<Point> {
    Seq::new(
        segment_len(a, b),
        |k: int|
            if k == 0 {
                a
            } else {
                between(a, b, k)
            },
    )
}

/// The segments from each of the first `n` points to the point after it, one
/// after the other.
pub open spec fn segments(points: Seq<Point>, n: int) -> Seq<Point>
    decreases n,
{
    if n <= 0 {
        Seq::empty()
    } else {
        segments(points, n - 1) + segment(points[n - 1], points[n])
    }
}

/// A path through the given points in which each point is at most one step
/// from the one before it: the segments between the points and then the last
/// point. No points give no path.
pub open spec fn spec_smooth(points: Seq<Point>) -> Seq<Point> {
    if points.len() == 0 {
        Seq::empty()
    } else {
        segments(points, points.len() - 1) + seq![points.last()]
    }
}

/// A coarse path brought to the full grid: scaled, and the gaps filled in.
pub open spec fn spec_upscale(path: Seq<Point>) -> Seq<Point> {
    spec_smooth(spec_scaled(path))
}

/// Whether the scaled points of a path fit in an `i32`.
pub open spec fn scalable(path: Seq<Point>) -> bool {
    forall|i: int|
        0 <= i < path.len() ==> {
            &&& i32::MIN <= SCALE_FACTOR * (#[trigger] path[i]).x <= i32::MAX
            &&& i32::MIN <= SCALE_FACTOR * path[i].y <= i32::MAX
        }
}

/// Whether each point of a path is at most one step from the one before it,
/// diagonal steps included.
pub open spec fn no_gaps(path: Seq<Point>) -> bool {
    forall|i: int, j: int|
        0 <= i && j == i + 1 && j < path.len() ==> chebyshev(
            #[trigger] path[i],
            #[trigger] path[j],
        ) <= 1
}

/// Whether every tile of `mini`, scaled, lies on `full`.
pub open spec fn half_resolution(full: &WasmGameMap, mini: &WasmGameMap) -> bool {
    &&& SCALE_FACTOR * mini.width() <= full.width() + 1
    &&& SCALE_FACTOR * mini.height() <= full.height() + 1
}

/// Whether `mini` has a tile that stands for `tile` of `full`.
pub open spec fn coarsens(full: &WasmGameMap, mini: &WasmGameMap, tile: u32) -> bool {
    full.contains(tile) && mini.inside(
        full.spec_x(tile) / (SCALE_FACTOR as int),
        full.spec_y(tile) / (SCALE_FACTOR as int),
    )
}

/// The distance between two columns or rows.
fn distance(a: i32, b: i32) -> (d: u64)
    ensures
        d == gap(a as int, b as int),
        d <= u32::MAX,
{
    if a <= b {
        (b as i64 - a as i64) as u64
    } else {
        (a as i64 - b as i64) as u64
    }
}

/// Where one is after `step` of `steps` equal steps from `from` to `to`,
/// rounded towards `from`.
fn interpolate(from: i32, to: i32, step: u64, steps: u64) -> (v: i32)
    requires
        0 < step < steps,
        gap(from as int, to as int) <= steps,
        steps <= u32::MAX,
    ensures
        v == toward_by(from as int, to as int, step as int, steps as int),
        from <= v <= to || to <= v <= from,
{
    let d = distance(from, to);
    proof {
        lemma_part_of(d as int, step as int, steps as int);
        assert(d * step <= 0xffff_ffff * 0xffff_ffff) by (nonlinear_arith)
            requires
                0 <= d <= 0xffff_ffff,
                0 <= step <= 0xffff_ffff,
        ;
    }
    let q = ((d as u128 * step as u128) / steps as u128) as i64;
    if to >= from {
        (from as i64 + q) as i32
    } else {
        (from as i64 - q) as i32
    }
}

/// A part of a distance is no more than the distance.
proof fn lemma_part_of(d: int, step: int, steps: int)
    requires
        0 <= d,
        0 <= step <= steps,
        0 < steps,
    ensures
        0 <= d * step,
        0 <= (d * step) / steps <= d,
        d * step <= d * steps,
{
    assert(0 <= d * step <= d * steps) by (nonlinear_arith)
        requires
            0 <= d,
            0 <= step <= steps,
    ;
    assert(d * steps == steps * d) by (nonlinear_arith);
    vstd::arithmetic::div_mod::lemma_div_is_ordered(d * step, d * steps, steps);
    vstd::arithmetic::div_mod::lemma_div_multiples_vanish(d, steps);
    vstd::arithmetic::div_mod::lemma_div_pos_is_pos(d * step, steps);
}

/// Puts `current` and the points on the line from it to `next`, without
/// `next`, at the end of `out`.
fn push_segment(out: &mut Vec<Point>, current: Point, next: Point)
    ensures
        final(out)@ == old(out)@ + segment(current, next),
{
    out.push(current);
    let dx = distance(current.x, next.x);
    let dy = distance(current.y, next.y);
    let steps = if dx >= dy {
        dx
    } else {
        dy
    };
    let mut step: u64 = 1;
    while step < steps
        invariant
            1 <= step,
            steps > 1 ==> step <= steps,
            steps <= 1 ==> step == 1,
            steps == chebyshev(current, next),
            steps <= u32::MAX,
            out@ == old(out)@ + segment(current, next).take(step as int),
        decreases steps - step,
    {
        let x = interpolate(current.x, next.x, step, steps);
        let y = interpolate(current.y, next.y, step, steps);
        out.push(Point { x, y });
        proof {
            let seg = segment(current, next);
            assert(seg[step as int] == Point { x, y });
            assert(seg.take(step + 1) == seg.take(step as int).push(seg[step as int]));
        }
        step += 1;
    }
    proof {
        let seg = segment(current, next);
        assert(step == seg.len());
        assert(seg.take(step as int) == seg);
    }
}

/// A search on a coarse grid for a path on the full grid.
pub struct MiniAStarWasm {
    game_map: WasmGameMap,
    dst: u32,
    astar: SerialAStarWasm,
}

impl MiniAStarWasm {
    /// The full grid.
    pub closed spec fn grid(&self) -> WasmGameMap {
        self.game_map
    }

    /// The tile of the full grid that the path ends on.
    pub closed spec fn destination(&self) -> u32 {
        self.dst
    }

    /// The search on the coarse grid.
    pub closed spec fn coarse(&self) -> SerialAStarWasm {
        self.astar
    }

    /// What holds of every coarse-to-fine search, whatever it has done so
    /// far.
    pub open spec fn wf(&self) -> bool {
        &&& self.grid().wf()
        &&& self.coarse().wf()
        &&& half_resolution(&self.grid(), &self.coarse().grid())
        &&& coarsens(&self.grid(), &self.coarse().grid(), self.destination())
        &&& self.coarse().destination() == spec_coarsen(
            &self.grid(),
            &self.coarse().grid(),
            self.destination(),
        )
    }

    /// The path on the full grid: the coarse search's path, scaled and
    /// smoothed, and after it the destination itself. Empty while the coarse
    /// search has found no path.
    pub open spec fn spec_path(&self) -> Seq<u32> {
        if self.coarse().spec_path().len() == 0 {
            Seq::empty()
        } else {
            spec_tiles(
                &self.grid(),
                spec_upscale(
                    spec_points(&self.coarse().grid(), self.coarse().spec_path()),
                ).push(spec_point(&self.grid(), self.destination())),
            )
        }
    }

    /// A search from `sources` to `dst` on `game_map` that runs on
    /// `mini_map`, the same terrain at half the resolution.
    pub fn new(
        game_map: WasmGameMap,
        mini_map: WasmGameMap,
        sources: Vec<u32>,
        dst: u32,
        iterations: i32,
        max_tries: i32,
    ) -> (mini: MiniAStarWasm)
        requires
            game_map.wf(),
            mini_map.wf(),
            half_resolution(&game_map, &mini_map),
            sources.len() > 0,
            forall|i: int|
                0 <= i < sources.len() ==> coarsens(&game_map, &mini_map, #[trigger] sources[i]),
            coarsens(&game_map, &mini_map, dst),
        ensures
            mini.wf(),
            mini.grid() == game_map,
            mini.destination() == dst,
            mini.coarse().grid() == mini_map,
            mini.coarse().sources() == spec_coarsen_all(&game_map, &mini_map, sources@),
            mini.coarse().destination() == spec_coarsen(&game_map, &mini_map, dst),
            mini.coarse().iterations() == iterations,
            mini.coarse()@ == spec_start(
                &mini_map,
                spec_coarsen_all(&game_map, &mini_map, sources@),
                spec_coarsen(&game_map, &mini_map, dst),
                max_tries,
            ),
    {
        let mut mini_sources: Vec<u32> = Vec::new();
        let mut i: usize = 0;
        while i < sources.len()
            invariant
                i <= sources.len(),
                game_map.wf(),
                mini_map.wf(),
                forall|j: int|
                    0 <= j < sources.len() ==> coarsens(
                        &game_map,
                        &mini_map,
                        #[trigger] sources[j],
                    ),
                mini_sources@ == spec_coarsen_all(&game_map, &mini_map, sources@.take(i as int)),
                forall|j: int|
                    0 <= j < mini_sources.len() ==> mini_map.contains(#[trigger] mini_sources[j]),
            decreases sources.len() - i,
        {
            let src = sources[i];
            proof {
                game_map.lemma_point_of_tile(src);
            }
            let x = game_map.x(src);
            let y = game_map.y(src);
            proof {
                mini_map.lemma_tile_of_point(
                    x as int / (SCALE_FACTOR as int),
                    y as int / (SCALE_FACTOR as int),
                );
            }
            let coarse = mini_map.ref_tile(x / SCALE_FACTOR, y / SCALE_FACTOR);
            mini_sources.push(coarse);
            proof {
                assert(sources@.take(i + 1) == sources@.take(i as int).push(src));
                assert(mini_sources@ == spec_coarsen_all(
                    &game_map,
                    &mini_map,
                    sources@.take(i + 1),
                ));
            }
            i += 1;
        }
        proof {
            assert(sources@.take(sources.len() as int) == sources@);
            game_map.lemma_point_of_tile(dst);
        }
        let mini_dst = {
            let x = game_map.x(dst);
            let y = game_map.y(dst);
            proof {
                mini_map.lemma_tile_of_point(
                    x as int / (SCALE_FACTOR as int),
                    y as int / (SCALE_FACTOR as int),
                );
            }
            mini_map.ref_tile(x / SCALE_FACTOR, y / SCALE_FACTOR)
        };
        let astar = SerialAStarWasm::new(mini_sources, mini_dst, iterations, max_tries, mini_map);
        MiniAStarWasm { game_map, dst, astar }
    }

    /// One slice of the search on the coarse grid, with that search's
    /// report. See [`SerialAStarWasm::compute`].
    pub fn compute(&mut self) -> (r: PathFindResultType)
        requires
            old(self).wf(),
        ensures
            final(self).wf(),
            final(self).grid() == old(self).grid(),
            final(self).destination() == old(self).destination(),
            final(self).coarse().follows(&old(self).coarse()),
            old(self).coarse().completed() ==> *final(self) == *old(self),
            r == final(self).coarse().spec_outcome(),
    {
        self.astar.compute()
    }

    /// A coarse path brought to the full grid: each point is scaled, and
    /// between each point and the next the points on the straight line are
    /// filled in, one for each step.
    pub fn upscale_path(&self, path: Vec<Point>) -> (smooth_path: Vec<Point>)
        requires
            scalable(path@),
        ensures
            smooth_path@ == spec_upscale(path@),
    {
        let mut scaled_path: Vec<Point> = Vec::new();
        let mut i: usize = 0;
        while i < path.len()
            invariant
                i <= path.len(),
                scalable(path@),
                scaled_path@ == spec_scaled(path@.take(i as int)),
            decreases path.len() - i,
        {
            let p = path[i];
            scaled_path.push(Point { x: p.x * SCALE_FACTOR, y: p.y * SCALE_FACTOR });
            proof {
                assert(path@.take(i + 1) == path@.take(i as int).push(p));
                assert(scaled_path@ == spec_scaled(path@.take(i + 1)));
            }
            i += 1;
        }
        proof {
            assert(path@.take(path.len() as int) == path@);
        }
        let mut smooth_path: Vec<Point> = Vec::new();
        if scaled_path.len() == 0 {
            return smooth_path;
        }
        let mut i: usize = 0;
        while i < scaled_path.len() - 1
            invariant
                scaled_path.len() > 0,
                i <= scaled_path.len() - 1,
                smooth_path@ == segments(scaled_path@, i as int),
            decreases scaled_path.len() - i,
        {
            push_segment(&mut smooth_path, scaled_path[i], scaled_path[i + 1]);
            i += 1;
        }
        smooth_path.push(scaled_path[scaled_path.len() - 1]);
        smooth_path
    }

    /// The path on the full grid, empty while the coarse search is not
    /// complete. Once it is, the path is the coarse search's path, scaled and
    /// smoothed, and after it the destination itself: so it ends on the
    /// destination, wherever the coarse path ends.
    pub fn reconstruct_path(&self) -> (path: Vec<u32>)
        requires
            self.wf(),
        ensures
            path@ == self.spec_path(),
            !self.coarse().completed() ==> path@.len() == 0,
            self.coarse().completed() ==> path@.len() > 0 && path@.last() == self.destination(),
            forall|i: int| 0 <= i < path@.len() ==> self.grid().contains(#[trigger] path@[i]),
            no_gaps(spec_points(&self.grid(), path@)),
    {
        let mini_path = self.astar.reconstruct_path();
        if mini_path.len() == 0 {
            return Vec::new();
        }
        let mini_map = self.astar.game_map();
        let mut points: Vec<Point> = Vec::new();
        let mut i: usize = 0;
        while i < mini_path.len()
            invariant
                i <= mini_path.len(),
                mini_map.wf(),
                forall|j: int|
                    0 <= j < mini_path.len() ==> mini_map.contains(#[trigger] mini_path[j]),
                points@ == spec_points(mini_map, mini_path@.take(i as int)),
            decreases mini_path.len() - i,
        {
            let tr = mini_path[i];
            proof {
                mini_map.lemma_point_of_tile(tr);
            }
            points.push(Point { x: mini_map.x(tr), y: mini_map.y(tr) });
            proof {
                assert(mini_path@.take(i + 1) == mini_path@.take(i as int).push(tr));
                assert(points@ == spec_points(mini_map, mini_path@.take(i + 1)));
            }
            i += 1;
        }
        proof {
            assert(mini_path@.take(mini_path.len() as int) == mini_path@);
            assert forall|j: int| 0 <= j < points.len() implies {
                &&& 0 <= SCALE_FACTOR * (#[trigger] points[j]).x < self.game_map.width()
                &&& 0 <= SCALE_FACTOR * points[j].y < self.game_map.height()
            } by {
                mini_map.lemma_point_of_tile(mini_path[j]);
            }
            lemma_smooth_inside(
                spec_scaled(points@),
                self.game_map.width(),
                self.game_map.height(),
            );
            self.game_map.lemma_point_of_tile(self.dst);
            lemma_smooth_has_no_gaps(spec_scaled(points@));
            if mini_path.len() > 0 {
                let last = mini_path.len() - 1;
                assert(mini_path[last] == self.astar.destination());
                mini_map.lemma_tile_of_point(
                    self.game_map.spec_x(self.dst) / (SCALE_FACTOR as int),
                    self.game_map.spec_y(self.dst) / (SCALE_FACTOR as int),
                );
                assert(spec_scaled(points@).last() == Point {
                    x: (SCALE_FACTOR * (self.game_map.spec_x(self.dst) / (SCALE_FACTOR as int)))
                        as i32,
                    y: (SCALE_FACTOR * (self.game_map.spec_y(self.dst) / (SCALE_FACTOR as int)))
                        as i32,
                });
            }
        }
        let upscaled = self.upscale_path(points);
        proof {
            let target = spec_point(&self.game_map, self.dst);
            let whole = upscaled@.push(target);
            assert(no_gaps(whole)) by {
                assert forall|i: int, j: int|
                    0 <= i && j == i + 1 && j < whole.len() implies chebyshev(
                    #[trigger] whole[i],
                    #[trigger] whole[j],
                ) <= 1 by {
                    if j < upscaled@.len() {
                        assert(whole[i] == upscaled@[i] && whole[j] == upscaled@[j]);
                    } else {
                        assert(whole[i] == spec_scaled(points@).last());
                    }
                }
            }
        }
        let mut final_path = upscaled;
        final_path.push(Point { x: self.game_map.x(self.dst), y: self.game_map.y(self.dst) });
        let mut path: Vec<u32> = Vec::new();
        let mut i: usize = 0;
        while i < final_path.len()
            invariant
                i <= final_path.len(),
                self.game_map.wf(),
                forall|j: int|
                    0 <= j < final_path.len() ==> self.game_map.inside(
                        (#[trigger] final_path[j]).x as int,
                        final_path[j].y as int,
                    ),
                path@ == spec_tiles(&self.game_map, final_path@.take(i as int)),
                forall|j: int| 0 <= j < path.len() ==> self.game_map.contains(#[trigger] path[j]),
            decreases final_path.len() - i,
        {
            let p = final_path[i];
            proof {
                self.game_map.lemma_tile_of_point(p.x as int, p.y as int);
            }
            path.push(self.game_map.ref_tile(p.x, p.y));
            proof {
                assert(final_path@.take(i + 1) == final_path@.take(i as int).push(p));
                assert(path@ == spec_tiles(&self.game_map, final_path@.take(i + 1)));
            }
            i += 1;
        }
        proof {
            assert(final_path@.take(final_path.len() as int) == final_path@);
            assert(spec_points(&self.game_map, path@) =~= final_path@) by {
                assert forall|j: int| 0 <= j < final_path.len() implies spec_point(
                    &self.game_map,
                    path@[j],
                ) == final_path@[j] by {
                    self.game_map.lemma_tile_of_point(
                        final_path@[j].x as int,
                        final_path@[j].y as int,
                    );
                }
            }
        }
        path
    }
}

/// A smoothed path stays in the box that holds its points: where every
/// column is at least 0 and less than `width` and every row at least 0 and
/// less than `height` before, they are so after.
pub proof fn lemma_smooth_inside(points: Seq<Point>, width: int, height: int)
    requires
        forall|i: int|
            0 <= i < points.len() ==> 0 <= (#[trigger] points[i]).x < width && 0 <= points[i].y
                < height,
    ensures
        forall|j: int|
            0 <= j < spec_smooth(points).len() ==> 0 <= (#[trigger] spec_smooth(points)[j]).x
                < width && 0 <= spec_smooth(points)[j].y < height,
{
    if points.len() > 0 {
        lemma_segments_inside(points, width, height, points.len() - 1);
    }
}

proof fn lemma_segments_inside(points: Seq<Point>, width: int, height: int, n: int)
    requires
        0 <= n < points.len(),
        forall|i: int|
            0 <= i < points.len() ==> 0 <= (#[trigger] points[i]).x < width && 0 <= points[i].y
                < height,
    ensures
        forall|j: int|
            0 <= j < segments(points, n).len() ==> 0 <= (#[trigger] segments(points, n)[j]).x
                < width && 0 <= segments(points, n)[j].y < height,
    decreases n,
{
    if n > 0 {
        lemma_segments_inside(points, width, height, n - 1);
        let a = points[n - 1];
        let b = points[n];
        let seg = segment(a, b);
        let before = segments(points, n - 1);
        assert forall|k: int| 0 <= k < seg.len() implies 0 <= (#[trigger] seg[k]).x < width && 0
            <= seg[k].y < height by {
            if k > 0 {
                lemma_between_inside(a, b, k);
            }
        }
        assert forall|j: int| 0 <= j < segments(points, n).len() implies 0 <= (
        #[trigger] segments(points, n)[j]).x < width && 0 <= segments(points, n)[j].y
            < height by {
            if j < before.len() {
                assert(segments(points, n)[j] == before[j]);
            } else {
                assert(segments(points, n)[j] == seg[j - before.len()]);
            }
        }
    }
}

/// A point on the line from `a` to `b` lies between them in column and row.
pub proof fn lemma_between_inside(a: Point, b: Point, step: int)
    requires
        0 < step < chebyshev(a, b),
    ensures
        a.x <= between(a, b, step).x <= b.x || b.x <= between(a, b, step).x <= a.x,
        a.y <= between(a, b, step).y <= b.y || b.y <= between(a, b, step).y <= a.y,
{
    let steps = chebyshev(a, b);
    lemma_part_of(gap(a.x as int, b.x as int), step, steps);
    lemma_part_of(gap(a.y as int, b.y as int), step, steps);
}

/// One step more along a line moves at most one tile, and never back.
proof fn lemma_steps_apart(d: int, step: int, steps: int)
    requires
        0 <= d <= steps,
        0 <= step < steps,
    ensures
        0 <= (d * (step + 1)) / steps - (d * step) / steps <= 1,
        (d * 0) / steps == 0,
        (d * steps) / steps == d,
{
    assert(d * (step + 1) == d * step + d && d * 0 == 0 && d * steps == steps * d)
        by (nonlinear_arith);
    assert(0 <= d * step) by (nonlinear_arith)
        requires
            0 <= d,
            0 <= step,
    ;
    vstd::arithmetic::div_mod::lemma_div_is_ordered(d * step, d * step + d, steps);
    vstd::arithmetic::div_mod::lemma_div_is_ordered(d * step + d, steps + d * step, steps);
    vstd::arithmetic::div_mod::lemma_div_plus_one(d * step, steps);
    vstd::arithmetic::div_mod::lemma_div_multiples_vanish(d, steps);
    vstd::arithmetic::div_mod::lemma_div_of0(steps);
}

/// Where the line from `from` to `to` is after `step` and after `step + 1`
/// of `steps` steps lies at most one apart; it starts on `from` and ends on
/// `to`.
proof fn lemma_toward_by_steps(from: int, to: int, step: int, steps: int)
    requires
        gap(from, to) <= steps,
        0 <= step < steps,
    ensures
        gap(toward_by(from, to, step, steps), toward_by(from, to, step + 1, steps)) <= 1,
        toward_by(from, to, 0, steps) == from,
        toward_by(from, to, steps, steps) == to,
        from <= toward_by(from, to, step, steps) <= to || to <= toward_by(from, to, step, steps)
            <= from,
{
    lemma_steps_apart(gap(from, to), step, steps);
    lemma_part_of(gap(from, to), step, steps);
}

/// A segment and the point it leads to make a path without gaps.
pub proof fn lemma_segment_has_no_gaps(a: Point, b: Point)
    ensures
        no_gaps(segment(a, b).push(b)),
{
    let steps = chebyshev(a, b);
    let path = segment(a, b).push(b);
    assert forall|i: int, j: int| 0 <= i && j == i + 1 && j < path.len() implies chebyshev(
        #[trigger] path[i],
        #[trigger] path[j],
    ) <= 1 by {
        if steps > 1 {
            lemma_toward_by_steps(a.x as int, b.x as int, i, steps);
            lemma_toward_by_steps(a.y as int, b.y as int, i, steps);
            if j < steps {
                lemma_toward_by_steps(a.x as int, b.x as int, j, steps);
                lemma_toward_by_steps(a.y as int, b.y as int, j, steps);
            }
        }
    }
}

proof fn lemma_segments_have_no_gaps(points: Seq<Point>, n: int)
    requires
        0 <= n < points.len(),
    ensures
        no_gaps(segments(points, n).push(points[n])),
    decreases n,
{
    if n > 0 {
        lemma_segments_have_no_gaps(points, n - 1);
        let a = points[n - 1];
        let b = points[n];
        lemma_segment_has_no_gaps(a, b);
        let before = segments(points, n - 1);
        let earlier = before.push(a);
        let tail = segment(a, b).push(b);
        let path = segments(points, n).push(b);
        assert forall|i: int, j: int| 0 <= i && j == i + 1 && j < path.len() implies chebyshev(
            #[trigger] path[i],
            #[trigger] path[j],
        ) <= 1 by {
            if j <= before.len() {
                assert(path[i] == earlier[i] && path[j] == earlier[j]);
            } else {
                assert(path[i] == tail[i - before.len()] && path[j] == tail[j - before.len()]);
            }
        }
    }
}

/// A smoothed path has no gaps: each of its points is at most one step from
/// the one before it, diagonal steps included.
pub proof fn lemma_smooth_has_no_gaps(points: Seq<Point>)
    ensures
        no_gaps(spec_smooth(points)),
{
    if points.len() > 0 {
        let n = points.len() - 1;
        lemma_segments_have_no_gaps(points, n);
        assert(spec_smooth(points) == segments(points, n).push(points[n]));
    }
}

} // verus!
