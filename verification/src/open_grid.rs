//! How fast a search is on open ground: a grid on which every tile is
//! navigable and costs one unit. With one source, each round brings both
//! frontiers one step closer to their targets, so the frontiers meet after
//! no more rounds than the source and the destination are steps apart, and
//! one.
use crate::astar::rounds_budget;
use crate::astar::spec_start;
use crate::astar::takes;
use crate::astar::SearchModel;
use crate::astar::SerialAStarWasm;
use crate::frontier::relax;
use crate::frontier::relax_all;
use crate::frontier::spec_expand;
use crate::frontier::spec_heuristic;
use crate::frontier::spec_priority;
use crate::frontier::FrontierModel;
use crate::grid::WasmGameMap;
use crate::grid::COST_SCALE;
use crate::outcome::PathFindResultType;
use vstd::prelude::*;

verus! {

/// Whether every tile of the grid is navigable and costs one unit.
pub open spec fn open_unit_grid(grid: &WasmGameMap) -> bool {
    &&& forall|t: u32| grid.contains(t) ==> #[trigger] grid.water().contains(t)
    &&& forall|t: u32| grid.contains(t) ==> #[trigger] grid.spec_cost(t) == COST_SCALE
}

/// What holds of a frontier from `origin` towards `target` on open ground
/// after `k` rounds: every tile reached lies on the grid and was reached at
/// a cost of at least its distance from `origin` and at most `k` units, and
/// every tile that waits was reached and waits under its cost plus its
/// heuristic.
pub open spec fn side_bounds(
    grid: &WasmGameMap,
    m: FrontierModel,
    origin: u32,
    target: u32,
    k: int,
) -> bool {
    &&& grid.contains(origin)
    &&& grid.contains(target)
    &&& m.score.contains_key(origin)
    &&& forall|v: u32| #[trigger]
        m.score.contains_key(v) ==> grid.contains(v) && COST_SCALE * grid.manhattan(origin, v)
            <= m.score[v] <= COST_SCALE * k
    &&& forall|v: u32| #[trigger]
        m.open.contains_key(v) ==> m.score.contains_key(v) && m.open[v] == spec_priority(
            m.score[v] + spec_heuristic(grid, v, target),
        )
}

/// Whether a frontier from `origin` towards `target` on open ground is on
/// its way after `k` rounds: besides `side_bounds`, a tile waits that is `k`
/// steps closer to `target` than `origin` is.
pub open spec fn side_on_track(
    grid: &WasmGameMap,
    m: FrontierModel,
    origin: u32,
    target: u32,
    k: int,
) -> bool {
    &&& side_bounds(grid, m, origin, target, k)
    &&& 0 <= k <= grid.manhattan(origin, target)
    &&& exists|v: u32| #[trigger]
        m.open.contains_key(v) && grid.manhattan(v, target) == grid.manhattan(origin, target) - k
}

/// Between tiles of a well-formed grid the number of steps is not negative,
/// fits well within a `u64` even when taken as a cost, is the same both
/// ways, is no more by way of a third tile, and is zero between a tile and
/// itself only.
pub proof fn lemma_manhattan(grid: &WasmGameMap, a: u32, b: u32, c: u32)
    requires
        grid.wf(),
        grid.contains(a),
        grid.contains(b),
        grid.contains(c),
    ensures
        0 <= grid.manhattan(a, b) <= 0x1_0000_0000,
        grid.manhattan(a, b) == grid.manhattan(b, a),
        grid.manhattan(a, c) <= grid.manhattan(a, b) + grid.manhattan(b, c),
        grid.manhattan(a, b) == 0 <==> a == b,
{
    grid.lemma_point_of_tile(a);
    grid.lemma_point_of_tile(b);
    grid.lemma_point_of_tile(c);
}

/// A tile of the grid that is not the target has a neighbour one step
/// closer to the target.
pub proof fn lemma_closer_neighbor(grid: &WasmGameMap, tile: u32, target: u32) -> (j: int)
    requires
        grid.wf(),
        grid.contains(tile),
        grid.contains(target),
        tile != target,
    ensures
        0 <= j < grid.spec_neighbors(tile).len(),
        grid.manhattan(grid.spec_neighbors(tile)[j], target) == grid.manhattan(tile, target) - 1,
{
    grid.lemma_point_of_tile(tile);
    grid.lemma_point_of_tile(target);
    grid.lemma_neighbors(tile);
    let x = grid.spec_x(tile);
    let y = grid.spec_y(tile);
    let tx = grid.spec_x(target);
    let ty = grid.spec_y(target);
    let up = grid.tile_if_inside(x, y - 1);
    let right = grid.tile_if_inside(x + 1, y);
    let down = grid.tile_if_inside(x, y + 1);
    let left = grid.tile_if_inside(x - 1, y);
    let all = grid.spec_neighbors(tile);
    assert(all == up + right + down + left);
    if y > ty {
        grid.lemma_tile_of_point(x, y - 1);
        assert(all[0] == up[0]);
        0
    } else if x < tx {
        grid.lemma_tile_of_point(x + 1, y);
        assert(all[up.len() as int] == right[0]);
        up.len() as int
    } else if y < ty {
        grid.lemma_tile_of_point(x, y + 1);
        assert(all[(up.len() + right.len()) as int] == down[0]);
        (up.len() + right.len()) as int
    } else {
        grid.lemma_tile_of_point(x - 1, y);
        assert(all[(up.len() + right.len() + down.len()) as int] == left[0]);
        (up.len() + right.len() + down.len()) as int
    }
}

/// On open ground a tile that may leave the queue of a frontier on its way
/// is `k` steps closer to the target than the origin is, and was reached at
/// a cost of `k` units.
pub proof fn lemma_front_tile(
    grid: &WasmGameMap,
    m: FrontierModel,
    origin: u32,
    target: u32,
    k: int,
    tile: u32,
)
    requires
        grid.wf(),
        side_on_track(grid, m, origin, target, k),
        takes(m.open, tile),
    ensures
        m.score.contains_key(tile),
        grid.contains(tile),
        m.score[tile] == COST_SCALE * k,
        grid.manhattan(tile, target) == grid.manhattan(origin, target) - k,
{
    let w = choose|v: u32| #[trigger]
        m.open.contains_key(v) && grid.manhattan(v, target) == grid.manhattan(origin, target) - k;
    assert(m.score.contains_key(w));
    assert(m.score.contains_key(tile));
    lemma_manhattan(grid, origin, tile, target);
    lemma_manhattan(grid, origin, w, target);
    lemma_manhattan(grid, tile, target, target);
    lemma_manhattan(grid, w, target, target);
    assert(m.open[tile] <= m.open[w]);
}

/// What relaxing steps from `current` on open ground keeps and brings.
/// `current` was reached at `k` units, `k` steps from the origin. Then the
/// bounds hold for `k + 1` rounds afterwards, tiles reached before stay
/// reached, each of the neighbours is reached, and every tile that was not
/// reached before waits.
proof fn lemma_relax_all_on_open_ground(
    grid: &WasmGameMap,
    m: FrontierModel,
    origin: u32,
    target: u32,
    k: int,
    current: u32,
    neighbors: Seq<u32>,
)
    requires
        grid.wf(),
        open_unit_grid(grid),
        side_bounds(grid, m, origin, target, k),
        0 <= k <= grid.manhattan(origin, target),
        m.score.contains_key(current),
        m.score[current] == COST_SCALE * k,
        forall|j: int| 0 <= j < neighbors.len() ==> grid.adjacent(current, #[trigger] neighbors[j]),
    ensures
        side_bounds(grid, relax_all(m, grid, current, target, neighbors), origin, target, k + 1),
        relax_all(m, grid, current, target, neighbors).score[current] == COST_SCALE * k,
        forall|v: u32| #[trigger]
            m.score.contains_key(v) ==> relax_all(
                m,
                grid,
                current,
                target,
                neighbors,
            ).score.contains_key(v),
        forall|v: u32| #[trigger]
            m.open.contains_key(v) ==> relax_all(
                m,
                grid,
                current,
                target,
                neighbors,
            ).open.contains_key(v),
        forall|j: int|
            0 <= j < neighbors.len() ==> relax_all(
                m,
                grid,
                current,
                target,
                neighbors,
            ).score.contains_key(#[trigger] neighbors[j]),
        forall|v: u32| #[trigger]
            relax_all(m, grid, current, target, neighbors).score.contains_key(v)
                && !m.score.contains_key(v) ==> relax_all(
                m,
                grid,
                current,
                target,
                neighbors,
            ).open.contains_key(v),
    decreases neighbors.len(),
{
    lemma_manhattan(grid, origin, target, target);
    if neighbors.len() > 0 {
        let rest = neighbors.drop_last();
        let n = neighbors.last();
        lemma_relax_all_on_open_ground(grid, m, origin, target, k, current, rest);
        let before = relax_all(m, grid, current, target, rest);
        let after = relax(before, grid, current, target, n);
        assert(after == relax_all(m, grid, current, target, neighbors));
        assert(grid.adjacent(current, n));
        assert(grid.water().contains(n));
        assert(grid.spec_cost(n) == COST_SCALE);
        lemma_manhattan(grid, origin, current, n);
        lemma_manhattan(grid, origin, n, target);
        assert(COST_SCALE * k + COST_SCALE == COST_SCALE * (k + 1)) by (nonlinear_arith);
        assert forall|j: int| 0 <= j < neighbors.len() implies after.score.contains_key(
            #[trigger] neighbors[j],
        ) by {
            if j < rest.len() {
                assert(rest[j] == neighbors[j]);
            }
        }
        assert forall|v: u32| #[trigger]
            after.score.contains_key(v) && !m.score.contains_key(
                v,
            ) implies after.open.contains_key(v) by {
            if v != n {
                assert(before.score.contains_key(v));
            } else if before.score.contains_key(n) {
                assert(before.open.contains_key(n));
            }
        }
    }
}

/// Expanding the front tile of a frontier on open ground puts the frontier
/// one round further on its way, and keeps what was reached.
proof fn lemma_expand_on_open_ground(
    grid: &WasmGameMap,
    m: FrontierModel,
    origin: u32,
    target: u32,
    k: int,
    current: u32,
)
    requires
        grid.wf(),
        open_unit_grid(grid),
        side_bounds(grid, m, origin, target, k),
        0 <= k < grid.manhattan(origin, target),
        m.score.contains_key(current),
        m.score[current] == COST_SCALE * k,
        grid.manhattan(current, target) == grid.manhattan(origin, target) - k,
    ensures
        side_on_track(grid, spec_expand(m, grid, current, target), origin, target, k + 1),
        forall|v: u32| #[trigger]
            m.score.contains_key(v) ==> spec_expand(m, grid, current, target).score.contains_key(
                v,
            ),
{
    let neighbors = grid.spec_neighbors(current);
    let after = spec_expand(m, grid, current, target);
    grid.lemma_neighbors(current);
    lemma_relax_all_on_open_ground(grid, m, origin, target, k, current, neighbors);
    lemma_manhattan(grid, current, target, target);
    let j = lemma_closer_neighbor(grid, current, target);
    let n = neighbors[j];
    assert(grid.adjacent(current, n));
    lemma_manhattan(grid, origin, n, target);
    assert(COST_SCALE * (k + 1) == COST_SCALE * k + COST_SCALE) by (nonlinear_arith);
    assert(after.score.contains_key(n));
    assert(!m.score.contains_key(n));
    assert(after.open.contains_key(n));
}

/// Whether a search is one from a single source on open ground.
pub open spec fn on_open_ground(s: &SerialAStarWasm) -> bool {
    &&& s.wf()
    &&& open_unit_grid(&s.grid())
    &&& s.sources().len() == 1
}

/// The steps between the source and the destination of a search from a
/// single source.
pub open spec fn steps_apart(s: &SerialAStarWasm) -> int {
    s.grid().manhattan(s.sources()[0], s.destination())
}

/// Whether in the state `m` of a search on open ground both frontiers are on
/// their way after `k` rounds.
pub open spec fn on_track(s: &SerialAStarWasm, m: SearchModel, k: int) -> bool {
    &&& side_on_track(&s.grid(), m.forward, s.sources()[0], s.destination(), k)
    &&& side_on_track(&s.grid(), m.backward, s.destination(), s.sources()[0], k)
}

/// A search on open ground starts on track.
pub proof fn lemma_start_on_track(s: &SerialAStarWasm, max_tries: i32)
    requires
        on_open_ground(s),
    ensures
        s.closest_source() == s.sources()[0],
        on_track(s, spec_start(&s.grid(), s.sources(), s.destination(), max_tries), 0),
{
    let grid = s.grid();
    let from = s.sources()[0];
    let to = s.destination();
    let m = spec_start(&grid, s.sources(), to, max_tries);
    assert(s.sources() =~= seq![from]);
    assert(s.closest_source() == from);
    lemma_manhattan(&grid, from, to, to);
    lemma_manhattan(&grid, to, from, from);
    assert(seq![from][0] == from);
    assert(seq![to][0] == to);
    assert(m.forward.open.contains_key(from));
    assert(m.backward.open.contains_key(to));
}

/// A round of a search on open ground that is on track after `k` rounds
/// completes the search or leaves it on track after `k + 1` rounds. It
/// completes the search where `k` is the number of steps between source and
/// destination.
pub proof fn lemma_round_on_open_ground(
    s: &SerialAStarWasm,
    m: SearchModel,
    k: int,
    first: u32,
    second: u32,
)
    requires
        on_open_ground(s),
        on_track(s, m, k),
        !m.completed,
        s.round_allowed(m, first, second),
    ensures
        s.spec_round(m, first, second).completed || on_track(
            s,
            s.spec_round(m, first, second),
            k + 1,
        ),
        k == steps_apart(s) ==> s.spec_round(m, first, second).completed,
{
    let grid = s.grid();
    let from = s.sources()[0];
    let to = s.destination();
    lemma_start_on_track(s, 0);
    lemma_manhattan(&grid, from, to, to);
    lemma_manhattan(&grid, to, from, from);
    lemma_front_tile(&grid, m.forward, from, to, k, first);
    lemma_manhattan(&grid, first, to, to);
    let taken = m.take(first, true);
    if !m.backward.score.contains_key(first) {
        assert(side_bounds(&grid, taken.forward, from, to, k));
        lemma_expand_on_open_ground(&grid, taken.forward, from, to, k, first);
        let mid = s.spec_visit(taken, first, true);
        assert(mid.forward == spec_expand(taken.forward, &grid, first, to));
        assert(mid.backward == m.backward);
        lemma_front_tile(&grid, m.backward, to, from, k, second);
        lemma_manhattan(&grid, second, from, from);
        let taken_back = mid.take(second, false);
        if !mid.forward.score.contains_key(second) {
            assert(side_bounds(&grid, taken_back.backward, to, from, k));
            lemma_expand_on_open_ground(&grid, taken_back.backward, to, from, k, second);
        }
    }
}

/// Rounds of a search on open ground that is on track after `k` rounds
/// complete the search or leave it on track after as many rounds more.
pub proof fn lemma_run_on_open_ground(
    s: &SerialAStarWasm,
    m: SearchModel,
    k: int,
    picks: Seq<(u32, u32)>,
)
    requires
        on_open_ground(s),
        on_track(s, m, k),
        !m.completed,
        forall|i: int| 0 <= i < picks.len() ==> #[trigger] s.round_ok(m, picks, i),
    ensures
        s.spec_run(m, picks).completed || on_track(s, s.spec_run(m, picks), k + picks.len()),
    decreases picks.len(),
{
    if picks.len() > 0 {
        let rest = picks.drop_last();
        let n = picks.len() - 1;
        assert forall|i: int| 0 <= i < rest.len() implies #[trigger] s.round_ok(m, rest, i) by {
            assert(s.round_ok(m, picks, i));
            assert(rest.take(i) == picks.take(i));
        }
        lemma_run_on_open_ground(s, m, k, rest);
        assert(s.round_ok(m, picks, n));
        assert(picks.take(n) == rest);
        let before = s.spec_run(m, rest);
        lemma_round_on_open_ground(s, before, k + n, picks[n].0, picks[n].1);
    }
}

/// A search that is on track has tiles waiting on both sides and has done
/// no more rounds than source and destination are steps apart.
pub proof fn lemma_on_track_has_work(s: &SerialAStarWasm, m: SearchModel, k: int)
    requires
        on_open_ground(s),
        on_track(s, m, k),
    ensures
        m.has_work(),
        0 <= k <= steps_apart(s),
{
    let f = choose|v: u32| #[trigger]
        m.forward.open.contains_key(v) && s.grid().manhattan(v, s.destination())
            == s.grid().manhattan(s.sources()[0], s.destination()) - k;
    let b = choose|v: u32| #[trigger]
        m.backward.open.contains_key(v) && s.grid().manhattan(v, s.sources()[0])
            == s.grid().manhattan(s.destination(), s.sources()[0]) - k;
    assert(m.forward.open.dom().contains(f));
    assert(m.backward.open.dom().contains(b));
}

/// A call of `compute` on a search on open ground that is on track after
/// `k` rounds completes the search or leaves it on track after as many
/// rounds more as the budget of rounds allows.
pub proof fn lemma_call_on_open_ground(
    before: &SerialAStarWasm,
    after: &SerialAStarWasm,
    k: int,
)
    requires
        on_open_ground(before),
        after.follows(before),
        !before.completed(),
        on_track(before, before@, k),
    ensures
        after.completed() || on_track(
            before,
            after@,
            k + rounds_budget(before.iterations()),
        ),
{
    let picks = choose|picks: Seq<(u32, u32)>| #[trigger] before.computes(picks, after@);
    assert(before.computes(picks, after@));
    let start = before@.spent();
    assert(on_track(before, start, k));
    lemma_run_on_open_ground(before, start, k, picks);
    if !after.completed() {
        lemma_on_track_has_work(before, after@, k + picks.len());
    }
}

/// On open ground a search from one source completes within a number of
/// calls that grows with the steps between source and destination and with
/// nothing else. Where `states` lists a search before its first call of
/// `compute` and after each call, and the rounds that the calls may do
/// together are more than source and destination are steps apart, the search
/// is complete after the last call. Until then both frontiers have tiles
/// waiting after each call, so that no call reports `PathNotFound` while the
/// budget of calls lasts.
pub proof fn lemma_open_ground_search_completes(states: Seq<SerialAStarWasm>)
    requires
        states.len() > 0,
        on_open_ground(&states[0]),
        states[0]@ == spec_start(
            &states[0].grid(),
            states[0].sources(),
            states[0].destination(),
            states[0].tries_left(),
        ),
        forall|i: int, j: int|
            #![trigger states[i], states[j]]
            0 <= i && j == i + 1 && j < states.len() ==> states[j].follows(&states[i]),
        (states.len() - 1) * rounds_budget(states[0].iterations()) > steps_apart(
            &states[0],
        ),
    ensures
        states.last().completed(),
        states.last().spec_outcome() == PathFindResultType::Completed,
        forall|i: int|
            0 <= i < states.len() && (#[trigger] states[i]).tries_left() > 0
                ==> states[i].spec_outcome() != PathFindResultType::PathNotFound,
{
    let n = states.len() - 1;
    lemma_calls_on_open_ground(states, n);
    if !states[n].completed() {
        lemma_on_track_has_work(
            &states[0],
            states[n]@,
            n * rounds_budget(states[0].iterations()),
        );
    }
    assert forall|i: int|
        0 <= i < states.len() && (#[trigger] states[i]).tries_left()
            > 0 implies states[i].spec_outcome() != PathFindResultType::PathNotFound by {
        lemma_calls_on_open_ground(states, i);
        if !states[i].completed() {
            lemma_on_track_has_work(
                &states[0],
                states[i]@,
                i * rounds_budget(states[0].iterations()),
            );
        }
    }
}

proof fn lemma_calls_on_open_ground(states: Seq<SerialAStarWasm>, i: int)
    requires
        0 <= i < states.len(),
        on_open_ground(&states[0]),
        states[0]@ == spec_start(
            &states[0].grid(),
            states[0].sources(),
            states[0].destination(),
            states[0].tries_left(),
        ),
        forall|i: int, j: int|
            #![trigger states[i], states[j]]
            0 <= i && j == i + 1 && j < states.len() ==> states[j].follows(&states[i]),
    ensures
        states[i].wf(),
        states[i].same_problem(&states[0]),
        states[i].completed() || on_track(
            &states[0],
            states[i]@,
            i * rounds_budget(states[0].iterations()),
        ),
    decreases i,
{
    let rounds = rounds_budget(states[0].iterations());
    if i == 0 {
        lemma_start_on_track(&states[0], states[0].tries_left());
        assert(0 * rounds == 0) by (nonlinear_arith);
    } else {
        lemma_calls_on_open_ground(states, i - 1);
        assert(states[i].follows(&states[i - 1]));
        assert((i - 1) * rounds + rounds == i * rounds) by (nonlinear_arith);
        if !states[i - 1].completed() {
            assert(on_track(&states[i - 1], states[i - 1]@, (i - 1) * rounds));
            lemma_call_on_open_ground(&states[i - 1], &states[i], (i - 1) * rounds);
        }
    }
}

} // verus!
