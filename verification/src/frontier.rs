//! One direction of a bidirectional search: the tiles waiting to be visited,
//! the best cost found so far for each tile reached, and the tile each was
//! reached from.
//!
//! Costs and heuristics are whole numbers of thousandths of a unit (see
//! [`crate::grid::COST_SCALE`]). A tile is queued under its cost so far plus its
//! heuristic, in thousandths.
use crate::grid::WasmGameMap;
use crate::open_set::open_set_entries;
use crate::open_set::open_set_is_empty;
use crate::open_set::open_set_new;
use crate::open_set::open_set_pop;
use crate::open_set::open_set_push;
use crate::open_set::OpenSet;
use std::collections::HashMap;
use vstd::prelude::*;

verus! {

broadcast use vstd::std_specs::hash::group_hash_axioms;

/// What the heuristic charges for one step: one and one tenth of a unit. It
/// overrates the way that is left, which makes the search fast and its paths
/// not always the cheapest.
pub const HEURISTIC_STEP: u64 = 1100;

/// The heuristic from tile `a` to tile `b`, in thousandths of a unit.
pub open spec fn spec_heuristic(grid: &WasmGameMap, a: u32, b: u32) -> int {
    HEURISTIC_STEP * grid.manhattan(a, b)
}

/// The priority of a tile whose cost so far plus heuristic is `total`
/// thousandths: that sum itself. It stops growing at `u64::MAX`.
pub open spec fn spec_priority(total: int) -> u64 {
    if total > u64::MAX {
        u64::MAX
    } else {
        total as u64
    }
}

/// The cost of reaching a tile of cost `cost` from one reached at `score`.
/// It stops growing at `u64::MAX`.
pub open spec fn spec_tentative(score: u64, cost: u32) -> u64 {
    if score + cost > u64::MAX {
        u64::MAX
    } else {
        (score + cost) as u64
    }
}

/// The heuristic from tile `a` to tile `b`, in thousandths of a unit.
pub fn heuristic(grid: &WasmGameMap, a: u32, b: u32) -> (h: u64)
    requires
        grid.wf(),
        grid.contains(a),
        grid.contains(b),
    ensures
        h == spec_heuristic(grid, a, b),
        h < u64::MAX,
{
    proof {
        grid.lemma_point_of_tile(a);
        grid.lemma_point_of_tile(b);
    }
    let ax = grid.x(a) as i64;
    let ay = grid.y(a) as i64;
    let bx = grid.x(b) as i64;
    let by = grid.y(b) as i64;
    let dx = if ax <= bx {
        bx - ax
    } else {
        ax - bx
    };
    let dy = if ay <= by {
        by - ay
    } else {
        ay - by
    };
    HEURISTIC_STEP * ((dx + dy) as u64)
}

/// The priority of a tile with cost so far `score` and heuristic `h`.
pub fn priority(score: u64, h: u64) -> (p: u64)
    ensures
        p == spec_priority(score + h),
{
    score.saturating_add(h)
}

/// What a frontier holds, as plain maps.
pub struct FrontierModel {
    /// The tiles waiting to be visited, each with its priority.
    pub open: Map<u32, u64>,
    /// The best cost found so far for each tile reached.
    pub score: Map<u32, u64>,
    /// For each tile reached from another, that other tile.
    pub parent: Map<u32, u32>,
}

/// What relaxing the step from `current` to `neighbor` makes of a frontier
/// that searches towards `target`.
///
/// Only the target itself and navigable tiles are stepped on. The step
/// counts if the neighbour was not reached before or is reached cheaper
/// now; then the neighbour gets its new cost and parent and is queued, or
/// queued anew, under its new priority.
pub open spec fn relax(
    m: FrontierModel,
    grid: &WasmGameMap,
    current: u32,
    target: u32,
    neighbor: u32,
) -> FrontierModel {
    let tentative = spec_tentative(m.score[current], grid.spec_cost(neighbor));
    if neighbor != target && !grid.water().contains(neighbor) {
        m
    } else if m.score.contains_key(neighbor) && tentative >= m.score[neighbor] {
        m
    } else {
        FrontierModel {
            open: m.open.insert(
                neighbor,
                spec_priority(tentative + spec_heuristic(grid, neighbor, target)),
            ),
            score: m.score.insert(neighbor, tentative),
            parent: m.parent.insert(neighbor, current),
        }
    }
}

/// What relaxing the steps from `current` to each of `neighbors`, in order,
/// makes of a frontier.
pub open spec fn relax_all(
    m: FrontierModel,
    grid: &WasmGameMap,
    current: u32,
    target: u32,
    neighbors: Seq<u32>,
) -> FrontierModel
    decreases neighbors.len(),
{
    if neighbors.len() == 0 {
        m
    } else {
        relax(
            relax_all(m, grid, current, target, neighbors.drop_last()),
            grid,
            current,
            target,
            neighbors.last(),
        )
    }
}

/// What expanding `current` makes of a frontier: the steps to its
/// neighbours on the grid are relaxed in the grid's order.
pub open spec fn spec_expand(
    m: FrontierModel,
    grid: &WasmGameMap,
    current: u32,
    target: u32,
) -> FrontierModel {
    relax_all(m, grid, current, target, grid.spec_neighbors(current))
}

/// The tile that a walk from `start` along `trail` leaves to arrive at
/// `trail[i]`: `start` itself for the first tile of the trail, else the tile
/// before.
pub open spec fn trail_from(start: u32, trail: Seq<u32>, i: int) -> u32 {
    if i == 0 {
        start
    } else {
        trail[i - 1]
    }
}

/// Whether `trail` lists the tiles met when walking from `start` from
/// parent to parent until a tile without a parent: first the parent of
/// `start`, last the tile without a parent. It is empty when `start` has no
/// parent.
pub open spec fn is_trail(parent: Map<u32, u32>, start: u32, trail: Seq<u32>) -> bool {
    &&& forall|i: int|
        0 <= i < trail.len() ==> parent.contains_key(#[trigger] trail_from(start, trail, i))
            && trail[i] == parent[trail_from(start, trail, i)]
    &&& !parent.contains_key(trail_from(start, trail, trail.len() as int))
}

/// One direction of a search.
pub struct Frontier {
    open_set: OpenSet,
    came_from: HashMap<u32, u32>,
    g_score: HashMap<u32, u64>,
    /// For each tile reached, the count of changes at which its cost was
    /// last set.
    stamp: Ghost<Map<u32, nat>>,
    /// The count of changes made so far.
    clock: Ghost<nat>,
}

impl View for Frontier {
    type V = FrontierModel;

    closed spec fn view(&self) -> FrontierModel {
        FrontierModel {
            open: open_set_entries(self.open_set),
            score: self.g_score@,
            parent: self.came_from@,
        }
    }
}

impl Frontier {
    /// A tile comes after its parent: it costs more, or as much and was set
    /// later. So no walk from parent to parent comes back to where it was.
    pub closed spec fn ranked(&self) -> bool {
        &&& forall|v: u32| #[trigger]
            self.g_score@.contains_key(v) ==> self.stamp@.contains_key(v) && self.stamp@[v]
                < self.clock@
        &&& forall|v: u32| #[trigger]
            self.came_from@.contains_key(v) ==> self.after(v, self.came_from@[v])
    }

    spec fn after(&self, v: u32, p: u32) -> bool {
        self.g_score@[v] > self.g_score@[p] || (self.g_score@[v] == self.g_score@[p]
            && self.stamp@[v] > self.stamp@[p])
    }

    /// What holds of a frontier that searches `grid` towards `target`,
    /// whatever it has visited so far.
    #[verifier::opaque]
    pub open spec fn wf(&self, grid: &WasmGameMap, target: u32) -> bool {
        &&& self.ranked()
        &&& forall|v: u32| #[trigger] self@.score.contains_key(v) ==> grid.contains(v)
        &&& forall|v: u32| #[trigger]
            self@.parent.contains_key(v) ==> {
                &&& self@.score.contains_key(v)
                &&& self@.score.contains_key(self@.parent[v])
                &&& grid.adjacent(self@.parent[v], v)
                &&& (v == target || grid.water().contains(v))
            }
        &&& forall|v: u32| #[trigger]
            self@.open.contains_key(v) ==> {
                &&& self@.score.contains_key(v)
                &&& self@.open[v] == spec_priority(self@.score[v] + spec_heuristic(grid, v, target))
            }
    }

    /// Whether every tile that was reached and has no parent is one of
    /// `roots`.
    pub open spec fn rooted(&self, roots: Set<u32>) -> bool {
        forall|v: u32| #[trigger]
            self@.score.contains_key(v) && !self@.parent.contains_key(v) ==> roots.contains(v)
    }

    /// Whether this frontier has kept what `before` had reached: every tile
    /// reached then is reached now, at no higher cost, and a tile without a
    /// parent now was reached without one then.
    pub open spec fn extends(&self, before: &Frontier) -> bool {
        &&& forall|v: u32| #[trigger]
            before@.score.contains_key(v) ==> self@.score.contains_key(v) && self@.score[v]
                <= before@.score[v]
        &&& forall|v: u32|
            self@.score.contains_key(v) && !(#[trigger] self@.parent.contains_key(v))
                ==> before@.score.contains_key(v) && !before@.parent.contains_key(v)
    }

    /// Whether every tile with a parent now had that parent in `before`, or
    /// has `current` for its parent.
    pub open spec fn adopts(&self, before: &Frontier, current: u32) -> bool {
        forall|v: u32| #[trigger]
            self@.parent.contains_key(v) ==> self@.parent[v] == current || (
            before@.parent.contains_key(v) && self@.parent[v] == before@.parent[v])
    }

    /// In a well-formed frontier the parent of a tile was reached.
    pub proof fn lemma_parent_reached(&self, grid: &WasmGameMap, target: u32, tile: u32)
        requires
            self.wf(grid, target),
            self@.parent.contains_key(tile),
        ensures
            self@.score.contains_key(self@.parent[tile]),
    {
        reveal(Frontier::wf);
    }

    /// In a well-formed frontier a tile comes after its parent.
    pub proof fn lemma_wf_ranked(&self, grid: &WasmGameMap, target: u32)
        requires
            self.wf(grid, target),
        ensures
            self.ranked(),
    {
        reveal(Frontier::wf);
    }

    /// Every tile that a well-formed frontier has reached lies on the grid.
    pub proof fn lemma_reached_on_grid(&self, grid: &WasmGameMap, target: u32, tile: u32)
        requires
            self.wf(grid, target),
            self@.score.contains_key(tile),
        ensures
            grid.contains(tile),
    {
        reveal(Frontier::wf);
    }

    /// To extend what extends a third frontier is to extend that one.
    pub proof fn lemma_extends_chain(&self, middle: &Frontier, before: &Frontier)
        requires
            self.extends(middle),
            middle.extends(before),
        ensures
            self.extends(before),
    {
    }

    /// A frontier that extends a rooted one is rooted.
    pub proof fn lemma_extends_rooted(&self, before: &Frontier, roots: Set<u32>)
        requires
            self.extends(before),
            before.rooted(roots),
        ensures
            self.rooted(roots),
    {
    }

    /// A frontier that has reached nothing.
    pub fn new() -> (f: Frontier)
        ensures
            f@.open == Map::<u32, u64>::empty(),
            f@.score == Map::<u32, u64>::empty(),
            f@.parent == Map::<u32, u32>::empty(),
            forall|grid: &WasmGameMap, target: u32| f.wf(grid, target),
    {
        let f = Frontier {
            open_set: open_set_new(),
            came_from: HashMap::new(),
            g_score: HashMap::new(),
            stamp: Ghost(Map::empty()),
            clock: Ghost(0),
        };
        proof {
            reveal(Frontier::wf);
        }
        f
    }

    /// Makes `tile` a starting point: reached at no cost, without a parent,
    /// and queued under its heuristic.
    pub fn seed(&mut self, grid: &WasmGameMap, tile: u32, target: u32)
        requires
            grid.wf(),
            grid.contains(tile),
            grid.contains(target),
            old(self).wf(grid, target),
            old(self)@.parent == Map::<u32, u32>::empty(),
        ensures
            final(self).wf(grid, target),
            final(self)@.parent == old(self)@.parent,
            final(self)@.score == old(self)@.score.insert(tile, 0),
            final(self)@.open == old(self)@.open.insert(
                tile,
                spec_priority(spec_heuristic(grid, tile, target)),
            ),
    {
        self.g_score.insert(tile, 0);
        let h = heuristic(grid, tile, target);
        open_set_push(&mut self.open_set, tile, priority(0, h));
        proof {
            reveal(Frontier::wf);
            self.stamp@ = self.stamp@.insert(tile, self.clock@);
            self.clock@ = self.clock@ + 1;
            assert(self@.score == old(self)@.score.insert(tile, 0));
            assert(self@.open == old(self)@.open.insert(tile, spec_priority(0 + h)));
            assert(self@.parent == old(self)@.parent);
            assert(self.ranked());
            assert(self.wf(grid, target));
        }
    }

    /// Whether no tile waits to be visited.
    pub fn is_empty(&self) -> (r: bool)
        ensures
            r == (forall|k: u32| !self@.open.contains_key(k)),
    {
        let r = open_set_is_empty(&self.open_set);
        assert(self@.open == open_set_entries(self.open_set));
        assert(r == (forall|k: u32| !open_set_entries(self.open_set).contains_key(k)));
        assert(r == (forall|k: u32| !self@.open.contains_key(k)));
        r
    }

    /// Whether `tile` was reached.
    pub fn knows(&self, tile: u32) -> (r: bool)
        ensures
            r == self@.score.contains_key(tile),
    {
        self.g_score.contains_key(&tile)
    }

    /// Takes a tile of the lowest priority out of the queue, if the queue
    /// holds any. Costs and parents stay as they are.
    pub fn pop(&mut self) -> (r: Option<u32>)
        ensures
            forall|grid: &WasmGameMap, target: u32| #[trigger]
                old(self).wf(grid, target) ==> final(self).wf(grid, target) && (r matches Some(
                    tile,
                ) ==> final(self)@.score.contains_key(tile)),
            final(self)@.score == old(self)@.score,
            final(self)@.parent == old(self)@.parent,
            match r {
                None => {
                    &&& forall|k: u32| !old(self)@.open.contains_key(k)
                    &&& final(self)@.open == old(self)@.open
                },
                Some(tile) => {
                    &&& old(self)@.open.contains_key(tile)
                    &&& forall|k: u32| #[trigger]
                        old(self)@.open.contains_key(k) ==> old(self)@.open[tile] <= old(
                            self)@.open[k]
                    &&& final(self)@.open == old(self)@.open.remove(tile)
                },
            },
    {
        let popped = open_set_pop(&mut self.open_set);
        proof {
            assert(self@.score == old(self)@.score);
            assert(self@.parent == old(self)@.parent);
            assert(self@.open == open_set_entries(self.open_set));
            assert(old(self)@.open == open_set_entries(old(self).open_set));
            assert(self.ranked() == old(self).ranked());
            assert forall|grid: &WasmGameMap, target: u32| #[trigger]
                old(self).wf(grid, target) implies self.wf(grid, target) && (popped matches Some(
                (tile, _)) ==> self@.score.contains_key(tile)) by {
                reveal(Frontier::wf);
                assert forall|v: u32| #[trigger] self@.open.contains_key(v) implies old(
                    self)@.open.contains_key(v) && self@.open[v] == old(self)@.open[v] by {}
            }
        }
        match popped {
            Some((tile, _)) => Some(tile),
            None => None,
        }
    }

    /// Relaxes the step from `current`, which was reached, to `neighbor`
    /// next to it.
    pub fn relax_step(&mut self, grid: &WasmGameMap, current: u32, target: u32, neighbor: u32)
        requires
            grid.wf(),
            grid.contains(target),
            grid.adjacent(current, neighbor),
            old(self).wf(grid, target),
            old(self)@.score.contains_key(current),
        ensures
            final(self).wf(grid, target),
            final(self)@ == relax(old(self)@, grid, current, target, neighbor),
            final(self).extends(old(self)),
            final(self).adopts(old(self), current),
    {
        proof {
            reveal(Frontier::wf);
        }
        if neighbor != target && !grid.is_water(neighbor) {
            return ;
        }
        let current_g = *self.g_score.get(&current).unwrap();
        let tentative = current_g.saturating_add(grid.cost(neighbor) as u64);
        let improves = match self.g_score.get(&neighbor) {
            Some(known) => tentative < *known,
            None => true,
        };
        if improves {
            self.came_from.insert(neighbor, current);
            self.g_score.insert(neighbor, tentative);
            let h = heuristic(grid, neighbor, target);
            open_set_push(&mut self.open_set, neighbor, priority(tentative, h));
            proof {
                self.stamp@ = self.stamp@.insert(neighbor, self.clock@);
                self.clock@ = self.clock@ + 1;
                let before = old(self)@;
                assert(before.open == open_set_entries(old(self).open_set));
                assert(self@.open == before.open.insert(neighbor, spec_priority(tentative + h)));
                assert(self@.score == before.score.insert(neighbor, tentative));
                assert(self@.parent == before.parent.insert(neighbor, current));
                assert(tentative == spec_tentative(
                    before.score[current],
                    grid.spec_cost(neighbor),
                ));
                assert(self@ == relax(before, grid, current, target, neighbor));
                assert(current != neighbor);
                assert forall|v: u32| #[trigger] self.came_from@.contains_key(v) implies self.after(
                    v,
                    self.came_from@[v],
                ) by {
                    if v != neighbor {
                        assert(old(self).came_from@.contains_key(v));
                        assert(old(self).after(v, old(self).came_from@[v]));
                        assert(before.parent.contains_key(v));
                    }
                }
                assert(self.ranked());
                assert forall|v: u32| #[trigger] self@.parent.contains_key(v) implies {
                    &&& self@.score.contains_key(v)
                    &&& self@.score.contains_key(self@.parent[v])
                    &&& grid.adjacent(self@.parent[v], v)
                    &&& (v == target || grid.water().contains(v))
                } by {
                    if v != neighbor {
                        assert(before.parent.contains_key(v));
                    }
                }
                assert forall|v: u32| #[trigger] self@.open.contains_key(v) implies {
                    &&& self@.score.contains_key(v)
                    &&& self@.open[v] == spec_priority(
                        self@.score[v] + spec_heuristic(grid, v, target),
                    )
                } by {
                    if v != neighbor {
                        assert(before.open.contains_key(v));
                    }
                }
                assert(self.wf(grid, target));
            }
        } else {
            proof {
                assert(self@ == relax(old(self)@, grid, current, target, neighbor));
            }
        }
    }

    /// Expands `current`, which was reached: relaxes the steps to its
    /// neighbours on the grid, in the grid's order.
    pub fn expand(&mut self, grid: &WasmGameMap, current: u32, target: u32)
        requires
            grid.wf(),
            grid.contains(target),
            old(self).wf(grid, target),
            old(self)@.score.contains_key(current),
        ensures
            final(self).wf(grid, target),
            final(self)@ == spec_expand(old(self)@, grid, current, target),
            final(self).extends(old(self)),
            final(self).adopts(old(self), current),
    {
        proof {
            assert(grid.contains(current)) by {
                reveal(Frontier::wf);
            }
            grid.lemma_point_of_tile(current);
        }
        let neighbors = grid.neighbors(current);
        let mut i: usize = 0;
        while i < neighbors.len()
            invariant
                i <= neighbors.len(),
                grid.wf(),
                grid.contains(target),
                neighbors@ == grid.spec_neighbors(current),
                forall|j: int|
                    0 <= j < neighbors@.len() ==> grid.adjacent(current, #[trigger] neighbors@[j]),
                self.wf(grid, target),
                self.extends(old(self)),
                self.adopts(old(self), current),
                old(self)@.score.contains_key(current),
                self@ == relax_all(old(self)@, grid, current, target, neighbors@.take(i as int)),
            decreases neighbors.len() - i,
        {
            let neighbor = neighbors[i];
            self.relax_step(grid, current, target, neighbor);
            proof {
                assert(neighbors@.take(i + 1).drop_last() == neighbors@.take(i as int));
            }
            i += 1;
        }
        proof {
            assert(neighbors@.take(neighbors.len() as int) == neighbors@);
        }
    }

    /// The tiles met when walking from `start` from parent to parent until a
    /// tile without a parent.
    pub open spec fn spec_trail(&self, start: u32) -> Seq<u32> {
        choose|trail: Seq<u32>| is_trail(self@.parent, start, trail)
    }

    /// Walks from `start` from parent to parent until a tile without a
    /// parent and puts each tile met in front of `path`, so that the tile
    /// met last comes first.
    pub fn prepend_trail(&self, path: &mut Vec<u32>, start: u32)
        requires
            self.ranked(),
        ensures
            final(path)@ == self.spec_trail(start).reverse() + old(path)@,
            is_trail(self@.parent, start, self.spec_trail(start)),
    {
        let mut current = start;
        let ghost mut walked: Seq<u32> = Seq::empty();
        loop
            invariant
                self.ranked(),
                forall|i: int|
                    0 <= i < walked.len() ==> self@.parent.contains_key(
                        #[trigger] trail_from(start, walked, i),
                    ) && walked[i] == self@.parent[trail_from(start, walked, i)],
                current == trail_from(start, walked, walked.len() as int),
                path@ == walked.reverse() + old(path)@,
            ensures
                !self@.parent.contains_key(current),
            decreases self.g_score@[current], self.stamp@[current],
        {
            let prev = match self.came_from.get(&current) {
                Some(prev) => *prev,
                None => {
                    break ;
                },
            };
            proof {
                assert(self.came_from@.contains_key(current));
                assert(self.after(current, prev));
                assert(walked.push(prev).reverse() + old(path)@ == seq![prev] + (walked.reverse()
                    + old(path)@));
            }
            path.insert(0, prev);
            proof {
                assert(path@ == seq![prev] + (walked.reverse() + old(path)@));
                let longer = walked.push(prev);
                assert forall|i: int| 0 <= i < longer.len() implies self@.parent.contains_key(
                    #[trigger] trail_from(start, longer, i),
                ) && longer[i] == self@.parent[trail_from(start, longer, i)] by {
                    if i < walked.len() {
                        assert(trail_from(start, longer, i) == trail_from(start, walked, i));
                    }
                }
                walked = longer;
            }
            current = prev;
        }
        proof {
            assert(is_trail(self@.parent, start, walked));
            lemma_trail_unique(self@.parent, start, walked, self.spec_trail(start));
        }
    }

    /// Walks from `start` from parent to parent until a tile without a
    /// parent and puts each tile met at the end of `path`.
    pub fn append_trail(&self, path: &mut Vec<u32>, start: u32)
        requires
            self.ranked(),
        ensures
            final(path)@ == old(path)@ + self.spec_trail(start),
            is_trail(self@.parent, start, self.spec_trail(start)),
    {
        let mut current = start;
        let ghost mut walked: Seq<u32> = Seq::empty();
        loop
            invariant
                self.ranked(),
                forall|i: int|
                    0 <= i < walked.len() ==> self@.parent.contains_key(
                        #[trigger] trail_from(start, walked, i),
                    ) && walked[i] == self@.parent[trail_from(start, walked, i)],
                current == trail_from(start, walked, walked.len() as int),
                path@ == old(path)@ + walked,
            ensures
                !self@.parent.contains_key(current),
            decreases self.g_score@[current], self.stamp@[current],
        {
            let next = match self.came_from.get(&current) {
                Some(next) => *next,
                None => {
                    break ;
                },
            };
            proof {
                assert(self.came_from@.contains_key(current));
                assert(self.after(current, next));
                assert(old(path)@ + walked.push(next) == (old(path)@ + walked).push(next));
            }
            path.push(next);
            proof {
                let longer = walked.push(next);
                assert forall|i: int| 0 <= i < longer.len() implies self@.parent.contains_key(
                    #[trigger] trail_from(start, longer, i),
                ) && longer[i] == self@.parent[trail_from(start, longer, i)] by {
                    if i < walked.len() {
                        assert(trail_from(start, longer, i) == trail_from(start, walked, i));
                    }
                }
                walked = longer;
            }
            current = next;
        }
        proof {
            assert(is_trail(self@.parent, start, walked));
            lemma_trail_unique(self@.parent, start, walked, self.spec_trail(start));
        }
    }

    /// From every tile a walk from parent to parent ends.
    proof fn lemma_trail_exists(&self, start: u32)
        requires
            self.ranked(),
        ensures
            is_trail(self@.parent, start, self.spec_trail(start)),
        decreases self.g_score@[start], self.stamp@[start],
    {
        if self@.parent.contains_key(start) {
            let p = self@.parent[start];
            assert(self.came_from@.contains_key(start));
            assert(self.after(start, p));
            self.lemma_trail_exists(p);
            let rest = self.spec_trail(p);
            let trail = seq![p] + rest;
            assert forall|i: int| 0 <= i < trail.len() implies self@.parent.contains_key(
                #[trigger] trail_from(start, trail, i),
            ) && trail[i] == self@.parent[trail_from(start, trail, i)] by {
                if i > 0 {
                    assert(trail[i] == rest[i - 1]);
                    assert(trail_from(start, trail, i) == trail_from(p, rest, i - 1));
                }
            }
            assert(trail_from(start, trail, trail.len() as int) == trail_from(
                p,
                rest,
                rest.len() as int,
            ));
            assert(is_trail(self@.parent, start, trail));
        } else {
            assert(is_trail(self@.parent, start, Seq::<u32>::empty()));
        }
    }

    /// Along a walk from parent to parent every tile comes before the tile
    /// that the walk left `i` steps in, for each tile met at or after that
    /// step.
    proof fn lemma_trail_descends(&self, start: u32, trail: Seq<u32>, i: int, j: int)
        requires
            self.ranked(),
            is_trail(self@.parent, start, trail),
            0 <= i <= j < trail.len(),
        ensures
            self.after(trail_from(start, trail, i), trail[j]),
        decreases j - i,
    {
        assert(self@.parent.contains_key(trail_from(start, trail, j)));
        assert(self.came_from@.contains_key(trail_from(start, trail, j)));
        assert(self.after(trail_from(start, trail, j), trail[j]));
        if i < j {
            self.lemma_trail_descends(start, trail, i, j - 1);
            assert(trail_from(start, trail, j) == trail[j - 1]);
        }
    }

    /// A walk from parent to parent meets no tile twice and does not come
    /// back to where it started. Each tile on it is the parent of a tile.
    pub proof fn lemma_trail_has_no_duplicates(&self, grid: &WasmGameMap, target: u32, start: u32)
        requires
            self.wf(grid, target),
        ensures
            is_trail(self@.parent, start, self.spec_trail(start)),
            self.spec_trail(start).no_duplicates(),
            !self.spec_trail(start).contains(start),
    {
        self.lemma_wf_ranked(grid, target);
        self.lemma_trail_exists(start);
        let trail = self.spec_trail(start);
        assert forall|i: int, j: int|
            0 <= i < trail.len() && 0 <= j < trail.len() && i != j implies trail[i]
            != trail[j] by {
            if i < j {
                self.lemma_trail_descends(start, trail, i + 1, j);
            } else {
                self.lemma_trail_descends(start, trail, j + 1, i);
            }
        }
        assert forall|j: int| 0 <= j < trail.len() implies trail[j] != start by {
            self.lemma_trail_descends(start, trail, 0, j);
        }
    }

    /// What the walk from a reached tile is made of. Each tile on it was
    /// reached and lies next to the tile that the walk leaves for it, and
    /// that tile is the target or navigable. The walk ends on one of the
    /// roots.
    pub proof fn lemma_trail_is_walk(
        &self,
        grid: &WasmGameMap,
        target: u32,
        roots: Set<u32>,
        start: u32,
    )
        requires
            self.wf(grid, target),
            self.rooted(roots),
            self@.score.contains_key(start),
        ensures
            is_trail(self@.parent, start, self.spec_trail(start)),
            forall|i: int|
                0 <= i < self.spec_trail(start).len() ==> self@.score.contains_key(
                    #[trigger] self.spec_trail(start)[i],
                ),
            forall|i: int|
                0 <= i < self.spec_trail(start).len() ==> grid.adjacent(
                    self.spec_trail(start)[i],
                    #[trigger] trail_from(start, self.spec_trail(start), i),
                ),
            forall|i: int|
                0 <= i < self.spec_trail(start).len() ==> {
                    ||| #[trigger] trail_from(start, self.spec_trail(start), i) == target
                    ||| grid.water().contains(trail_from(start, self.spec_trail(start), i))
                },
            roots.contains(
                trail_from(start, self.spec_trail(start), self.spec_trail(start).len() as int),
            ),
    {
        reveal(Frontier::wf);
        self.lemma_trail_exists(start);
        let trail = self.spec_trail(start);
        assert forall|i: int| 0 <= i < trail.len() implies self@.score.contains_key(
            #[trigger] trail[i],
        ) by {
            assert(self@.parent.contains_key(trail_from(start, trail, i)));
        }
        if trail.len() > 0 {
            let i = trail.len() - 1;
            assert(self@.score.contains_key(trail[i]));
        }
    }
}

/// A walk from parent to parent is determined by where it starts.
pub proof fn lemma_trail_unique(parent: Map<u32, u32>, start: u32, a: Seq<u32>, b: Seq<u32>)
    requires
        is_trail(parent, start, a),
    ensures
        is_trail(parent, start, b) ==> a == b,
{
    if is_trail(parent, start, b) {
        if a.len() <= b.len() {
            lemma_trail_agree(parent, start, a, b, a.len() as int);
        } else {
            lemma_trail_agree(parent, start, b, a, b.len() as int);
        }
        assert(a =~= b);
    }
}

proof fn lemma_trail_agree(parent: Map<u32, u32>, start: u32, a: Seq<u32>, b: Seq<u32>, n: int)
    requires
        is_trail(parent, start, a),
        is_trail(parent, start, b),
        a.len() <= b.len(),
        0 <= n <= a.len(),
    ensures
        forall|i: int| 0 <= i < n ==> a[i] == b[i],
        n == a.len() ==> a.len() == b.len(),
    decreases n,
{
    if n > 0 {
        lemma_trail_agree(parent, start, a, b, n - 1);
        assert(trail_from(start, a, n - 1) == trail_from(start, b, n - 1));
    }
    if n == a.len() && a.len() < b.len() {
        assert(trail_from(start, a, n) == trail_from(start, b, n));
    }
}

} // verus!
