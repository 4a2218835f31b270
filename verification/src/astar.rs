//! The bidirectional search: one frontier grows from the sources towards
//! the destination, one from the destination towards the source closest to
//! it, and the search is complete when a tile taken from one frontier has
//! been reached by the other.
//!
//! The search works in slices. Each call of
//! [`SerialAStarWasm::compute`] does a bounded number of rounds and says
//! whether the search is complete, has to be called again, or has failed.
use crate::frontier::heuristic;
use crate::frontier::spec_expand;
use crate::frontier::spec_heuristic;
use crate::frontier::spec_priority;
use crate::frontier::trail_from;
use crate::frontier::Frontier;
use crate::frontier::FrontierModel;
use crate::grid::WasmGameMap;
use crate::outcome::PathFindResultType;
use vstd::prelude::*;

verus! {

/// Among the first `n` of `sources`, the index of the first one whose
/// heuristic to `dst` is the least.
pub open spec fn closest_index(grid: &WasmGameMap, sources: Seq<u32>, dst: u32, n: int) -> int
    decreases n,
{
    if n <= 1 {
        0
    } else {
        let best = closest_index(grid, sources, dst, n - 1);
        if spec_heuristic(grid, sources[n - 1], dst) < spec_heuristic(grid, sources[best], dst) {
            n - 1
        } else {
            best
        }
    }
}

/// The source closest to `dst` by the heuristic, the first of them where
/// several are as close.
pub open spec fn spec_closest(grid: &WasmGameMap, sources: Seq<u32>, dst: u32) -> u32 {
    sources[closest_index(grid, sources, dst, sources.len() as int)]
}

/// The costs that a search starts with on the sources' side: each source is
/// reached at no cost.
pub open spec fn seeded_scores(sources: Seq<u32>) -> Map<u32, u64> {
    Map::new(|t: u32| sources.contains(t), |t: u32| 0u64)
}

/// The queue that a search starts with on the sources' side: each source
/// waits under its heuristic to `dst`.
pub open spec fn seeded_open(grid: &WasmGameMap, sources: Seq<u32>, dst: u32) -> Map<u32, u64> {
    Map::new(
        |t: u32| sources.contains(t),
        |t: u32| spec_priority(spec_heuristic(grid, t, dst)),
    )
}

/// The state in which a search from `sources` to `dst` starts. On the
/// forward side each source is reached at no cost and waits under its
/// heuristic to `dst`; on the backward side `dst` is reached at no cost and
/// waits under its heuristic to the closest source. No tile has a parent, the
/// frontiers have not met, and the budget of calls is whole.
pub open spec fn spec_start(
    grid: &WasmGameMap,
    sources: Seq<u32>,
    dst: u32,
    max_tries: i32,
) -> SearchModel {
    SearchModel {
        forward: FrontierModel {
            open: seeded_open(grid, sources, dst),
            score: seeded_scores(sources),
            parent: Map::empty(),
        },
        backward: FrontierModel {
            open: seeded_open(grid, seq![dst], spec_closest(grid, sources, dst)),
            score: seeded_scores(seq![dst]),
            parent: Map::empty(),
        },
        meeting_point: None,
        completed: false,
        tries_left: max_tries,
    }
}

/// The budget of calls after one more call: one less, and no less than
/// `i32::MIN`.
pub open spec fn spec_spend(tries: i32) -> i32 {
    if tries > i32::MIN {
        (tries - 1) as i32
    } else {
        tries
    }
}

/// Whether each tile of `path` lies next to the one before it.
pub open spec fn is_walk(grid: &WasmGameMap, path: Seq<u32>) -> bool {
    forall|i: int, j: int|
        0 <= i && j == i + 1 && j < path.len() ==> grid.adjacent(
            #[trigger] path[i],
            #[trigger] path[j],
        )
}

/// The path through `meeting` that two walks from it make: the first walk
/// backwards, then `meeting`, then the second walk.
pub open spec fn joined(meeting: u32, first: Seq<u32>, second: Seq<u32>) -> Seq<u32> {
    first.reverse() + seq![meeting] + second
}

/// Whether `tile` may be the next to leave the queue `open`: it waits there
/// and no tile waits under a lower priority.
pub open spec fn takes(open: Map<u32, u64>, tile: u32) -> bool {
    open.contains_key(tile) && forall|k: u32| #[trigger]
        open.contains_key(k) ==> open[tile] <= open[k]
}

/// The rounds that one call of `compute` may do with a budget of
/// `iterations`: as many as the budget says, and none where it is not
/// positive.
pub open spec fn rounds_budget(iterations: i32) -> int {
    if iterations <= 0 {
        0
    } else {
        iterations as int
    }
}

/// The state of a search, as plain values.
pub struct SearchModel {
    /// The frontier that grows from the sources.
    pub forward: FrontierModel,
    /// The frontier that grows from the destination.
    pub backward: FrontierModel,
    /// The tile at which the frontiers met, once they have.
    pub meeting_point: Option<u32>,
    /// Whether the frontiers have met.
    pub completed: bool,
    /// The budget of calls of `compute` that is left.
    pub tries_left: i32,
}

impl SearchModel {
    /// The forward frontier, or the backward one.
    pub open spec fn side(self, is_forward: bool) -> FrontierModel {
        if is_forward {
            self.forward
        } else {
            self.backward
        }
    }

    /// Whether both frontiers have tiles waiting.
    pub open spec fn has_work(self) -> bool {
        !(self.forward.open.dom() =~= Set::empty()) && !(self.backward.open.dom()
            =~= Set::empty())
    }

    /// The state after a call of `compute` has been counted.
    pub open spec fn spent(self) -> SearchModel {
        SearchModel { tries_left: spec_spend(self.tries_left), ..self }
    }

    /// The state after `tile` has left the forward frontier's queue, or the
    /// backward one's.
    pub open spec fn take(self, tile: u32, is_forward: bool) -> SearchModel {
        if is_forward {
            SearchModel {
                forward: FrontierModel { open: self.forward.open.remove(tile), ..self.forward },
                ..self
            }
        } else {
            SearchModel {
                backward: FrontierModel { open: self.backward.open.remove(tile), ..self.backward },
                ..self
            }
        }
    }
}

/// A search for a path from one of several sources to a destination.
pub struct SerialAStarWasm {
    fwd: Frontier,
    bwd: Frontier,
    meeting_point: Option<u32>,
    completed: bool,
    sources: Vec<u32>,
    closest_source: u32,
    dst: u32,
    iterations: i32,
    max_tries: i32,
    game_map: WasmGameMap,
}

impl View for SerialAStarWasm {
    type V = SearchModel;

    open spec fn view(&self) -> SearchModel {
        SearchModel {
            forward: self.forward()@,
            backward: self.backward()@,
            meeting_point: self.meeting_point(),
            completed: self.completed(),
            tries_left: self.tries_left(),
        }
    }
}

impl SerialAStarWasm {
    /// The frontier that grows from the sources.
    pub closed spec fn forward(&self) -> Frontier {
        self.fwd
    }

    /// The frontier that grows from the destination.
    pub closed spec fn backward(&self) -> Frontier {
        self.bwd
    }

    /// The tile at which the frontiers met, once they have.
    pub closed spec fn meeting_point(&self) -> Option<u32> {
        self.meeting_point
    }

    /// Whether the frontiers have met.
    pub closed spec fn completed(&self) -> bool {
        self.completed
    }

    /// The tiles the path may start from.
    pub closed spec fn sources(&self) -> Seq<u32> {
        self.sources@
    }

    /// The source that the backward frontier heads for.
    pub closed spec fn closest_source(&self) -> u32 {
        self.closest_source
    }

    /// The tile the path ends on.
    pub closed spec fn destination(&self) -> u32 {
        self.dst
    }

    /// The budget of rounds for one call of `compute`.
    pub closed spec fn iterations(&self) -> i32 {
        self.iterations
    }

    /// The budget of calls of `compute` that is left.
    pub closed spec fn tries_left(&self) -> i32 {
        self.max_tries
    }

    /// The grid that is searched.
    pub closed spec fn grid(&self) -> WasmGameMap {
        self.game_map
    }

    /// Whether no tile is a parent on both sides. A tile becomes a parent
    /// when it is expanded, and it is expanded on one side only while the
    /// other side has not reached it.
    pub open spec fn parents_apart(&self) -> bool {
        forall|a: u32, b: u32|
            #![trigger self.forward()@.parent[a], self.backward()@.parent[b]]
            self.forward()@.parent.contains_key(a) && self.backward()@.parent.contains_key(b)
                ==> self.forward()@.parent[a] != self.backward()@.parent[b]
    }

    /// What holds of every search, whatever it has done so far.
    pub open spec fn wf(&self) -> bool {
        &&& self.grid().wf()
        &&& self.sources().len() > 0
        &&& forall|i: int|
            0 <= i < self.sources().len() ==> self.grid().contains(#[trigger] self.sources()[i])
        &&& self.grid().contains(self.destination())
        &&& self.closest_source() == spec_closest(
            &self.grid(),
            self.sources(),
            self.destination(),
        )
        &&& self.forward().wf(&self.grid(), self.destination())
        &&& self.forward().rooted(self.sources().to_set())
        &&& self.backward().wf(&self.grid(), self.closest_source())
        &&& self.backward().rooted(set![self.destination()])
        &&& self.parents_apart()
        &&& self.completed() == (self.meeting_point() is Some)
        &&& match self.meeting_point() {
            Some(m) => self.forward()@.score.contains_key(m) && self.backward()@.score.contains_key(
                m,
            ),
            None => true,
        }
    }

    /// Whether this search is after the same path as `other`: same grid,
    /// sources, destination and budget of rounds.
    pub open spec fn same_problem(&self, other: &SerialAStarWasm) -> bool {
        &&& self.grid() == other.grid()
        &&& self.sources() == other.sources()
        &&& self.closest_source() == other.closest_source()
        &&& self.destination() == other.destination()
        &&& self.iterations() == other.iterations()
    }

    /// What expanding `tile` on the forward side, or on the backward one,
    /// makes of the state `m` of this search: the steps from the tile to its
    /// neighbours are relaxed towards that side's target, the destination for
    /// the forward frontier and the closest source for the backward one.
    pub open spec fn spec_expand_tile(
        &self,
        m: SearchModel,
        tile: u32,
        is_forward: bool,
    ) -> SearchModel {
        if is_forward {
            SearchModel {
                forward: spec_expand(m.forward, &self.grid(), tile, self.destination()),
                ..m
            }
        } else {
            SearchModel {
                backward: spec_expand(m.backward, &self.grid(), tile, self.closest_source()),
                ..m
            }
        }
    }

    /// What visiting `tile`, taken from the forward frontier or from the
    /// backward one, makes of the state `m` of this search: where the other
    /// frontier has reached the tile the frontiers meet there, else the tile
    /// is expanded on its own side.
    pub open spec fn spec_visit(&self, m: SearchModel, tile: u32, is_forward: bool) -> SearchModel {
        if m.side(!is_forward).score.contains_key(tile) {
            SearchModel { meeting_point: Some(tile), completed: true, ..m }
        } else {
            self.spec_expand_tile(m, tile, is_forward)
        }
    }

    /// What one round makes of the state `m` when `first` leaves the
    /// forward queue and `second` the backward one: `first` is visited, and
    /// unless the frontiers meet there `second` is visited too.
    pub open spec fn spec_round(&self, m: SearchModel, first: u32, second: u32) -> SearchModel {
        let mid = self.spec_visit(m.take(first, true), first, true);
        if mid.completed {
            mid
        } else {
            self.spec_visit(mid.take(second, false), second, false)
        }
    }

    /// Whether a round in state `m` may take `first` from the forward queue
    /// and `second` from the backward one. Where the frontiers meet on
    /// `first` nothing is taken from the backward queue and `second` does
    /// not matter.
    pub open spec fn round_allowed(&self, m: SearchModel, first: u32, second: u32) -> bool {
        &&& takes(m.forward.open, first)
        &&& self.spec_visit(m.take(first, true), first, true).completed || takes(
            m.backward.open,
            second,
        )
    }

    /// What the rounds that take the tiles of `picks`, one pair a round,
    /// make of the state `m`.
    pub open spec fn spec_run(&self, m: SearchModel, picks: Seq<(u32, u32)>) -> SearchModel
        decreases picks.len(),
    {
        if picks.len() == 0 {
            m
        } else {
            self.spec_round(self.spec_run(m, picks.drop_last()), picks.last().0, picks.last().1)
        }
    }

    /// Whether round `i` of the rounds that take `picks` is a round that
    /// `compute` may do: the search is not complete before it, both queues
    /// hold tiles, and the tiles taken are tiles that may leave the queues.
    pub open spec fn round_ok(&self, m: SearchModel, picks: Seq<(u32, u32)>, i: int) -> bool {
        let before = self.spec_run(m, picks.take(i));
        &&& !before.completed
        &&& before.has_work()
        &&& self.round_allowed(before, picks[i].0, picks[i].1)
    }

    /// Whether a call of `compute` on this search, not yet complete, may
    /// take the tiles of `picks`, one pair a round, and leave the state
    /// `after`. The call is counted, the rounds are done, and they end for
    /// one of three reasons: the frontiers have met, a queue is empty, or the
    /// budget of rounds is used up.
    pub open spec fn computes(&self, picks: Seq<(u32, u32)>, after: SearchModel) -> bool {
        &&& picks.len() <= rounds_budget(self.iterations())
        &&& forall|i: int|
            0 <= i < picks.len() ==> #[trigger] self.round_ok(self@.spent(), picks, i)
        &&& after == self.spec_run(self@.spent(), picks)
        &&& after.tries_left == spec_spend(self.tries_left())
        &&& after.completed || !after.has_work() || picks.len() == rounds_budget(self.iterations())
    }

    /// Whether this search is one that a call of `compute` on `before` can
    /// leave. A search that was complete is left as it was. Any other is
    /// left after rounds that `compute` may do (see `computes`), with every
    /// tile that was reached still reached, at no higher cost.
    pub open spec fn follows(&self, before: &SerialAStarWasm) -> bool {
        &&& self.wf()
        &&& self.same_problem(before)
        &&& self.forward().extends(&before.forward())
        &&& self.backward().extends(&before.backward())
        &&& before.completed() ==> *self == *before
        &&& !before.completed() ==> exists|picks: Seq<(u32, u32)>| #[trigger]
            before.computes(picks, self@)
    }

    /// What `compute` reports when it leaves the search in this state.
    pub open spec fn spec_outcome(&self) -> PathFindResultType {
        if self.completed() {
            PathFindResultType::Completed
        } else if !self@.has_work() {
            PathFindResultType::PathNotFound
        } else if self.tries_left() <= 0 {
            PathFindResultType::PathNotFound
        } else {
            PathFindResultType::Pending
        }
    }

    /// The path that the search has found: from a source along the forward
    /// frontier's parents to the meeting point, and on along the backward
    /// frontier's parents to the destination. Empty while the frontiers have
    /// not met.
    pub open spec fn spec_path(&self) -> Seq<u32> {
        match self.meeting_point() {
            Some(m) => joined(m, self.forward().spec_trail(m), self.backward().spec_trail(m)),
            None => Seq::empty(),
        }
    }

    /// A search from `sources` to `dst` on `game_map` that does up to
    /// `iterations` rounds in a call of `compute` and gives up after
    /// `max_tries` calls.
    pub fn new(
        sources: Vec<u32>,
        dst: u32,
        iterations: i32,
        max_tries: i32,
        game_map: WasmGameMap,
    ) -> (astar: SerialAStarWasm)
        requires
            game_map.wf(),
            sources.len() > 0,
            forall|i: int| 0 <= i < sources.len() ==> game_map.contains(#[trigger] sources[i]),
            game_map.contains(dst),
        ensures
            astar.wf(),
            astar.grid() == game_map,
            astar.sources() == sources@,
            astar.destination() == dst,
            astar.closest_source() == spec_closest(&game_map, sources@, dst),
            astar.iterations() == iterations,
            astar@ == spec_start(&game_map, sources@, dst, max_tries),
    {
        let mut min_dist: u64 = u64::MAX;
        let mut closest_src: u32 = sources[0];
        let mut i: usize = 0;
        while i < sources.len()
            invariant
                i <= sources.len(),
                sources.len() > 0,
                game_map.wf(),
                game_map.contains(dst),
                forall|j: int| 0 <= j < sources.len() ==> game_map.contains(#[trigger] sources[j]),
                i == 0 ==> min_dist == u64::MAX && closest_src == sources[0],
                i > 0 ==> closest_src == sources[closest_index(&game_map, sources@, dst, i as int)]
                    && min_dist == spec_heuristic(&game_map, closest_src, dst),
                0 <= closest_index(&game_map, sources@, dst, i as int) < sources.len(),
            decreases sources.len() - i,
        {
            let src = sources[i];
            let dist = heuristic(&game_map, src, dst);
            if dist < min_dist {
                min_dist = dist;
                closest_src = src;
            }
            i += 1;
        }
        let mut fwd = Frontier::new();
        let mut i: usize = 0;
        while i < sources.len()
            invariant
                i <= sources.len(),
                game_map.wf(),
                game_map.contains(dst),
                forall|j: int| 0 <= j < sources.len() ==> game_map.contains(#[trigger] sources[j]),
                fwd.wf(&game_map, dst),
                fwd@.parent == Map::<u32, u32>::empty(),
                fwd@.score == seeded_scores(sources@.take(i as int)),
                fwd@.open == seeded_open(&game_map, sources@.take(i as int), dst),
            decreases sources.len() - i,
        {
            let source = sources[i];
            fwd.seed(&game_map, source, dst);
            proof {
                let before = sources@.take(i as int);
                let after = sources@.take(i + 1);
                assert(after == before.push(source));
                assert forall|t: u32| after.contains(t) <==> before.contains(t) || t
                    == source by {
                    if before.contains(t) {
                        let j = choose|j: int| 0 <= j < before.len() && before[j] == t;
                        assert(after[j] == t);
                    }
                    if t == source {
                        assert(after[i as int] == t);
                    }
                }
                assert(fwd@.score =~= seeded_scores(after));
                assert(fwd@.open =~= seeded_open(&game_map, after, dst));
            }
            i += 1;
        }
        let mut bwd = Frontier::new();
        bwd.seed(&game_map, dst, closest_src);
        proof {
            assert(sources@.take(sources.len() as int) == sources@);
            assert forall|v: u32| #[trigger]
                fwd@.score.contains_key(v) && !fwd@.parent.contains_key(
                    v,
                ) implies sources@.to_set().contains(v) by {}
        }
        proof {
            let start = spec_start(&game_map, sources@, dst, max_tries);
            assert(seq![dst].contains(dst)) by {
                assert(seq![dst][0] == dst);
            }
            assert(bwd@.score =~= start.backward.score);
            assert(bwd@.open =~= start.backward.open);
            assert(fwd@.parent =~= start.forward.parent);
            assert(bwd@.parent =~= start.backward.parent);
        }
        SerialAStarWasm {
            fwd,
            bwd,
            meeting_point: None,
            completed: false,
            sources,
            closest_source: closest_src,
            dst,
            iterations,
            max_tries,
            game_map,
        }
    }

    /// The grid that is searched.
    pub fn game_map(&self) -> (grid: &WasmGameMap)
        ensures
            *grid == self.grid(),
    {
        &self.game_map
    }

    /// The heuristic from tile `a` to tile `b`: one and one tenth of a unit
    /// for each step between them, in thousandths of a unit.
    pub fn heuristic(&self, a: u32, b: u32) -> (h: u64)
        requires
            self.wf(),
            self.grid().contains(a),
            self.grid().contains(b),
        ensures
            h == spec_heuristic(&self.grid(), a, b),
    {
        heuristic(&self.game_map, a, b)
    }

    /// Expands `current`, a tile that the forward frontier has reached and
    /// the backward one has not, or the other way round: the steps from it
    /// to its neighbours are relaxed towards its frontier's target. The
    /// other frontier stays as it is.
    pub fn expand_tile_ref(&mut self, current: u32, is_forward: bool)
        requires
            old(self).wf(),
            old(self)@.side(is_forward).score.contains_key(current),
            !old(self)@.side(!is_forward).score.contains_key(current),
        ensures
            final(self).wf(),
            final(self).same_problem(old(self)),
            final(self).forward().extends(&old(self).forward()),
            final(self).backward().extends(&old(self).backward()),
            final(self)@ == old(self).spec_expand_tile(old(self)@, current, is_forward),
    {
        proof {
            lemma_closest_is_first_minimum(&self.game_map, self.sources@, self.dst);
        }
        if is_forward {
            self.fwd.expand(&self.game_map, current, self.dst);
            proof {
                self.fwd.lemma_extends_rooted(&old(self).fwd, self.sources@.to_set());
                assert forall|a: u32, b: u32|
                    #![trigger self.fwd@.parent[a], self.bwd@.parent[b]]
                    self.fwd@.parent.contains_key(a) && self.bwd@.parent.contains_key(
                        b,
                    ) implies self.fwd@.parent[a] != self.bwd@.parent[b] by {
                    self.bwd.lemma_parent_reached(&self.game_map, self.closest_source, b);
                    if self.fwd@.parent[a] != current {
                        assert(old(self).fwd@.parent[a] != old(self).bwd@.parent[b]);
                    }
                }
            }
        } else {
            self.bwd.expand(&self.game_map, current, self.closest_source);
            proof {
                self.bwd.lemma_extends_rooted(&old(self).bwd, set![self.dst]);
                assert forall|a: u32, b: u32|
                    #![trigger self.fwd@.parent[a], self.bwd@.parent[b]]
                    self.fwd@.parent.contains_key(a) && self.bwd@.parent.contains_key(
                        b,
                    ) implies self.fwd@.parent[a] != self.bwd@.parent[b] by {
                    self.fwd.lemma_parent_reached(&self.game_map, self.dst, a);
                    if self.bwd@.parent[b] != current {
                        assert(old(self).fwd@.parent[a] != old(self).bwd@.parent[b]);
                    }
                }
            }
        }
    }

    /// One slice of the search.
    ///
    /// A search that is complete stays as it is and reports `Completed`.
    /// Otherwise the call is counted against the budget of calls, and rounds
    /// follow while both frontiers have tiles waiting and the budget of
    /// rounds lasts: up to `iterations` rounds in one call. In
    /// a round a tile of the lowest priority leaves the forward frontier's
    /// queue; if the backward frontier has reached it the frontiers meet
    /// there, else it is expanded. Then the same is done with the backward
    /// frontier.
    ///
    /// The report is `Completed` once the frontiers have met, `PathNotFound`
    /// when a queue is empty or the budget of calls is spent, and `Pending`
    /// otherwise. Which tiles leave the queues where several have the lowest
    /// priority is the queue's choice; the contract says that for some tiles
    /// that the queues may have given, the search is left in the state that
    /// the rounds make of it when they take these tiles (see
    /// [`SerialAStarWasm::follows`] and [`SerialAStarWasm::computes`]).
    pub fn compute(&mut self) -> (r: PathFindResultType)
        requires
            old(self).wf(),
        ensures
            final(self).follows(old(self)),
            r == final(self).spec_outcome(),
    {
        if self.completed {
            return PathFindResultType::Completed;
        }
        if self.max_tries > i32::MIN {
            self.max_tries = self.max_tries - 1;
        }
        let mut iterations = self.iterations;
        let ghost start = self@;
        let ghost mut picks: Seq<(u32, u32)> = Seq::empty();
        while self.has_work()
            invariant
                self.wf(),
                !self.completed(),
                !old(self).completed(),
                self.same_problem(old(self)),
                self.tries_left() == spec_spend(old(self).tries_left()),
                self.forward().extends(&old(self).forward()),
                self.backward().extends(&old(self).backward()),
                start == old(self)@.spent(),
                picks.len() + iterations == old(self).iterations(),
                picks.len() <= rounds_budget(old(self).iterations()),
                forall|i: int|
                    0 <= i < picks.len() ==> #[trigger] old(self).round_ok(start, picks, i),
                self@ == old(self).spec_run(start, picks),
            decreases iterations,
        {
            if iterations <= 0 {
                proof {
                    assert(old(self).computes(picks, self@));
                }
                if self.max_tries <= 0 {
                    return PathFindResultType::PathNotFound;
                }
                return PathFindResultType::Pending;
            }
            iterations = iterations - 1;
            let ghost before = *self;
            let (met, Ghost(pick)) = self.round();
            proof {
                self.forward().lemma_extends_chain(&before.forward(), &old(self).forward());
                self.backward().lemma_extends_chain(&before.backward(), &old(self).backward());
                old(self).lemma_run_one_more(&before, start, picks, pick);
                picks = picks.push(pick);
            }
            if met {
                proof {
                    assert(old(self).computes(picks, self@));
                }
                return PathFindResultType::Completed;
            }
        }
        proof {
            assert(old(self).computes(picks, self@));
        }
        PathFindResultType::PathNotFound
    }

    /// One more round after the rounds that took `picks`.
    proof fn lemma_run_one_more(
        &self,
        now: &SerialAStarWasm,
        start: SearchModel,
        picks: Seq<(u32, u32)>,
        pick: (u32, u32),
    )
        requires
            now.same_problem(self),
            now@ == self.spec_run(start, picks),
            !now@.completed,
            now@.has_work(),
            now.round_allowed(now@, pick.0, pick.1),
            forall|i: int| 0 <= i < picks.len() ==> #[trigger] self.round_ok(start, picks, i),
        ensures
            self.spec_run(start, picks.push(pick)) == now.spec_round(now@, pick.0, pick.1),
            forall|i: int|
                0 <= i < picks.len() + 1 ==> #[trigger] self.round_ok(start, picks.push(pick), i),
    {
        let longer = picks.push(pick);
        assert(longer.drop_last() == picks);
        assert forall|i: int| 0 <= i < longer.len() implies #[trigger] self.round_ok(
            start,
            longer,
            i,
        ) by {
            if i < picks.len() {
                assert(longer.take(i) == picks.take(i));
                assert(self.round_ok(start, picks, i));
            } else {
                assert(longer.take(i) == picks);
            }
        }
    }

    /// One round: a tile leaves the forward queue and is visited, and unless
    /// the frontiers meet there a tile leaves the backward queue and is
    /// visited. Returns whether the frontiers have met, and the tiles that
    /// left the queues.
    fn round(&mut self) -> (r: (bool, Ghost<(u32, u32)>))
        requires
            old(self).wf(),
            !old(self).completed(),
            old(self)@.has_work(),
        ensures
            final(self).wf(),
            final(self).same_problem(old(self)),
            final(self).forward().extends(&old(self).forward()),
            final(self).backward().extends(&old(self).backward()),
            r.0 == final(self).completed(),
            old(self).round_allowed(old(self)@, r.1@.0, r.1@.1),
            final(self)@ == old(self).spec_round(old(self)@, r.1@.0, r.1@.1),
    {
        let ghost mut pick = (0u32, 0u32);
        match self.take_next(true) {
            Some(fwd_current) => {
                proof {
                    pick = (fwd_current, 0u32);
                }
                if self.visit(fwd_current, true) {
                    return (true, Ghost(pick));
                }
            },
            None => {},
        }
        let ghost mid = *self;
        match self.take_next(false) {
            Some(bwd_current) => {
                proof {
                    pick = (pick.0, bwd_current);
                }
                if self.visit(bwd_current, false) {
                    proof {
                        self.forward().lemma_extends_chain(&mid.forward(), &old(self).forward());
                        self.backward().lemma_extends_chain(&mid.backward(), &old(self).backward());
                    }
                    return (true, Ghost(pick));
                }
            },
            None => {},
        }
        proof {
            self.forward().lemma_extends_chain(&mid.forward(), &old(self).forward());
            self.backward().lemma_extends_chain(&mid.backward(), &old(self).backward());
        }
        (false, Ghost(pick))
    }

    /// Whether both frontiers have tiles waiting.
    pub fn has_work(&self) -> (r: bool)
        ensures
            r == self@.has_work(),
    {
        let fwd_empty = self.fwd.is_empty();
        let bwd_empty = self.bwd.is_empty();
        proof {
            if !fwd_empty {
                let k = choose|k: u32| self.fwd@.open.contains_key(k);
                assert(self.fwd@.open.dom().contains(k));
            }
            if !bwd_empty {
                let k = choose|k: u32| self.bwd@.open.contains_key(k);
                assert(self.bwd@.open.dom().contains(k));
            }
        }
        !fwd_empty && !bwd_empty
    }

    /// Takes a tile of the lowest priority out of the forward frontier's
    /// queue, or out of the backward one's, if that queue holds any. The
    /// tile was reached by that frontier. Nothing else changes. Which tile
    /// leaves where several wait under the lowest priority is the queue's
    /// choice.
    pub fn take_next(&mut self, is_forward: bool) -> (r: Option<u32>)
        requires
            old(self).wf(),
        ensures
            final(self).wf(),
            final(self).same_problem(old(self)),
            final(self).forward().extends(&old(self).forward()),
            final(self).backward().extends(&old(self).backward()),
            match r {
                Some(tile) => {
                    &&& takes(old(self)@.side(is_forward).open, tile)
                    &&& old(self)@.side(is_forward).score.contains_key(tile)
                    &&& final(self)@ == old(self)@.take(tile, is_forward)
                },
                None => {
                    &&& old(self)@.side(is_forward).open.dom() =~= Set::empty()
                    &&& final(self)@ == old(self)@
                },
            },
    {
        if is_forward {
            self.fwd.pop()
        } else {
            self.bwd.pop()
        }
    }

    /// Visits `current`, a tile that the forward frontier has reached, or the
    /// backward one. If the other frontier has reached it too the frontiers
    /// meet there: the search is complete and `true` is returned. Else
    /// `current` is expanded on its own side.
    pub fn visit(&mut self, current: u32, is_forward: bool) -> (met: bool)
        requires
            old(self).wf(),
            !old(self).completed(),
            old(self)@.side(is_forward).score.contains_key(current),
        ensures
            final(self).wf(),
            final(self).same_problem(old(self)),
            final(self).forward().extends(&old(self).forward()),
            final(self).backward().extends(&old(self).backward()),
            met == old(self)@.side(!is_forward).score.contains_key(current),
            met == final(self).completed(),
            final(self)@ == old(self).spec_visit(old(self)@, current, is_forward),
    {
        let met = if is_forward {
            self.bwd.knows(current)
        } else {
            self.fwd.knows(current)
        };
        if met {
            self.meeting_point = Some(current);
            self.completed = true;
        } else {
            self.expand_tile_ref(current, is_forward);
        }
        met
    }

    /// The path that the search has found, from a source to the destination;
    /// empty while the frontiers have not met.
    pub fn reconstruct_path(&self) -> (path: Vec<u32>)
        requires
            self.wf(),
        ensures
            path@ == self.spec_path(),
            !self.completed() ==> path@.len() == 0,
            self.completed() ==> self.is_route(path@),
            self.completed() ==> path@.no_duplicates(),
    {
        let mut path: Vec<u32> = Vec::new();
        match self.meeting_point {
            Some(meeting) => {
                proof {
                    self.fwd.lemma_wf_ranked(&self.game_map, self.dst);
                    self.bwd.lemma_wf_ranked(&self.game_map, self.closest_source);
                }
                path.push(meeting);
                self.fwd.prepend_trail(&mut path, meeting);
                self.bwd.append_trail(&mut path, meeting);
                proof {
                    assert(path@ == joined(
                        meeting,
                        self.fwd.spec_trail(meeting),
                        self.bwd.spec_trail(meeting),
                    ));
                    self.lemma_path_is_route();
                    self.lemma_path_has_no_duplicates();
                }
            },
            None => {},
        }
        path
    }

    /// Whether a search may lead a path over a tile: a tile of the grid that
    /// is navigable, or is a source or the destination.
    pub open spec fn passable(&self, tile: u32) -> bool {
        &&& self.grid().contains(tile)
        &&& self.grid().water().contains(tile) || self.sources().contains(tile) || tile
            == self.destination()
    }

    /// Whether `path` leads from a source to the destination, each tile next
    /// to the one before it, over passable tiles only.
    pub open spec fn is_route(&self, path: Seq<u32>) -> bool {
        &&& path.len() > 0
        &&& self.sources().contains(path[0])
        &&& path.last() == self.destination()
        &&& is_walk(&self.grid(), path)
        &&& forall|i: int| 0 <= i < path.len() ==> self.passable(#[trigger] path[i])
    }

    /// The path of a complete search starts on a source, ends on the
    /// destination, goes from each tile to one next to it, and keeps to
    /// passable tiles.
    pub proof fn lemma_path_is_route(&self)
        requires
            self.wf(),
            self.completed(),
        ensures
            self.is_route(self.spec_path()),
    {
        let m = self.meeting_point()->Some_0;
        let grid = self.grid();
        let dst = self.destination();
        let near = self.closest_source();
        let tf = self.forward().spec_trail(m);
        let tb = self.backward().spec_trail(m);
        self.forward().lemma_trail_is_walk(&grid, dst, self.sources().to_set(), m);
        self.backward().lemma_trail_is_walk(&grid, near, set![dst], m);
        lemma_closest_is_first_minimum(&grid, self.sources(), dst);
        assert(self.sources().contains(near));
        assert(self.sources().to_set().contains(trail_from(m, tf, tf.len() as int)));
        assert(set![dst].contains(trail_from(m, tb, tb.len() as int)));
        lemma_joined_is_walk(&grid, m, tf, tb);
        self.forward().lemma_reached_on_grid(&grid, dst, m);
        assert forall|i: int| 0 <= i < tf.len() implies self.passable(
            #[trigger] trail_from(m, tf, i),
        ) by {
            if i > 0 {
                self.forward().lemma_reached_on_grid(&grid, dst, tf[i - 1]);
            }
        }
        assert forall|i: int| 0 <= i < tb.len() implies self.passable(
            #[trigger] trail_from(m, tb, i),
        ) by {
            if i > 0 {
                self.backward().lemma_reached_on_grid(&grid, near, tb[i - 1]);
            }
        }
        assert forall|i: int| 0 <= i < joined(m, tf, tb).len() implies self.passable(
            #[trigger] joined(m, tf, tb)[i],
        ) by {
            lemma_joined_index(m, tf, tb, i);
            let k = tf.len() as int;
            if i == 0 || i == k + tb.len() {
            } else if i <= k {
                assert(trail_from(m, tf, k - i) == joined(m, tf, tb)[i]);
            } else {
                assert(trail_from(m, tb, i - k) == joined(m, tf, tb)[i]);
            }
        }
        lemma_joined_index(m, tf, tb, 0);
        lemma_joined_index(m, tf, tb, (tf.len() + tb.len()) as int);
    }

    /// The path of a complete search holds no tile twice.
    pub proof fn lemma_path_has_no_duplicates(&self)
        requires
            self.wf(),
            self.completed(),
        ensures
            self.spec_path().no_duplicates(),
    {
        let m = self.meeting_point()->Some_0;
        let grid = self.grid();
        let tf = self.forward().spec_trail(m);
        let tb = self.backward().spec_trail(m);
        self.forward().lemma_trail_has_no_duplicates(&grid, self.destination(), m);
        self.backward().lemma_trail_has_no_duplicates(&grid, self.closest_source(), m);
        assert forall|i: int, j: int| 0 <= i < tf.len() && 0 <= j < tb.len() implies tf[i]
            != tb[j] by {
            let a = trail_from(m, tf, i);
            let b = trail_from(m, tb, j);
            assert(self.forward()@.parent.contains_key(a) && tf[i] == self.forward()@.parent[a]);
            assert(self.backward()@.parent.contains_key(b) && tb[j]
                == self.backward()@.parent[b]);
        }
        lemma_joined_has_no_duplicates(m, tf, tb);
    }

    /// Where no route leads from a source to the destination the search is
    /// never complete, and once the budget of calls is spent `compute` reports
    /// `PathNotFound`.
    pub proof fn lemma_no_route_never_completed(&self)
        requires
            self.wf(),
            forall|path: Seq<u32>| !self.is_route(path),
        ensures
            !self.completed(),
            self.spec_outcome() != PathFindResultType::Completed,
            self.tries_left() <= 0 ==> self.spec_outcome() == PathFindResultType::PathNotFound,
    {
        if self.completed() {
            self.lemma_path_is_route();
        }
    }

    /// Calls of `compute`, one after the other, come to an end. Where
    /// `states` lists a search before the first call and after each call, and
    /// the calls are at least as many as the budget of calls was, the last
    /// call does not report `Pending`; and it reports `PathNotFound` where no
    /// route leads from a source to the destination.
    pub proof fn lemma_calls_come_to_an_end(states: Seq<SerialAStarWasm>)
        requires
            states.len() > 0,
            states[0].wf(),
            forall|i: int, j: int|
                #![trigger states[i], states[j]]
                0 <= i && j == i + 1 && j < states.len() ==> states[j].follows(&states[i]),
            states.len() - 1 >= states[0].tries_left(),
        ensures
            states.last().spec_outcome() != PathFindResultType::Pending,
            states.last().spec_outcome() != PathFindResultType::NextTile,
            (forall|path: Seq<u32>| !states[0].is_route(path)) ==> states.last().spec_outcome()
                == PathFindResultType::PathNotFound,
    {
        let n = states.len() - 1;
        Self::lemma_calls_spend(states, n);
        let last = states[n];
        if forall|path: Seq<u32>| !states[0].is_route(path) {
            assert forall|path: Seq<u32>| !last.is_route(path) by {
                assert(!states[0].is_route(path));
            }
            last.lemma_no_route_never_completed();
        }
    }

    proof fn lemma_calls_spend(states: Seq<SerialAStarWasm>, k: int)
        requires
            0 <= k < states.len(),
            states[0].wf(),
            forall|i: int, j: int|
                #![trigger states[i], states[j]]
                0 <= i && j == i + 1 && j < states.len() ==> states[j].follows(&states[i]),
        ensures
            states[k].wf(),
            states[k].same_problem(&states[0]),
            states[k].completed() || states[k].tries_left() <= 0 || states[k].tries_left()
                <= states[0].tries_left() - k,
        decreases k,
    {
        if k > 0 {
            Self::lemma_calls_spend(states, k - 1);
            assert(states[k].follows(&states[k - 1]));
            if !states[k - 1].completed() {
                let picks = choose|picks: Seq<(u32, u32)>| #[trigger]
                    states[k - 1].computes(picks, states[k]@);
                assert(states[k - 1].computes(picks, states[k]@));
            }
        }
    }

    /// Once the budget of calls is spent, `compute` does not ask for another
    /// call: it reports `Completed` or `PathNotFound`.
    pub proof fn lemma_spent_budget_ends(&self)
        requires
            self.tries_left() <= 0,
        ensures
            self.spec_outcome() != PathFindResultType::Pending,
            self.spec_outcome() != PathFindResultType::NextTile,
    {
    }
}

/// Where each tile of a joined path stands in the two walks.
pub proof fn lemma_joined_index(meeting: u32, first: Seq<u32>, second: Seq<u32>, i: int)
    requires
        0 <= i <= first.len() + second.len(),
    ensures
        joined(meeting, first, second).len() == first.len() + 1 + second.len(),
        joined(meeting, first, second)[i] == if i < first.len() {
            first[first.len() - 1 - i]
        } else if i == first.len() {
            meeting
        } else {
            second[i - first.len() - 1]
        },
{
}

/// Two walks from one tile that meet no tile twice, neither that tile nor a
/// tile of the other walk, join to a path that holds no tile twice.
pub proof fn lemma_joined_has_no_duplicates(meeting: u32, first: Seq<u32>, second: Seq<u32>)
    requires
        first.no_duplicates(),
        second.no_duplicates(),
        !first.contains(meeting),
        !second.contains(meeting),
        forall|i: int, j: int|
            0 <= i < first.len() && 0 <= j < second.len() ==> first[i] != second[j],
    ensures
        joined(meeting, first, second).no_duplicates(),
{
    let path = joined(meeting, first, second);
    assert forall|i: int, j: int|
        0 <= i < path.len() && 0 <= j < path.len() && i != j implies path[i] != path[j] by {
        lemma_joined_index(meeting, first, second, i);
        lemma_joined_index(meeting, first, second, j);
    }
}

/// Two walks from one tile, each going from tile to neighbouring tile, join
/// to a path that does so too.
pub proof fn lemma_joined_is_walk(
    grid: &WasmGameMap,
    meeting: u32,
    first: Seq<u32>,
    second: Seq<u32>,
)
    requires
        forall|i: int|
            0 <= i < first.len() ==> grid.adjacent(
                first[i],
                #[trigger] trail_from(meeting, first, i),
            ),
        forall|i: int|
            0 <= i < second.len() ==> grid.adjacent(
                second[i],
                #[trigger] trail_from(meeting, second, i),
            ),
    ensures
        is_walk(grid, joined(meeting, first, second)),
{
    let path = joined(meeting, first, second);
    let k = first.len() as int;
    assert forall|i: int, j: int| 0 <= i && j == i + 1 && j < path.len() implies grid.adjacent(
        #[trigger] path[i],
        #[trigger] path[j],
    ) by {
        lemma_joined_index(meeting, first, second, i);
        lemma_joined_index(meeting, first, second, j);
        if j <= k {
            let q = k - 1 - i;
            assert(grid.adjacent(first[q], trail_from(meeting, first, q)));
        } else {
            let q = i - k;
            assert(grid.adjacent(second[q], trail_from(meeting, second, q)));
        }
    }
}

/// The closest source is one of the sources, none is closer to the
/// destination, and those before it are farther.
pub proof fn lemma_closest_is_first_minimum(grid: &WasmGameMap, sources: Seq<u32>, dst: u32)
    requires
        sources.len() > 0,
    ensures
        0 <= closest_index(grid, sources, dst, sources.len() as int) < sources.len(),
        spec_closest(grid, sources, dst) == sources[closest_index(
            grid,
            sources,
            dst,
            sources.len() as int,
        )],
        forall|j: int|
            0 <= j < sources.len() ==> spec_heuristic(grid, spec_closest(grid, sources, dst), dst)
                <= spec_heuristic(grid, #[trigger] sources[j], dst),
        forall|j: int|
            0 <= j < closest_index(grid, sources, dst, sources.len() as int) ==> spec_heuristic(
                grid,
                spec_closest(grid, sources, dst),
                dst,
            ) < spec_heuristic(grid, #[trigger] sources[j], dst),
{
    lemma_closest_among(grid, sources, dst, sources.len() as int);
}

proof fn lemma_closest_among(grid: &WasmGameMap, sources: Seq<u32>, dst: u32, n: int)
    requires
        1 <= n <= sources.len(),
    ensures
        0 <= closest_index(grid, sources, dst, n) < n,
        forall|j: int|
            0 <= j < n ==> spec_heuristic(grid, sources[closest_index(grid, sources, dst, n)], dst)
                <= spec_heuristic(grid, #[trigger] sources[j], dst),
        forall|j: int|
            0 <= j < closest_index(grid, sources, dst, n) ==> spec_heuristic(
                grid,
                sources[closest_index(grid, sources, dst, n)],
                dst,
            ) < spec_heuristic(grid, #[trigger] sources[j], dst),
    decreases n,
{
    if n > 1 {
        lemma_closest_among(grid, sources, dst, n - 1);
    }
}

} // verus!
