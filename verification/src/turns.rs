//! Search in several lanes that take turns on the calling thread.
//!
//! The successors of the start board are dealt out over the lanes in turn.
//! Every lane searches from its share with a frontier and a visited set of
//! its own, so boards may be expanded in more than one lane. The lanes
//! step one after the other, and the first solution that any lane reports
//! is kept; the one returned need not be the shortest. This is the search
//! in lanes under one fixed schedule, so its result is determined.

use crate::direction::{copy_moves, Direction};
use crate::grid::{single_blank, well_shaped};
use crate::lane::{Lane, Outcome};
use crate::puzzle::{Puzzle, PuzzleView};
use crate::search::{
    is_solution,
    lane_ok,
    lemma_seeded_ok,
    lemma_step_ok,
    run_of,
    seeded,
    solve_spec,
    step_of,
    within_threshold,
    LaneView,
    OutcomeView,
    MAX_ITERATIONS,
    MAX_START_COST,
};
use crate::slot::BestSolution;
use std::collections::VecDeque;
use vstd::prelude::*;

verus! {

/// The lanes of a search from `start` with `workers` lanes.
pub open spec fn lanes_of(start: PuzzleView, threshold: Option<u64>, workers: nat) -> Seq<
    LaneView,
> {
    Seq::new(workers, |i: int| seeded(start, threshold, i, workers as int))
}

/// The number of steps that a lane can still make, counting the one that
/// ends its search.
pub open spec fn steps_left(s: LaneView) -> nat {
    if s.steps < MAX_ITERATIONS {
        (MAX_ITERATIONS - s.steps + 1) as nat
    } else {
        1
    }
}

/// The number of steps that the lanes can still make together.
pub open spec fn budget(live: Seq<LaneView>) -> nat
    decreases live.len(),
{
    if live.len() == 0 {
        0
    } else {
        budget(live.drop_last()) + steps_left(live.last())
    }
}

/// What the lanes find when they step in turn: the lane at the head makes
/// one step; a solved board ends the search; a lane that goes on lines up
/// at the end, and one that is exhausted leaves.
pub open spec fn relay(live: Seq<LaneView>) -> Option<PuzzleView>
    decreases budget(live),
    via relay_decreases
{
    if live.len() == 0 {
        None
    } else {
        match step_of(live[0]).1 {
            OutcomeView::Solved(n) => Some(n),
            OutcomeView::Exhausted => relay(live.drop_first()),
            OutcomeView::Continue => relay(live.drop_first().push(step_of(live[0]).0)),
        }
    }
}

/// The budget of a queue is that of its head and that of the rest.
pub proof fn lemma_budget_split(live: Seq<LaneView>)
    requires
        live.len() > 0,
    ensures
        budget(live) == steps_left(live[0]) + budget(live.drop_first()),
    decreases live.len(),
{
    if live.len() == 1 {
        assert(live.drop_last() =~= Seq::<LaneView>::empty());
        assert(live.drop_first() =~= Seq::<LaneView>::empty());
    } else {
        lemma_budget_split(live.drop_last());
        assert(live.drop_last().drop_first() =~= live.drop_first().drop_last());
        assert(live.drop_last()[0] == live[0]);
        assert(live.drop_first().last() == live.last());
    }
}

/// A lane that lines up adds what it has left.
pub proof fn lemma_budget_push(live: Seq<LaneView>, s: LaneView)
    ensures
        budget(live.push(s)) == budget(live) + steps_left(s),
{
    assert(live.push(s).drop_last() =~= live);
}

#[via_fn]
proof fn relay_decreases(live: Seq<LaneView>) {
    if live.len() > 0 {
        lemma_budget_split(live);
        let next = step_of(live[0]).0;
        if step_of(live[0]).1 is Continue {
            lemma_budget_push(live.drop_first(), next);
        }
    }
}

/// What the search in `workers` lanes from `start` finds when the lanes
/// step in turn.
pub open spec fn solve_in_turns_spec(
    start: PuzzleView,
    threshold: Option<u64>,
    workers: nat,
) -> Option<PuzzleView> {
    relay(lanes_of(start, threshold, workers))
}

/// Whether every lane satisfies its invariant and searches from `start`
/// under `threshold`.
pub open spec fn lanes_ok(live: Seq<LaneView>, start: PuzzleView, threshold: Option<u64>) -> bool {
    forall|i: int|
        0 <= i < live.len() ==> lane_ok(#[trigger] live[i]) && live[i].start == start
            && live[i].threshold == threshold
}

/// What lanes in order find in turn is a solution that respects the
/// threshold.
pub proof fn lemma_relay_sound(live: Seq<LaneView>, start: PuzzleView, threshold: Option<u64>)
    requires
        lanes_ok(live, start, threshold),
    ensures
        relay(live) matches Some(n) ==> is_solution(start, n) && within_threshold(
            start,
            n,
            threshold,
        ),
    decreases budget(live),
{
    if live.len() > 0 {
        assert(lane_ok(live[0]));
        lemma_step_ok(live[0]);
        lemma_budget_split(live);
        let next = step_of(live[0]).0;
        match step_of(live[0]).1 {
            OutcomeView::Solved(n) => {},
            OutcomeView::Exhausted => {
                let rest = live.drop_first();
                assert forall|i: int| 0 <= i < rest.len() implies lane_ok(#[trigger] rest[i])
                    && rest[i].start == start && rest[i].threshold == threshold by {
                    assert(rest[i] == live[i + 1]);
                }
                lemma_relay_sound(rest, start, threshold);
            },
            OutcomeView::Continue => {
                let rest = live.drop_first().push(next);
                lemma_budget_push(live.drop_first(), next);
                assert forall|i: int| 0 <= i < rest.len() implies lane_ok(#[trigger] rest[i])
                    && rest[i].start == start && rest[i].threshold == threshold by {
                    if i < rest.len() - 1 {
                        assert(rest[i] == live[i + 1]);
                    }
                }
                lemma_relay_sound(rest, start, threshold);
            },
        }
    }
}

/// Whatever the search in lanes that step in turn returns for a board
/// with one blank, with any number of lanes, is reached from that board by legal moves, has
/// the content hash of the solved layout, and is one move away or has a
/// priority below the threshold.
pub proof fn lemma_solve_in_turns_sound(start: PuzzleView, threshold: Option<u64>, workers: nat)
    requires
        well_shaped(start),
        single_blank(start.cells),
        start.g <= MAX_START_COST,
    ensures
        solve_in_turns_spec(start, threshold, workers) matches Some(n) ==> is_solution(start, n)
            && within_threshold(start, n, threshold),
{
    let live = lanes_of(start, threshold, workers);
    assert forall|i: int| 0 <= i < live.len() implies lane_ok(#[trigger] live[i]) && live[i].start
        == start && live[i].threshold == threshold by {
        lemma_seeded_ok(start, threshold, i, workers as int);
    }
    lemma_relay_sound(live, start, threshold);
}

/// A single lane that steps in turn with nobody finds what it finds when
/// it runs alone.
proof fn lemma_relay_alone(s: LaneView)
    ensures
        relay(seq![s]) == run_of(s),
    decreases MAX_ITERATIONS - s.steps,
{
    let live = seq![s];
    assert(live[0] == s);
    assert(live.drop_first() =~= Seq::<LaneView>::empty());
    assert(relay(Seq::<LaneView>::empty()) is None);
    if s.steps < MAX_ITERATIONS {
        if step_of(s).1 is Continue {
            let next = step_of(s).0;
            assert(live.drop_first().push(next) =~= seq![next]);
            lemma_relay_alone(next);
        }
    }
}

/// The search in one lane that steps in turn is the sequential search.
pub proof fn lemma_one_lane_is_sequential(start: PuzzleView, threshold: Option<u64>)
    ensures
        solve_in_turns_spec(start, threshold, 1) == solve_spec(start, threshold),
{
    assert(lanes_of(start, threshold, 1) =~= seq![seeded(start, threshold, 0, 1)]);
    lemma_relay_alone(seeded(start, threshold, 0, 1));
}

/// Where one of the lanes finds a solution when it runs alone, the lanes
/// find a solution when they step in turn.
pub proof fn lemma_relay_complete(live: Seq<LaneView>, i: int)
    requires
        0 <= i < live.len(),
        run_of(live[i]) is Some,
    ensures
        relay(live) is Some,
    decreases budget(live),
{
    lemma_budget_split(live);
    let head = live[0];
    let next = step_of(head).0;
    match step_of(head).1 {
        OutcomeView::Solved(n) => {},
        OutcomeView::Exhausted => {
            assert(run_of(head) is None);
            let rest = live.drop_first();
            assert(rest[i - 1] == live[i]);
            lemma_relay_complete(rest, i - 1);
        },
        OutcomeView::Continue => {
            lemma_budget_push(live.drop_first(), next);
            let rest = live.drop_first().push(next);
            assert(head.steps < MAX_ITERATIONS);
            assert(run_of(head) == run_of(next));
            if i == 0 {
                assert(rest[rest.len() - 1] == next);
                lemma_relay_complete(rest, rest.len() - 1);
            } else {
                assert(rest[i - 1] == live[i]);
                lemma_relay_complete(rest, i - 1);
            }
        },
    }
}

/// What the lanes find when they step in turn is what one of them finds
/// when it runs alone.
pub proof fn lemma_relay_is_a_run(live: Seq<LaneView>)
    ensures
        relay(live) matches Some(n) ==> exists|i: int|
            0 <= i < live.len() && run_of(#[trigger] live[i]) == Some(n),
    decreases budget(live),
{
    if live.len() > 0 {
        lemma_budget_split(live);
        let head = live[0];
        let next = step_of(head).0;
        match step_of(head).1 {
            OutcomeView::Solved(n) => {
                assert(head.steps < MAX_ITERATIONS);
                assert(run_of(live[0]) == Some(n));
            },
            OutcomeView::Exhausted => {
                let rest = live.drop_first();
                lemma_relay_is_a_run(rest);
                if relay(rest) is Some {
                    let i = choose|i: int|
                        0 <= i < rest.len() && run_of(#[trigger] rest[i]) == relay(rest);
                    assert(rest[i] == live[i + 1]);
                }
            },
            OutcomeView::Continue => {
                lemma_budget_push(live.drop_first(), next);
                let rest = live.drop_first().push(next);
                assert(head.steps < MAX_ITERATIONS);
                assert(run_of(head) == run_of(next));
                lemma_relay_is_a_run(rest);
                if relay(rest) is Some {
                    let i = choose|i: int|
                        0 <= i < rest.len() && run_of(#[trigger] rest[i]) == relay(rest);
                    if i == rest.len() - 1 {
                        assert(rest[i] == next);
                        assert(run_of(live[0]) == relay(live));
                    } else {
                        assert(rest[i] == live[i + 1]);
                        assert(run_of(live[i + 1]) == relay(live));
                    }
                }
            },
        }
    }
}

/// The states of a queue of lanes.
pub open spec fn lane_views(live: Seq<Lane>) -> Seq<LaneView> {
    Seq::new(live.len(), |i: int| live[i]@)
}

impl Puzzle {
    /// Searches in `workers` lanes that step in turn on the calling thread,
    /// and returns the first solution that a lane reports. On success the board becomes the
    /// solved board that was found and its whole move list is returned;
    /// otherwise the board stays as it was.
    pub fn solve_in_turns(&mut self, workers: usize, heuristic_threshold: Option<u64>) -> (moves:
        Option<Vec<Direction>>)
        requires
            single_blank(old(self)@.cells),
            old(self)@.g <= MAX_START_COST,
            workers >= 1,
        ensures
            moves is Some <==> solve_in_turns_spec(
                old(self)@,
                heuristic_threshold,
                workers as nat,
            ) is Some,
            moves matches Some(m) ==> {
                &&& solve_in_turns_spec(old(self)@, heuristic_threshold, workers as nat) == Some(
                    final(self)@,
                )
                &&& m@ == final(self)@.moves
                &&& is_solution(old(self)@, final(self)@)
                &&& within_threshold(old(self)@, final(self)@, heuristic_threshold)
            },
            moves is None ==> final(self)@ == old(self)@,
    {
        let ghost start = self@;
        let ghost all = lanes_of(start, heuristic_threshold, workers as nat);
        let mut live: VecDeque<Lane> = VecDeque::new();
        let mut i: usize = 0;
        while i < workers
            invariant
                i <= workers,
                self@ == start,
                single_blank(start.cells),
                start.g <= MAX_START_COST,
                all == lanes_of(start, heuristic_threshold, workers as nat),
                lane_views(live@) == all.take(i as int),
            decreases workers - i,
        {
            let lane = Lane::new(self, heuristic_threshold, i, workers);
            let ghost made = lane@;
            live.push_back(lane);
            proof {
                assert(made == all[i as int]);
                assert(lane_views(live@) =~= all.take(i as int).push(made));
                assert(all.take(i as int).push(made) =~= all.take(i + 1));
            }
            i += 1;
        }
        proof {
            assert(all.take(i as int) =~= all);
            use_type_invariant(&*self);
            assert(well_shaped(start));
            lemma_solve_in_turns_sound(start, heuristic_threshold, workers as nat);
        }
        let mut best = BestSolution::new();
        loop
            invariant_except_break
                best@ is None,
                relay(lane_views(live@)) == relay(all),
            invariant
                self@ == start,
            ensures
                self@ == start,
                best@ == relay(all),
            decreases budget(lane_views(live@)),
        {
            if best.is_published() {
                break ;
            }
            let ghost queue = lane_views(live@);
            match live.pop_front() {
                None => {
                    break ;
                },
                Some(lane) => {
                    proof {
                        assert(queue[0] == lane@);
                        lemma_budget_split(queue);
                        assert(lane_views(live@) =~= queue.drop_first());
                    }
                    let (next, outcome) = lane.step();
                    match outcome {
                        Outcome::Solved(found) => {
                            best.publish(found);
                            break ;
                        },
                        Outcome::Exhausted => {},
                        Outcome::Continue => {
                            live.push_back(next);
                            proof {
                                lemma_budget_push(queue.drop_first(), next@);
                                assert(lane_views(live@) =~= queue.drop_first().push(next@));
                            }
                        },
                    }
                },
            }
        }
        match best.take() {
            Some(found) => {
                let moves = copy_moves(found.moves());
                *self = found;
                Some(moves)
            },
            None => None,
        }
    }
}

} // verus!
