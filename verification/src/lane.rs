//! A lane of a search: a frontier, a visited set and the steps that
//! serve and expand the waiting boards.

use crate::direction::{copy_moves, Direction};
use crate::frontier::{nothing_waiting, Frontier};
use crate::grid::{single_blank, well_shaped};
use crate::heuristic::{comparable, MAX_HEURISTIC};
use crate::puzzle::Puzzle;
use crate::search::{
    admit_all,
    deal,
    descends,
    is_solution,
    joins,
    lane_ok,
    lemma_dequeue_ok,
    lemma_descendant,
    lemma_heuristic_nonnegative,
    lemma_seeded_ok,
    lemma_step_ok,
    lemma_successors_join,
    passes,
    priority_of,
    run_of,
    seeded,
    solve_spec,
    step_of,
    within_threshold,
    LaneView,
    OutcomeView,
    MAX_ITERATIONS,
    MAX_START_COST,
};
use crate::target::target_of;
use crate::visited::Visited;
use vstd::prelude::*;

verus! {

/// How a step of a lane ended.
pub enum Outcome {
    /// Nothing waits, or the lane has made all the steps it may make.
    Exhausted,
    /// The board served has the target's content hash.
    Solved(Puzzle),
    /// The search goes on.
    Continue,
}

impl View for Outcome {
    type V = OutcomeView;

    open spec fn view(&self) -> OutcomeView {
        match self {
            Outcome::Exhausted => OutcomeView::Exhausted,
            Outcome::Solved(p) => OutcomeView::Solved(p@),
            Outcome::Continue => OutcomeView::Continue,
        }
    }
}

/// One lane of a search: a frontier and a visited set of its own.
pub struct Lane {
    start: Puzzle,
    target: Puzzle,
    threshold: Option<u64>,
    frontier: Frontier,
    visited: Visited,
    steps: u64,
}

impl View for Lane {
    type V = LaneView;

    closed spec fn view(&self) -> LaneView {
        LaneView {
            start: self.start@,
            target: self.target@,
            threshold: self.threshold,
            waiting: self.frontier@,
            visited: self.visited@,
            steps: self.steps as nat,
        }
    }
}

/// Whether a priority is admitted under a threshold.
fn admits(f: u64, threshold: Option<u64>) -> (ok: bool)
    ensures
        ok == passes(f as int, threshold),
{
    match threshold {
        None => true,
        Some(t) => f < t,
    }
}

/// The priority of a board in a search for `target`.
fn priority(kid: &Puzzle, target: &Puzzle) -> (f: u64)
    requires
        comparable(kid@, target@),
    ensures
        f == priority_of(kid@, target@),
        kid@.g <= f <= kid@.g + MAX_HEURISTIC,
{
    let h = kid.get_heuristic(target);
    proof {
        lemma_heuristic_nonnegative(kid@, target@, kid@.cells.len() as int);
    }
    kid.g() as u64 + h as u64
}

impl Lane {
    /// What holds of every lane: the frontier is well formed and takes
    /// priorities from the cost of the successors of the start on, and
    /// the state satisfies the invariant of the search.
    #[verifier::type_invariant]
    closed spec fn inv(self) -> bool {
        &&& self.frontier.wf()
        &&& self.frontier.base() == self.start@.g + 1
        &&& lane_ok(self@)
    }

    /// Lane number `lane` out of `lanes` of a search from `start`. The
    /// successors of `start` are dealt out over the lanes in turn; this
    /// lane starts with its share.
    pub fn new(start: &Puzzle, threshold: Option<u64>, lane: usize, lanes: usize) -> (made: Lane)
        requires
            single_blank(start@.cells),
            start@.g <= MAX_START_COST,
            lane < lanes,
        ensures
            made@ == seeded(start@, threshold, lane as int, lanes as int),
    {
        let target = start.solved();
        let at = start.space_idx();
        let mut successors = start.generate_successors(at, 1);
        let total = successors.len();
        let mut frontier = Frontier::new(start.g() as u64 + 1);
        let ghost all = successors@;
        let ghost empty = LaneView {
            start: start@,
            target: target@,
            threshold,
            waiting: nothing_waiting(),
            visited: Set::empty(),
            steps: 0,
        };
        proof {
            use_type_invariant(start);
            assert(well_shaped(start@));
            lemma_successors_join(empty, start@);
            lemma_seeded_ok(start@, threshold, lane as int, lanes as int);
        }
        let mut turn: usize = 0;
        loop
            invariant
                frontier.wf(),
                frontier.base() == start@.g + 1,
                start@.g <= MAX_START_COST,
                well_shaped(start@),
                single_blank(start@.cells),
                target@ == target_of(start@),
                lane < lanes,
                total == all.len(),
                total <= 4,
                turn == total - successors@.len(),
                forall|k: int|
                    0 <= k < successors@.len() ==> descends(start@, #[trigger] successors@[k])
                        && successors@[k].moves.len() == start@.moves.len() + 1,
                deal(frontier@, successors@, total as int, target@, lane as int, lanes as int)
                    == deal(
                    nothing_waiting(),
                    all,
                    total as int,
                    target@,
                    lane as int,
                    lanes as int,
                ),
            ensures
                successors@.len() == 0,
            decreases successors@.len(),
        {
            let ghost remaining = successors@;
            match successors.next() {
                None => {
                    break ;
                },
                Some(kid) => {
                    proof {
                        assert(descends(start@, remaining[remaining.len() - 1]));
                        lemma_descendant(start@, kid@);
                        assert forall|k: int| 0 <= k < successors@.len() implies descends(
                            start@,
                            #[trigger] successors@[k],
                        ) && successors@[k].moves.len() == start@.moves.len() + 1 by {
                            assert(successors@[k] == remaining[k]);
                        }
                    }
                    if turn % lanes == lane {
                        let f = priority(&kid, &target);
                        frontier.push(f, kid);
                    }
                    turn += 1;
                },
            }
        }
        let made = Lane {
            start: start.clone(),
            target,
            threshold,
            frontier,
            visited: Visited::new(),
            steps: 0,
        };
        proof {
            assert(made@ == seeded(start@, threshold, lane as int, lanes as int));
        }
        made
    }

    /// Makes one step: serves the waiting board of least priority, and
    /// expands it unless it is solved or was expanded before.
    pub fn step(self) -> (result: (Lane, Outcome))
        ensures
            (result.0@, result.1@) == step_of(self@),
            result.0@.start == self@.start,
            result.0@.threshold == self@.threshold,
            result.1 is Continue ==> result.0@.steps == self@.steps + 1,
            result.1 matches Outcome::Solved(p) ==> is_solution(self@.start, p@)
                && within_threshold(self@.start, p@, self@.threshold),
    {
        proof {
            use_type_invariant(&self);
            lemma_step_ok(self@);
        }
        let ghost before = self@;
        let Lane { start, target, threshold, mut frontier, mut visited, steps } = self;
        if steps >= MAX_ITERATIONS {
            return (Lane { start, target, threshold, frontier, visited, steps }, Outcome::Exhausted);
        }
        let served = frontier.pop();
        let node = match served {
            None => {
                return (
                    Lane { start, target, threshold, frontier, visited, steps },
                    Outcome::Exhausted,
                );
            },
            Some((_, node)) => node,
        };
        proof {
            use_type_invariant(&start);
            assert(well_shaped(start@));
            lemma_dequeue_ok(before, before.waiting);
            lemma_descendant(start@, node@);
        }
        if node.is_solved(&target) {
            return (
                Lane { start, target, threshold, frontier, visited, steps: steps + 1 },
                Outcome::Solved(node),
            );
        }
        let fresh = visited.insert(node.content_hash());
        if !fresh {
            assert(visited@ =~= before.visited);
            return (
                Lane { start, target, threshold, frontier, visited, steps: steps + 1 },
                Outcome::Continue,
            );
        }
        let at = node.space_idx();
        let mut successors = node.generate_successors(at, 1);
        let ghost all = successors@;
        let ghost rest = frontier@;
        let ghost later = LaneView {
            start: before.start,
            target: before.target,
            threshold: before.threshold,
            waiting: rest,
            visited: before.visited,
            steps: before.steps + 1,
        };
        proof {
            lemma_successors_join(later, node@);
        }
        loop
            invariant
                frontier.wf(),
                frontier.base() == start@.g + 1,
                start@.g <= MAX_START_COST,
                well_shaped(start@),
                single_blank(start@.cells),
                target@ == target_of(start@),
                steps < MAX_ITERATIONS,
                later.start == start@,
                later.steps == steps + 1,
                forall|k: int| 0 <= k < successors@.len() ==> joins(later, #[trigger] successors@[k]),
                admit_all(frontier@, successors@, target@, threshold) == admit_all(
                    rest,
                    all,
                    target@,
                    threshold,
                ),
            ensures
                successors@.len() == 0,
            decreases successors@.len(),
        {
            let ghost remaining = successors@;
            match successors.next() {
                None => {
                    break ;
                },
                Some(kid) => {
                    proof {
                        assert(joins(later, remaining[remaining.len() - 1]));
                        lemma_descendant(start@, kid@);
                        assert forall|k: int| 0 <= k < successors@.len() implies joins(
                            later,
                            #[trigger] successors@[k],
                        ) by {
                            assert(successors@[k] == remaining[k]);
                        }
                    }
                    let f = priority(&kid, &target);
                    if admits(f, threshold) {
                        frontier.push(f, kid);
                    }
                },
            }
        }
        (Lane { start, target, threshold, frontier, visited, steps: steps + 1 }, Outcome::Continue)
    }

    /// Steps until a step ends the search, and returns the solved board if
    /// one was served.
    pub fn run(self) -> (found: Option<Puzzle>)
        ensures
            found is Some <==> run_of(self@) is Some,
            found matches Some(p) ==> run_of(self@) == Some(p@) && is_solution(self@.start, p@)
                && within_threshold(self@.start, p@, self@.threshold),
    {
        let mut lane = self;
        loop
            invariant
                run_of(lane@) == run_of(self@),
                lane@.start == self@.start,
                lane@.threshold == self@.threshold,
            decreases MAX_ITERATIONS - lane@.steps,
        {
            let (next, outcome) = lane.step();
            match outcome {
                Outcome::Exhausted => {
                    return None;
                },
                Outcome::Solved(p) => {
                    return Some(p);
                },
                Outcome::Continue => {
                    lane = next;
                },
            }
        }
    }
}

impl Puzzle {
    /// Searches for a sequence of moves that brings this board into its
    /// solved layout. On success the board becomes the solved board that
    /// was found and its whole move list is returned; otherwise the board
    /// stays as it was.
    ///
    /// A successor joins the frontier only if its priority is below
    /// `heuristic_threshold`; `None` stands for no threshold.
    pub fn solve(&mut self, heuristic_threshold: Option<u64>) -> (moves: Option<Vec<Direction>>)
        requires
            single_blank(old(self)@.cells),
            old(self)@.g <= MAX_START_COST,
        ensures
            moves is Some <==> solve_spec(old(self)@, heuristic_threshold) is Some,
            moves matches Some(m) ==> {
                &&& solve_spec(old(self)@, heuristic_threshold) == Some(final(self)@)
                &&& m@ == final(self)@.moves
                &&& is_solution(old(self)@, final(self)@)
                &&& within_threshold(old(self)@, final(self)@, heuristic_threshold)
            },
            moves is None ==> final(self)@ == old(self)@,
    {
        let lane = Lane::new(self, heuristic_threshold, 0, 1);
        match lane.run() {
            Some(found) => {
                let moves = copy_moves(found.moves());
                *self = found;
                Some(moves)
            },
            None => None,
        }
    }
}

} // verus!
