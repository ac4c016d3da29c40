//! The search in lanes on a pool of threads.
//!
//! Every lane runs on a thread of the pool until it finds a solution, is
//! exhausted, or sees that a solution was announced. A lane looks for the
//! announcement before each step, so at most one step is made in vain. The
//! announcement is a flag that is set once; the lane that sets it was the
//! first to find a solution. When all lanes have returned, what they found
//! is published to the slot for the best solution, the find of the first
//! announcer before all others, and what the slot then holds is returned.
//!
//! A lane that stopped is handed back as it stood. Should no lane have
//! reported a solution, the lanes that stopped are run to their end one
//! after the other, so that a board which one of the lanes solves alone is
//! solved whatever the flag was seen to hold. A lane stops only after
//! another has announced its solution, so with the flag of the standard
//! library there is nothing left to run.

use crate::direction::{copy_moves, Direction};
use crate::grid::{single_blank, well_shaped};
use crate::lane::{Lane, Outcome};
use crate::puzzle::{Puzzle, PuzzleView};
use crate::search::{
    is_solution,
    lemma_run_sound,
    lemma_seeded_ok,
    run_of,
    seeded,
    step_of,
    within_threshold,
    LaneView,
    MAX_ITERATIONS,
    MAX_START_COST,
};
use crate::slot::BestSolution;
use rayon::iter::{IntoParallelIterator, ParallelIterator};
use std::sync::atomic::{AtomicBool, Ordering};
use vstd::prelude::*;

verus! {

/// A solved board that a lane found, and whether that lane was the first
/// to announce a solution.
pub struct Found {
    pub puzzle: Puzzle,
    pub first: bool,
}

/// How the run of a lane on the pool ended.
pub enum Report {
    /// The lane found a solution and announced it.
    Found(Found),
    /// The lane is exhausted.
    Exhausted,
    /// The lane saw that a solution was announced and made no further
    /// step. It is handed back as it stood.
    Stopped(Lane),
}

/// Whether `found` is what a lane in state `s` may report: the solved
/// board that the lane finds when it runs alone, which is a solution of
/// its search that respects the threshold.
pub open spec fn reported_by(s: LaneView, found: Found) -> bool {
    &&& run_of(s) == Some(found.puzzle@)
    &&& is_solution(s.start, found.puzzle@)
    &&& within_threshold(s.start, found.puzzle@, s.threshold)
}

/// Whether `report` is how the run of a lane in state `s` may end: with
/// the solution that the lane finds alone; exhausted, where the lane finds
/// nothing alone; or stopped, with a lane that finds alone what the lane
/// in state `s` finds alone.
pub open spec fn report_of(s: LaneView, report: Report) -> bool {
    match report {
        Report::Found(found) => reported_by(s, found),
        Report::Exhausted => run_of(s) is None,
        Report::Stopped(lane) => {
            &&& run_of(lane@) == run_of(s)
            &&& lane@.start == s.start
            &&& lane@.threshold == s.threshold
        },
    }
}

/// The solved board that a report holds, if it holds one.
pub open spec fn find_of(report: Report) -> Option<PuzzleView> {
    match report {
        Report::Found(found) => Some(found.puzzle@),
        _ => None,
    }
}

/// What the lane of a report finds when it is run to its end, if the
/// report hands back a lane.
pub open spec fn left_of(report: Report) -> Option<PuzzleView> {
    match report {
        Report::Stopped(lane) => run_of(lane@),
        _ => None,
    }
}

/// Whether the report at index `i` flags its lane as the first to announce.
pub open spec fn flagged(reports: Seq<Report>, i: int) -> bool {
    reports[i] matches Report::Found(f) && f.first
}

/// Whether the report at index `i` is the one whose solution is returned:
/// the first that is flagged, or, where none is flagged, the first that
/// holds a solution.
pub open spec fn is_choice(reports: Seq<Report>, i: int) -> bool {
    &&& 0 <= i < reports.len()
    &&& find_of(reports[i]) is Some
    &&& forall|j: int| 0 <= j < i ==> !flagged(reports, j)
    &&& !flagged(reports, i) ==> {
        &&& forall|j: int| 0 <= j < reports.len() ==> !flagged(reports, j)
        &&& forall|j: int| 0 <= j < i ==> find_of(reports[j]) is None
    }
}

/// Whether the report at index `i` is the first that hands back a lane
/// which finds a solution when it is run to its end.
pub open spec fn is_first_left(reports: Seq<Report>, i: int) -> bool {
    &&& 0 <= i < reports.len()
    &&& left_of(reports[i]) is Some
    &&& forall|j: int| 0 <= j < i ==> left_of(reports[j]) is None
}

/// Whether no report holds a solution.
pub open spec fn none_found(reports: Seq<Report>) -> bool {
    forall|j: int| 0 <= j < reports.len() ==> find_of(#[trigger] reports[j]) is None
}

/// Whether some lane out of `workers` of a search from `start` finds a
/// solution when it runs alone.
pub open spec fn some_lane_solves(start: PuzzleView, threshold: Option<u64>, workers: nat) -> bool {
    exists|i: int|
        0 <= i < workers && run_of(#[trigger] seeded(start, threshold, i, workers as int)) is Some
}

/// Whether `n` is what one of the `workers` lanes of a search from `start`
/// finds when it runs alone.
pub open spec fn found_by_a_lane(
    start: PuzzleView,
    threshold: Option<u64>,
    workers: nat,
    n: PuzzleView,
) -> bool {
    exists|i: int|
        0 <= i < workers && run_of(#[trigger] seeded(start, threshold, i, workers as int)) == Some(
            n,
        )
}

impl Found {
    /// The report of a lane that found `puzzle` and, on announcing it,
    /// learned whether a solution had been announced `earlier`.
    pub fn report(puzzle: Puzzle, earlier: bool) -> (found: Found)
        ensures
            found.puzzle == puzzle,
            found.first == !earlier,
    {
        Found { puzzle, first: !earlier }
    }
}

impl Lane {
    /// What a lane does after it looked for the announcement: if it has
    /// `seen` one it makes no step and is handed back as it is, else it
    /// makes one step.
    pub fn step_unless(self, seen: bool) -> (went: Result<(Lane, Outcome), Lane>)
        ensures
            went is Err <==> seen,
            went matches Err(same) ==> same@ == self@,
            went matches Ok(r) ==> {
                &&& (r.0@, r.1@) == step_of(self@)
                &&& r.0@.start == self@.start
                &&& r.0@.threshold == self@.threshold
                &&& r.1 matches Outcome::Solved(p) ==> is_solution(self@.start, p@)
                    && within_threshold(self@.start, p@, self@.threshold)
            },
    {
        if seen {
            Err(self)
        } else {
            Ok(self.step())
        }
    }

    /// Steps until the lane finds a solution, is exhausted, or sees that a
    /// solution was announced. A lane that finds a solution announces it,
    /// and learns whether it was the first to do so.
    ///
    /// The steps are those that the lane makes when it runs alone. So a
    /// solution that is reported is the one that the lane finds alone, a
    /// lane reports to be exhausted only if it finds nothing alone, and a
    /// lane that stopped still finds alone what it would have found.
    pub fn run_until(self, announced: &AtomicBool) -> (report: Report)
        ensures
            report_of(self@, report),
    {
        let mut lane = self;
        loop
            invariant
                lane@.start == self@.start,
                lane@.threshold == self@.threshold,
                run_of(lane@) == run_of(self@),
            decreases MAX_ITERATIONS - lane@.steps,
        {
            let ghost before = lane@;
            let seen = announced.load(Ordering::SeqCst);
            match lane.step_unless(seen) {
                Err(same) => {
                    return Report::Stopped(same);
                },
                Ok((next, outcome)) => match outcome {
                    Outcome::Exhausted => {
                        assert(run_of(before) is None);
                        return Report::Exhausted;
                    },
                    Outcome::Solved(puzzle) => {
                        assert(run_of(before) == Some(puzzle@));
                        let earlier = announced.swap(true, Ordering::SeqCst);
                        return Report::Found(Found::report(puzzle, earlier));
                    },
                    Outcome::Continue => {
                        assert(step_of(before).1 is Continue);
                        assert(run_of(before) == run_of(next@));
                        lane = next;
                    },
                },
            }
        }
    }
}

/// Runs every lane on rayon's thread pool: `into_par_iter` on the vector
/// of lanes, `map` with a closure that calls `Lane::run_until`, and
/// `collect` into a vector.
///
/// Trusted: the body is not verified. The contract claims that there is
/// one report for each lane, in the order of the lanes, and that each is
/// what the closure returned for its lane, so that it satisfies what
/// `Lane::run_until` ensures for that lane. This holds because the
/// parallel iterator of a vector is indexed, `map` keeps it so, and
/// `collect` into a vector writes the items of an indexed iterator to
/// their own places. Nothing is claimed of which lanes report a solution.
#[verifier::external_body]
fn run_on_pool(lanes: Vec<Lane>, announced: &AtomicBool) -> (reports: Vec<Report>)
    ensures
        reports@.len() == lanes@.len(),
        forall|k: int| 0 <= k < reports@.len() ==> report_of(lanes@[k]@, #[trigger] reports@[k]),
{
    lanes.into_par_iter().map(|lane| lane.run_until(announced)).collect()
}

/// Publishes the solutions that the lanes reported: first those of the
/// lanes that were flagged as the first to announce, then all others,
/// either in the order of the reports. The slot keeps what is published
/// first, so it ends up with the solution of the lane that announced first
/// or, should no report be flagged, with the first solution reported.
pub fn publish_reports(reports: &Vec<Report>) -> (best: BestSolution)
    ensures
        best@ is None <==> none_found(reports@),
        best@ matches Some(v) ==> exists|i: int|
            is_choice(reports@, i) && Some(v) == find_of(#[trigger] reports@[i]),
{
    let mut best = BestSolution::new();
    let mut i: usize = 0;
    while i < reports.len()
        invariant
            i <= reports.len(),
            best@ is None ==> forall|j: int| 0 <= j < i ==> !flagged(reports@, j),
            best@ matches Some(v) ==> exists|k: int|
                0 <= k < i && flagged(reports@, k) && Some(v) == find_of(#[trigger] reports@[k])
                    && forall|j: int| 0 <= j < k ==> !flagged(reports@, j),
        decreases reports.len() - i,
    {
        match &reports[i] {
            Report::Found(found) => {
                if found.first {
                    best.publish(found.puzzle.clone());
                }
            },
            _ => {},
        }
        i += 1;
    }
    let ghost flagged_first = best@;
    proof {
        if best@ is Some {
            let k = choose|k: int|
                0 <= k < i && flagged(reports@, k) && best@ == find_of(#[trigger] reports@[k])
                    && forall|j: int| 0 <= j < k ==> !flagged(reports@, j);
            assert(is_choice(reports@, k));
        }
    }
    i = 0;
    while i < reports.len()
        invariant
            i <= reports.len(),
            flagged_first is Some ==> best@ == flagged_first,
            flagged_first is None ==> forall|j: int|
                0 <= j < reports@.len() ==> !flagged(reports@, j),
            flagged_first is None && best@ is None ==> forall|j: int|
                0 <= j < i ==> find_of(#[trigger] reports@[j]) is None,
            flagged_first is None ==> (best@ matches Some(v) ==> exists|k: int|
                0 <= k < i && Some(v) == find_of(#[trigger] reports@[k]) && forall|j: int|
                    0 <= j < k ==> find_of(reports@[j]) is None),
        decreases reports.len() - i,
    {
        match &reports[i] {
            Report::Found(found) => {
                best.publish(found.puzzle.clone());
            },
            _ => {},
        }
        i += 1;
    }
    proof {
        if flagged_first is None && best@ is Some {
            let k = choose|k: int|
                0 <= k < i && best@ == find_of(#[trigger] reports@[k]) && forall|j: int|
                    0 <= j < k ==> find_of(reports@[j]) is None;
            assert(is_choice(reports@, k));
        }
    }
    best
}

/// Runs the lanes that the reports hand back to their end, one after the
/// other in the order of the reports, and returns the solved board of the
/// first that finds one.
pub fn finish_stopped(reports: Vec<Report>) -> (found: Option<Puzzle>)
    ensures
        found is None <==> forall|j: int|
            0 <= j < reports@.len() ==> left_of(#[trigger] reports@[j]) is None,
        found matches Some(p) ==> exists|i: int|
            is_first_left(reports@, i) && Some(p@) == left_of(#[trigger] reports@[i]),
{
    let ghost all = reports@;
    let mut rest = reports;
    let ghost mut done: int = 0;
    while rest.len() > 0
        invariant
            all == reports@,
            done + rest@.len() == all.len(),
            0 <= done,
            rest@ == all.skip(done),
            forall|j: int| 0 <= j < done ==> left_of(#[trigger] all[j]) is None,
        decreases rest@.len(),
    {
        let report = rest.remove(0);
        proof {
            assert(report == all[done]);
            assert(rest@ =~= all.skip(done + 1));
        }
        match report {
            Report::Stopped(lane) => {
                match lane.run() {
                    Some(p) => {
                        assert(is_first_left(all, done));
                        return Some(p);
                    },
                    None => {},
                }
            },
            _ => {},
        }
        proof {
            done = done + 1;
        }
    }
    None
}

impl Puzzle {
    /// Takes over what the lanes reported. Where a report holds a
    /// solution, the board becomes the solved board that
    /// `publish_reports` leaves in the slot. Where none does, the lanes
    /// that were handed back are run to their end, and the board becomes
    /// what the first of them finds. The whole move list of the solved
    /// board is returned; where nothing was found the board stays as it
    /// was.
    pub fn take_solution(&mut self, reports: Vec<Report>) -> (moves: Option<Vec<Direction>>)
        ensures
            moves matches Some(m) ==> m@ == final(self)@.moves,
            moves is None ==> final(self)@ == old(self)@,
            !none_found(reports@) ==> moves is Some && exists|i: int|
                is_choice(reports@, i) && Some(final(self)@) == find_of(#[trigger] reports@[i]),
            none_found(reports@) ==> {
                &&& moves is None <==> forall|j: int|
                    0 <= j < reports@.len() ==> left_of(#[trigger] reports@[j]) is None
                &&& moves is Some ==> exists|i: int|
                    is_first_left(reports@, i) && Some(final(self)@) == left_of(
                        #[trigger] reports@[i],
                    )
            },
    {
        let found = match publish_reports(&reports).take() {
            Some(winner) => Some(winner),
            None => finish_stopped(reports),
        };
        match found {
            Some(winner) => {
                let moves = copy_moves(winner.moves());
                *self = winner;
                Some(moves)
            },
            None => None,
        }
    }

    /// Searches in `workers` lanes on a pool of threads and returns the
    /// solution of the lane that was the first to announce one. On success
    /// the board becomes the solved board that was found and its whole
    /// move list is returned; otherwise the board stays as it was.
    ///
    /// A solution is returned exactly when one of the lanes finds a
    /// solution when it runs alone, and the solved board is the one that
    /// such a lane finds alone. Which lane is first depends on how the
    /// threads are scheduled, so two calls on one board may return
    /// different solutions.
    pub fn solve_parallel(&mut self, workers: usize, heuristic_threshold: Option<u64>) -> (moves:
        Option<Vec<Direction>>)
        requires
            single_blank(old(self)@.cells),
            old(self)@.g <= MAX_START_COST,
            workers >= 1,
        ensures
            moves is Some <==> some_lane_solves(old(self)@, heuristic_threshold, workers as nat),
            moves matches Some(m) ==> {
                &&& m@ == final(self)@.moves
                &&& found_by_a_lane(
                    old(self)@,
                    heuristic_threshold,
                    workers as nat,
                    final(self)@,
                )
                &&& is_solution(old(self)@, final(self)@)
                &&& within_threshold(old(self)@, final(self)@, heuristic_threshold)
            },
            moves is None ==> final(self)@ == old(self)@,
    {
        let ghost start = self@;
        proof {
            use_type_invariant(&*self);
            assert(well_shaped(start));
        }
        let mut lanes: Vec<Lane> = Vec::new();
        let mut i: usize = 0;
        while i < workers
            invariant
                i <= workers,
                self@ == start,
                single_blank(start.cells),
                start.g <= MAX_START_COST,
                lanes@.len() == i,
                forall|k: int|
                    0 <= k < lanes@.len() ==> (#[trigger] lanes@[k])@ == seeded(
                        start,
                        heuristic_threshold,
                        k,
                        workers as int,
                    ),
            decreases workers - i,
        {
            let lane = Lane::new(self, heuristic_threshold, i, workers);
            lanes.push(lane);
            i += 1;
        }
        let announced = AtomicBool::new(false);
        let reports = run_on_pool(lanes, &announced);
        let ghost told = reports@;
        let moves = self.take_solution(reports);
        proof {
            assert forall|k: int| 0 <= k < workers implies report_of(
                seeded(start, heuristic_threshold, k, workers as int),
                #[trigger] told[k],
            ) by {
                assert(lanes@[k]@ == seeded(start, heuristic_threshold, k, workers as int));
            }
            if moves is Some {
                let by = if !none_found(told) {
                    choose|at: int| is_choice(told, at) && Some(self@) == find_of(#[trigger] told[at])
                } else {
                    choose|at: int|
                        is_first_left(told, at) && Some(self@) == left_of(#[trigger] told[at])
                };
                assert(report_of(seeded(start, heuristic_threshold, by, workers as int), told[by]));
                assert(run_of(seeded(start, heuristic_threshold, by, workers as int)) == Some(
                    self@,
                ));
                lemma_seeded_ok(start, heuristic_threshold, by, workers as int);
                lemma_run_sound(seeded(start, heuristic_threshold, by, workers as int));
            }
            if some_lane_solves(start, heuristic_threshold, workers as nat) {
                let i = choose|i: int|
                    0 <= i < workers && run_of(
                        #[trigger] seeded(start, heuristic_threshold, i, workers as int),
                    ) is Some;
                assert(report_of(seeded(start, heuristic_threshold, i, workers as int), told[i]));
                assert(find_of(told[i]) is Some || left_of(told[i]) is Some);
            }
        }
        moves
    }
}

} // verus!
