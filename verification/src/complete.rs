//! When a search without a threshold finds what there is to find.
//!
//! A lane marks a board as expanded by its content hash, so it can miss a
//! board whose hash is that of another. Where the hash tells apart the
//! boards that legal moves from the start lead to, a lane that ends
//! because nothing waits any more has expanded every board that legal
//! moves lead to from the boards it started with, and none of them has the
//! target's hash. So a board that can be solved is solved, unless the lane
//! gives up for the number of its steps.

use crate::direction::Direction;
use crate::frontier::{dequeued, enqueued, front, least_priority, none_waiting, Waiting};
use crate::grid::{blank_index, can_slide, child, legal_directions, single_blank, well_shaped};
use crate::moves::{lemma_successors_at_blank, successors_of};
use crate::puzzle::{board_hash, PuzzleView};
use crate::search::{
    admit_all,
    deal,
    descends,
    follows,
    is_solution,
    lane_ok,
    lemma_dequeue_ok,
    lemma_descendant,
    lemma_replay,
    lemma_seeded_ok,
    lemma_solved_cells_cost_nothing,
    lemma_step_ok,
    priority_of,
    replay,
    run_of,
    seeded,
    solve_spec,
    step_of,
    waiting_ok,
    LaneView,
    MAX_ITERATIONS,
    MAX_START_COST,
};
use crate::heuristic::heuristic;
use crate::parallel::some_lane_solves;
use crate::target::{lemma_canonical_cells, target_of};
use crate::tile::is_board_symbol;
use crate::turns::{lanes_of, lemma_relay_complete, solve_in_turns_spec};
use vstd::prelude::*;

verus! {

/// Whether two boards have the same grid: the same dimensions and cells.
pub open spec fn same_board(a: PuzzleView, b: PuzzleView) -> bool {
    a.cells == b.cells && a.width == b.width && a.height == b.height
}

/// Whether a board with the grid of `n` waits.
pub open spec fn waits(q: Waiting, n: PuzzleView) -> bool {
    exists|f: int, i: int| 0 <= i < q[f].len() && same_board(#[trigger] q[f][i], n)
}

/// Whether a lane has taken note of the grid of `n`: a board with it
/// waits, or its hash was expanded.
pub open spec fn covered(s: LaneView, n: PuzzleView) -> bool {
    waits(s.waiting, n) || s.visited.contains(board_hash(n.cells))
}

/// Whether the content hash tells apart the boards that legal moves from
/// `start` lead to.
pub open spec fn hash_separates(start: PuzzleView) -> bool {
    forall|a: PuzzleView, b: PuzzleView|
        #![trigger descends(start, a), descends(start, b)]
        descends(start, a) && descends(start, b) && board_hash(a.cells) == board_hash(b.cells)
            ==> a.cells == b.cells
}

/// Whether the lane has taken note of every board one legal move from a
/// board that it has expanded.
pub open spec fn closed(s: LaneView) -> bool {
    forall|n: PuzzleView, d: Direction|
        descends(s.start, n) && s.visited.contains(board_hash(n.cells)) && can_slide(
            n,
            blank_index(n.cells),
            d,
        ) ==> covered(s, #[trigger] child(n, d, 1))
}

/// What holds of a lane without a threshold throughout its search.
pub open spec fn thorough(s: LaneView) -> bool {
    &&& lane_ok(s)
    &&& s.threshold is None
    &&& hash_separates(s.start)
    &&& closed(s)
    &&& !s.visited.contains(board_hash(s.target.cells))
}

/// The state in which a lane ends its run.
pub open spec fn run_end(s: LaneView) -> LaneView
    decreases MAX_ITERATIONS - s.steps,
{
    if s.steps >= MAX_ITERATIONS {
        s
    } else {
        match step_of(s).1 {
            crate::search::OutcomeView::Continue => run_end(step_of(s).0),
            _ => s,
        }
    }
}

/// Whether a lane gives up for the number of its steps.
pub open spec fn capped(s: LaneView) -> bool {
    run_end(s).steps >= MAX_ITERATIONS
}

/// One legal move leads from two boards of one grid to two boards of one
/// grid.
pub proof fn lemma_same_board_child(a: PuzzleView, b: PuzzleView, d: Direction)
    requires
        same_board(a, b),
    ensures
        can_slide(a, blank_index(a.cells), d) == can_slide(b, blank_index(b.cells), d),
        same_board(child(a, d, 1), child(b, d, 1)),
{
}

/// What waits still waits after the next board was served, unless it is
/// the board served.
proof fn lemma_waits_after_dequeue(q: Waiting, n: PuzzleView)
    requires
        q[least_priority(q)].len() > 0,
        waits(q, n),
    ensures
        same_board(front(q), n) || waits(dequeued(q), n),
{
    let m = least_priority(q);
    let rest = dequeued(q);
    let (f, i) = choose|f: int, i: int| 0 <= i < q[f].len() && same_board(#[trigger] q[f][i], n);
    if f == m {
        if i > 0 {
            assert(rest[m][i - 1] == q[m][i]);
            assert(0 <= i - 1 < rest[m].len() && same_board(rest[m][i - 1], n));
        }
    } else {
        assert(rest[f][i] == q[f][i]);
        assert(0 <= i < rest[f].len() && same_board(rest[f][i], n));
    }
}

/// What waits still waits after a board joined, and the board that joined
/// waits.
proof fn lemma_waits_after_enqueue(q: Waiting, f: int, v: PuzzleView, n: PuzzleView)
    ensures
        waits(q, n) ==> waits(enqueued(q, f, v), n),
        waits(enqueued(q, f, v), v),
{
    let joined = enqueued(q, f, v);
    assert(joined[f][q[f].len() as int] == v);
    assert(0 <= q[f].len() < joined[f].len() && same_board(joined[f][q[f].len() as int], v));
    if waits(q, n) {
        let (g, i) = choose|g: int, i: int|
            0 <= i < q[g].len() && same_board(#[trigger] q[g][i], n);
        assert(joined[g][i] == q[g][i]);
        assert(0 <= i < joined[g].len() && same_board(joined[g][i], n));
    }
}

/// Without a threshold, what waits still waits after boards were admitted,
/// and every board admitted waits.
proof fn lemma_waits_after_admit(q: Waiting, kids: Seq<PuzzleView>, target: PuzzleView, n: PuzzleView)
    ensures
        waits(q, n) ==> waits(admit_all(q, kids, target, None), n),
        (exists|k: int| 0 <= k < kids.len() && same_board(#[trigger] kids[k], n)) ==> waits(
            admit_all(q, kids, target, None),
            n,
        ),
    decreases kids.len(),
{
    if kids.len() > 0 {
        let kid = kids.last();
        let joined = enqueued(q, priority_of(kid, target), kid);
        lemma_waits_after_enqueue(q, priority_of(kid, target), kid, n);
        lemma_waits_after_enqueue(q, priority_of(kid, target), kid, kid);
        lemma_waits_after_admit(joined, kids.drop_last(), target, n);
        if exists|k: int| 0 <= k < kids.len() && same_board(#[trigger] kids[k], n) {
            let k = choose|k: int| 0 <= k < kids.len() && same_board(#[trigger] kids[k], n);
            if k == kids.len() - 1 {
                let (g, i) = choose|g: int, i: int|
                    0 <= i < joined[g].len() && same_board(#[trigger] joined[g][i], kid);
                assert(same_board(joined[g][i], n));
                assert(waits(joined, n));
            } else {
                assert(kids.drop_last()[k] == kids[k]);
                assert(0 <= k < kids.drop_last().len() && same_board(kids.drop_last()[k], n));
            }
        }
    }
}

/// Every board one legal move from a board is among its successors.
proof fn lemma_child_is_successor(n: PuzzleView, d: Direction)
    requires
        can_slide(n, blank_index(n.cells), d),
    ensures
        exists|k: int|
            0 <= k < successors_of(n, blank_index(n.cells), 1).len() && #[trigger] successors_of(
                n,
                blank_index(n.cells),
                1,
            )[k] == child(n, d, 1),
{
    let at = blank_index(n.cells);
    let dirs = legal_directions(n, at);
    crate::grid::lemma_legal_directions(n, at, d);
    lemma_successors_at_blank(n, 1);
    let j = choose|j: int| 0 <= j < dirs.len() && dirs[j] == d;
    assert(successors_of(n, at, 1)[j] == child(n, d, 1));
}

/// A step that does not end the search keeps a lane thorough, and the
/// lane keeps note of what it had taken note of.
pub proof fn lemma_step_thorough(s: LaneView)
    requires
        thorough(s),
        step_of(s).1 is Continue,
    ensures
        thorough(step_of(s).0),
        forall|n: PuzzleView| covered(s, n) ==> #[trigger] covered(step_of(s).0, n),
{
    lemma_step_ok(s);
    let next = step_of(s).0;
    let q = s.waiting;
    assert(waiting_ok(s, q));
    lemma_dequeue_ok(s, q);
    let node = front(q);
    let rest = dequeued(q);
    let hash = board_hash(node.cells);
    let kids = successors_of(node, blank_index(node.cells), 1);
    let expands = !s.visited.contains(hash);
    assert forall|n: PuzzleView| covered(s, n) implies #[trigger] covered(next, n) by {
        if waits(q, n) {
            lemma_waits_after_dequeue(q, n);
            if waits(rest, n) {
                if expands {
                    lemma_waits_after_admit(rest, kids, s.target, n);
                }
            }
        }
    }
    assert forall|n: PuzzleView, d: Direction|
        descends(next.start, n) && next.visited.contains(board_hash(n.cells)) && can_slide(
            n,
            blank_index(n.cells),
            d,
        ) implies covered(next, #[trigger] child(n, d, 1)) by {
        if s.visited.contains(board_hash(n.cells)) {
            assert(covered(s, child(n, d, 1)));
        } else {
            assert(board_hash(n.cells) == hash);
            assert(descends(s.start, node));
            assert(n.cells == node.cells);
            lemma_descendant(s.start, n);
            lemma_descendant(s.start, node);
            lemma_same_board_child(n, node, d);
            lemma_child_is_successor(node, d);
            let k = choose|k: int| 0 <= k < kids.len() && #[trigger] kids[k] == child(node, d, 1);
            assert(same_board(kids[k], child(n, d, 1)));
            lemma_waits_after_admit(rest, kids, s.target, child(n, d, 1));
        }
    }
}

/// A run keeps a lane thorough, the lane keeps note of what it had taken
/// note of, and where the run ends without a solution and not for the
/// number of its steps, nothing waits at its end.
pub proof fn lemma_run_thorough(s: LaneView)
    requires
        thorough(s),
    ensures
        thorough(run_end(s)),
        run_end(s).start == s.start,
        run_end(s).target == s.target,
        forall|n: PuzzleView| covered(s, n) ==> #[trigger] covered(run_end(s), n),
        run_of(s) is None && !capped(s) ==> none_waiting(run_end(s).waiting),
    decreases MAX_ITERATIONS - s.steps,
{
    if s.steps < MAX_ITERATIONS {
        if step_of(s).1 is Continue {
            let next = step_of(s).0;
            lemma_step_ok(s);
            lemma_step_thorough(s);
            lemma_run_thorough(next);
            assert forall|n: PuzzleView| covered(s, n) implies #[trigger] covered(
                run_end(s),
                n,
            ) by {
                assert(covered(next, n));
            }
        }
    }
}

/// The moves of a legal path are legal up to any point, each leads from
/// the board that the moves before it lead to, and every board on the way
/// descends from the start.
pub proof fn lemma_follows_prefix(start: PuzzleView, path: Seq<Direction>, k: int)
    requires
        well_shaped(start),
        single_blank(start.cells),
        follows(start, path),
        0 <= k <= path.len(),
    ensures
        follows(start, path.take(k)),
        k >= 1 ==> {
            &&& descends(start, replay(start, path.take(k)))
            &&& can_slide(
                replay(start, path.take(k - 1)),
                blank_index(replay(start, path.take(k - 1)).cells),
                path[k - 1],
            )
            &&& replay(start, path.take(k)) == child(
                replay(start, path.take(k - 1)),
                path[k - 1],
                1,
            )
        },
    decreases path.len() - k,
{
    if k == path.len() {
        assert(path.take(k) =~= path);
    } else {
        lemma_follows_prefix(start, path, k + 1);
        assert(path.take(k + 1).drop_last() =~= path.take(k));
    }
    if k >= 1 {
        let upto = path.take(k);
        assert(upto.drop_last() =~= path.take(k - 1));
        assert(upto.last() == path[k - 1]);
        lemma_replay(start, upto);
        let n = replay(start, upto);
        assert(crate::search::path_from(start, n) =~= upto);
    }
}

/// Where nothing waits in a thorough lane, every board on a legal path
/// whose first board the lane has taken note of was expanded.
proof fn lemma_all_expanded(e: LaneView, path: Seq<Direction>, k: int)
    requires
        thorough(e),
        none_waiting(e.waiting),
        follows(e.start, path),
        1 <= k <= path.len(),
        covered(e, replay(e.start, path.take(1))),
    ensures
        e.visited.contains(board_hash(replay(e.start, path.take(k)).cells)),
    decreases k,
{
    let here = replay(e.start, path.take(k));
    lemma_follows_prefix(e.start, path, k);
    if k > 1 {
        lemma_all_expanded(e, path, k - 1);
        lemma_follows_prefix(e.start, path, k - 1);
        let before = replay(e.start, path.take(k - 1));
        assert(covered(e, child(before, path[k - 1], 1)));
    }
    assert(covered(e, here));
    if waits(e.waiting, here) {
        let (f, i) = choose|f: int, i: int|
            0 <= i < e.waiting[f].len() && same_board(#[trigger] e.waiting[f][i], here);
        assert(e.waiting[f].len() == 0);
    }
}

/// A thorough lane that does not give up for the number of its steps
/// finds a solution, where legal moves lead from a board that it has
/// taken note of to a board with the target's content hash.
pub proof fn lemma_lane_complete(s: LaneView, path: Seq<Direction>)
    requires
        thorough(s),
        !capped(s),
        path.len() >= 1,
        follows(s.start, path),
        covered(s, replay(s.start, path.take(1))),
        board_hash(replay(s.start, path).cells) == board_hash(s.target.cells),
    ensures
        run_of(s) is Some,
{
    lemma_run_thorough(s);
    if run_of(s) is None {
        let e = run_end(s);
        lemma_all_expanded(e, path, path.len() as int);
        assert(path.take(path.len() as int) =~= path);
    }
}

/// What waits still waits after boards were dealt out, and a board dealt
/// to the lane waits.
proof fn lemma_waits_after_deal(
    q: Waiting,
    kids: Seq<PuzzleView>,
    total: int,
    target: PuzzleView,
    lane: int,
    lanes: int,
    n: PuzzleView,
)
    ensures
        waits(q, n) ==> waits(deal(q, kids, total, target, lane, lanes), n),
        (exists|k: int|
            0 <= k < kids.len() && (total - (k + 1)) % lanes == lane && same_board(
                #[trigger] kids[k],
                n,
            )) ==> waits(deal(q, kids, total, target, lane, lanes), n),
    decreases kids.len(),
{
    if kids.len() > 0 {
        let kid = kids.last();
        let turn = total - kids.len();
        let joined = if turn % lanes == lane {
            enqueued(q, priority_of(kid, target), kid)
        } else {
            q
        };
        lemma_waits_after_enqueue(q, priority_of(kid, target), kid, n);
        lemma_waits_after_enqueue(q, priority_of(kid, target), kid, kid);
        lemma_waits_after_deal(joined, kids.drop_last(), total, target, lane, lanes, n);
        if exists|k: int|
            0 <= k < kids.len() && (total - (k + 1)) % lanes == lane && same_board(
                #[trigger] kids[k],
                n,
            ) {
            let k = choose|k: int|
                0 <= k < kids.len() && (total - (k + 1)) % lanes == lane && same_board(
                    #[trigger] kids[k],
                    n,
                );
            if k == kids.len() - 1 {
                let (g, i) = choose|g: int, i: int|
                    0 <= i < joined[g].len() && same_board(#[trigger] joined[g][i], kid);
                assert(same_board(joined[g][i], n));
                assert(waits(joined, n));
            } else {
                assert(kids.drop_last()[k] == kids[k]);
                assert(0 <= k < kids.drop_last().len() && (total - (k + 1)) % lanes == lane
                    && same_board(kids.drop_last()[k], n));
            }
        }
    }
}

/// The lanes of a search without a threshold start thorough, and every
/// board one legal move from the start waits in one of them.
pub proof fn lemma_seeded_thorough(start: PuzzleView, lanes: int, d: Direction)
    requires
        well_shaped(start),
        single_blank(start.cells),
        start.g <= MAX_START_COST,
        hash_separates(start),
        lanes >= 1,
    ensures
        forall|i: int| 0 <= i < lanes ==> thorough(#[trigger] seeded(start, None, i, lanes)),
        can_slide(start, blank_index(start.cells), d) ==> exists|i: int|
            0 <= i < lanes && covered(#[trigger] seeded(start, None, i, lanes), child(start, d, 1)),
{
    assert forall|i: int| 0 <= i < lanes implies thorough(#[trigger] seeded(start, None, i, lanes)) by {
        lemma_seeded_ok(start, None, i, lanes);
    }
    if can_slide(start, blank_index(start.cells), d) {
        let kids = successors_of(start, blank_index(start.cells), 1);
        let total = kids.len() as int;
        lemma_child_is_successor(start, d);
        let k = choose|k: int| 0 <= k < kids.len() && #[trigger] kids[k] == child(start, d, 1);
        let i = (total - (k + 1)) % lanes;
        assert(0 <= i < lanes) by (nonlinear_arith)
            requires
                i == (total - (k + 1)) % lanes,
                total - (k + 1) >= 0,
                lanes >= 1,
        ;
        assert(same_board(kids[k], child(start, d, 1)));
        lemma_waits_after_deal(
            crate::frontier::nothing_waiting(),
            kids,
            total,
            target_of(start),
            i,
            lanes,
            child(start, d, 1),
        );
        assert(covered(seeded(start, None, i, lanes), child(start, d, 1)));
    }
}

/// For a board that legal moves solve, whatever the number of lanes, one
/// of the lanes of a search without a threshold finds a solution when it
/// runs alone, provided that the content hash tells apart the boards that
/// legal moves lead to and that no lane gives up for the number of its
/// steps.
pub proof fn lemma_some_lane_complete(start: PuzzleView, lanes: int, n: PuzzleView)
    requires
        well_shaped(start),
        single_blank(start.cells),
        start.g <= MAX_START_COST,
        hash_separates(start),
        lanes >= 1,
        is_solution(start, n),
        forall|i: int| 0 <= i < lanes ==> !capped(#[trigger] seeded(start, None, i, lanes)),
    ensures
        exists|i: int| 0 <= i < lanes && run_of(#[trigger] seeded(start, None, i, lanes)) is Some,
{
    let path = crate::search::path_from(start, n);
    lemma_follows_prefix(start, path, 1);
    assert(path.take(0) =~= Seq::<Direction>::empty());
    assert(replay(start, path.take(0)) == start);
    lemma_seeded_thorough(start, lanes, path[0]);
    let i = choose|i: int|
        0 <= i < lanes && covered(#[trigger] seeded(start, None, i, lanes), child(start, path[0], 1));
    lemma_lane_complete(seeded(start, None, i, lanes), path);
}

/// The sequential search without a threshold solves every board that
/// legal moves solve, provided that the content hash tells apart the
/// boards that legal moves lead to and that the search does not give up
/// for the number of its steps.
pub proof fn lemma_solve_complete(start: PuzzleView, n: PuzzleView)
    requires
        well_shaped(start),
        single_blank(start.cells),
        start.g <= MAX_START_COST,
        hash_separates(start),
        is_solution(start, n),
        !capped(seeded(start, None, 0, 1)),
    ensures
        solve_spec(start, None) is Some,
{
    lemma_some_lane_complete(start, 1, n);
}

/// The search in lanes on a pool of threads, without a threshold, solves
/// every board that legal moves solve, under the same provisos: by its
/// contract it returns a solution exactly when some lane finds one when
/// it runs alone.
pub proof fn lemma_parallel_complete(start: PuzzleView, workers: nat, n: PuzzleView)
    requires
        well_shaped(start),
        single_blank(start.cells),
        start.g <= MAX_START_COST,
        hash_separates(start),
        workers >= 1,
        is_solution(start, n),
        forall|i: int|
            0 <= i < workers ==> !capped(#[trigger] seeded(start, None, i, workers as int)),
    ensures
        some_lane_solves(start, None, workers),
{
    lemma_some_lane_complete(start, workers as int, n);
}

/// The search in lanes that step in turn, without a threshold, solves
/// every board that legal moves solve, under the same provisos.
pub proof fn lemma_in_turns_complete(start: PuzzleView, workers: nat, n: PuzzleView)
    requires
        well_shaped(start),
        single_blank(start.cells),
        start.g <= MAX_START_COST,
        hash_separates(start),
        workers >= 1,
        is_solution(start, n),
        forall|i: int|
            0 <= i < workers ==> !capped(#[trigger] seeded(start, None, i, workers as int)),
    ensures
        solve_in_turns_spec(start, None, workers) is Some,
{
    lemma_some_lane_complete(start, workers as int, n);
    let i = choose|i: int|
        0 <= i < workers && run_of(#[trigger] seeded(start, None, i, workers as int)) is Some;
    let live = lanes_of(start, None, workers);
    assert(live[i] == seeded(start, None, i, workers as int));
    lemma_relay_complete(live, i);
}

/// Whether only boards with the cells of the solved layout of `start`
/// have its content hash, among the boards that legal moves from `start`
/// lead to.
pub open spec fn hash_marks_target(start: PuzzleView) -> bool {
    forall|a: PuzzleView| #[trigger]
        descends(start, a) && board_hash(a.cells) == board_hash(target_of(start).cells)
            ==> a.cells == target_of(start).cells
}

/// Where the content hash of the solved layout marks that layout, a
/// solution of a board of symbols of the board alphabet has the cells of
/// the solved layout, and its heuristic value against it is zero.
pub proof fn lemma_solution_costs_nothing(start: PuzzleView, n: PuzzleView)
    requires
        well_shaped(start),
        single_blank(start.cells),
        forall|i: int| 0 <= i < start.cells.len() ==> is_board_symbol(#[trigger] start.cells[i]),
        hash_marks_target(start),
        is_solution(start, n),
    ensures
        n.cells == target_of(start).cells,
        heuristic(n, target_of(start)) == 0,
{
    let t = target_of(start);
    lemma_descendant(start, n);
    lemma_canonical_cells(start.cells);
    assert forall|i: int| 0 <= i < n.cells.len() implies is_board_symbol(#[trigger] n.cells[i]) by {
        assert(t.cells.contains(t.cells[i]));
        assert(start.cells.contains(t.cells[i]));
        let k = choose|k: int| 0 <= k < start.cells.len() && start.cells[k] == t.cells[i];
        assert(is_board_symbol(start.cells[k]));
    }
    lemma_solved_cells_cost_nothing(start, n);
}

} // verus!
