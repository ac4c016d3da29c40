//! Best-first search from a board to its solved layout.
//!
//! A lane holds a frontier and the set of hashes it has expanded. One step
//! serves the waiting board of least priority `g + h`; a board whose
//! content hash is the target's ends the search, any other board is
//! expanded unless its hash was expanded before. A successor joins the
//! frontier when its priority is below the threshold, if there is one. The
//! boards that seed a lane join it whatever their priority.

use crate::direction::Direction;
use crate::frontier::{
    dequeued,
    enqueued,
    front,
    is_least_priority,
    least_priority,
    none_waiting,
    nothing_waiting,
    Waiting,
};
use crate::grid::{
    blank_index,
    can_slide,
    child,
    has_blank,
    lemma_slide_moves_blank,
    single_blank,
    slide,
    well_shaped,
};
use crate::heuristic::{comparable, heuristic, lemma_comparable_with_target};
use crate::moves::{children, successors_of};
use crate::puzzle::{board_hash, PuzzleView};
use crate::target::target_of;
use vstd::prelude::*;

verus! {

/// The number of steps after which a lane gives up.
pub const MAX_ITERATIONS: u64 = 1_000_000_000;

/// The highest path cost from which a search may start, so that no cost
/// computed on the way exceeds 32 bits.
pub const MAX_START_COST: u32 = 3_294_967_294;

/// Whether a priority is admitted under a threshold: always where there is
/// none, else where it is below it.
pub open spec fn passes(f: int, threshold: Option<u64>) -> bool {
    match threshold {
        None => true,
        Some(t) => f < t,
    }
}

/// Whether every move of `path` is legal when the moves are made in order
/// from `start`.
pub open spec fn follows(start: PuzzleView, path: Seq<Direction>) -> bool
    decreases path.len(),
{
    if path.len() == 0 {
        true
    } else {
        let before = replay(start, path.drop_last());
        follows(start, path.drop_last()) && can_slide(
            before,
            blank_index(before.cells),
            path.last(),
        )
    }
}

/// The board that the moves of `path`, made in order from `start`, lead
/// to. Each move costs one.
pub open spec fn replay(start: PuzzleView, path: Seq<Direction>) -> PuzzleView
    decreases path.len(),
{
    if path.len() == 0 {
        start
    } else {
        child(replay(start, path.drop_last()), path.last(), 1)
    }
}

/// The moves that `n` records beyond those of `start`.
pub open spec fn path_from(start: PuzzleView, n: PuzzleView) -> Seq<Direction> {
    n.moves.skip(start.moves.len() as int)
}

/// Whether `n` is what at least one legal move from `start` leads to, as
/// its own move list tells.
pub open spec fn descends(start: PuzzleView, n: PuzzleView) -> bool {
    &&& n.moves.len() > start.moves.len()
    &&& follows(start, path_from(start, n))
    &&& replay(start, path_from(start, n)) == n
}

/// Whether `n` solves `start`: legal moves from `start` lead to it, and
/// its content hash is that of the solved layout of `start`.
pub open spec fn is_solution(start: PuzzleView, n: PuzzleView) -> bool {
    &&& descends(start, n)
    &&& board_hash(n.cells) == board_hash(target_of(start).cells)
}

/// The priority of a board in a search for `target`.
pub open spec fn priority_of(n: PuzzleView, target: PuzzleView) -> int {
    n.g + heuristic(n, target)
}

/// Whether a board respects the threshold of a search from `start`: it is
/// one move from `start`, or its priority is admitted.
pub open spec fn within_threshold(
    start: PuzzleView,
    n: PuzzleView,
    threshold: Option<u64>,
) -> bool {
    n.moves.len() == start.moves.len() + 1 || passes(
        priority_of(n, target_of(start)),
        threshold,
    )
}

/// The state of a lane.
pub struct LaneView {
    /// The board that the search started from.
    pub start: PuzzleView,
    /// The layout that the search looks for.
    pub target: PuzzleView,
    /// The bound on the priority of a board that joins the frontier.
    pub threshold: Option<u64>,
    /// The frontier.
    pub waiting: Waiting,
    /// The hashes of the boards that were expanded.
    pub visited: Set<u64>,
    /// The number of steps made.
    pub steps: nat,
}

/// How a step ended.
pub enum OutcomeView {
    /// Nothing waits, or the lane has made all the steps it may make.
    Exhausted,
    /// The board served has the target's content hash.
    Solved(PuzzleView),
    /// The search goes on.
    Continue,
}

/// The frontier after the boards `kids` joined it, the last of them first,
/// each with its priority, leaving out those that the threshold refuses.
pub open spec fn admit_all(
    q: Waiting,
    kids: Seq<PuzzleView>,
    target: PuzzleView,
    threshold: Option<u64>,
) -> Waiting
    decreases kids.len(),
{
    if kids.len() == 0 {
        q
    } else {
        let kid = kids.last();
        let f = priority_of(kid, target);
        let joined = if passes(f, threshold) {
            enqueued(q, f, kid)
        } else {
            q
        };
        admit_all(joined, kids.drop_last(), target, threshold)
    }
}

/// The frontier after the share of lane `lane` out of `lanes` of the
/// boards `kids` joined it. The boards are dealt out the last of them
/// first; the board dealt at turn `t`, counted from zero over all `total`
/// boards, goes to lane `t % lanes`.
pub open spec fn deal(
    q: Waiting,
    kids: Seq<PuzzleView>,
    total: int,
    target: PuzzleView,
    lane: int,
    lanes: int,
) -> Waiting
    decreases kids.len(),
{
    if kids.len() == 0 {
        q
    } else {
        let kid = kids.last();
        let turn = total - kids.len();
        let joined = if turn % lanes == lane {
            enqueued(q, priority_of(kid, target), kid)
        } else {
            q
        };
        deal(joined, kids.drop_last(), total, target, lane, lanes)
    }
}

/// The state in which lane `lane` out of `lanes` starts a search from
/// `start`: its share of the successors of `start` waits, nothing was
/// expanded.
pub open spec fn seeded(
    start: PuzzleView,
    threshold: Option<u64>,
    lane: int,
    lanes: int,
) -> LaneView {
    let kids = successors_of(start, blank_index(start.cells), 1);
    LaneView {
        start,
        target: target_of(start),
        threshold,
        waiting: deal(
            nothing_waiting(),
            kids,
            kids.len() as int,
            target_of(start),
            lane,
            lanes,
        ),
        visited: Set::empty(),
        steps: 0,
    }
}

/// One step of a lane: the state after it and how it ended.
pub open spec fn step_of(s: LaneView) -> (LaneView, OutcomeView) {
    if s.steps >= MAX_ITERATIONS || none_waiting(s.waiting) {
        (s, OutcomeView::Exhausted)
    } else {
        let node = front(s.waiting);
        let rest = dequeued(s.waiting);
        let hash = board_hash(node.cells);
        if hash == board_hash(s.target.cells) {
            (
                LaneView {
                    start: s.start,
                    target: s.target,
                    threshold: s.threshold,
                    waiting: rest,
                    visited: s.visited,
                    steps: s.steps + 1,
                },
                OutcomeView::Solved(node),
            )
        } else if s.visited.contains(hash) {
            (
                LaneView {
                    start: s.start,
                    target: s.target,
                    threshold: s.threshold,
                    waiting: rest,
                    visited: s.visited,
                    steps: s.steps + 1,
                },
                OutcomeView::Continue,
            )
        } else {
            (
                LaneView {
                    start: s.start,
                    target: s.target,
                    threshold: s.threshold,
                    waiting: admit_all(
                        rest,
                        successors_of(node, blank_index(node.cells), 1),
                        s.target,
                        s.threshold,
                    ),
                    visited: s.visited.insert(hash),
                    steps: s.steps + 1,
                },
                OutcomeView::Continue,
            )
        }
    }
}

/// What a lane finds when it steps until a step ends the search.
pub open spec fn run_of(s: LaneView) -> Option<PuzzleView>
    decreases MAX_ITERATIONS - s.steps,
{
    if s.steps >= MAX_ITERATIONS {
        None
    } else {
        match step_of(s).1 {
            OutcomeView::Exhausted => None,
            OutcomeView::Solved(n) => Some(n),
            OutcomeView::Continue => run_of(step_of(s).0),
        }
    }
}

/// What the sequential search from `start` finds: the result of a single
/// lane that was seeded with all successors of `start`.
pub open spec fn solve_spec(start: PuzzleView, threshold: Option<u64>) -> Option<PuzzleView> {
    run_of(seeded(start, threshold, 0, 1))
}

/// What holds of a board that waits with priority `f`.
pub open spec fn node_ok(s: LaneView, f: int, n: PuzzleView) -> bool {
    &&& descends(s.start, n)
    &&& n.moves.len() <= s.start.moves.len() + s.steps + 1
    &&& f == priority_of(n, s.target)
    &&& within_threshold(s.start, n, s.threshold)
}

/// The invariant of a lane.
pub open spec fn lane_ok(s: LaneView) -> bool {
    &&& well_shaped(s.start)
    &&& single_blank(s.start.cells)
    &&& s.target == target_of(s.start)
    &&& s.start.g <= MAX_START_COST
    &&& s.steps <= MAX_ITERATIONS
    &&& forall|f: int, i: int|
        0 <= i < s.waiting[f].len() ==> node_ok(s, f, #[trigger] s.waiting[f][i])
}

/// Legal moves keep the shape of a board, its single blank and its
/// symbols, and each adds one to the path cost and to the move list.
pub proof fn lemma_replay(start: PuzzleView, path: Seq<Direction>)
    requires
        well_shaped(start),
        single_blank(start.cells),
        follows(start, path),
    ensures
        replay(start, path).width == start.width,
        replay(start, path).height == start.height,
        well_shaped(replay(start, path)),
        single_blank(replay(start, path).cells),
        replay(start, path).cells.len() == start.cells.len(),
        forall|i: int|
            0 <= i < start.cells.len() ==> start.cells.contains(
                #[trigger] replay(start, path).cells[i],
            ),
        replay(start, path).moves == start.moves + path,
        replay(start, path).g == start.g + path.len(),
    decreases path.len(),
{
    if path.len() == 0 {
        assert(start.moves + path =~= start.moves);
    } else {
        let front = path.drop_last();
        let before = replay(start, front);
        let d = path.last();
        lemma_replay(start, front);
        lemma_slide_moves_blank(before, d);
        let at = blank_index(before.cells);
        crate::seqs::lemma_first_occurrence_exists(before.cells, '0');
        crate::grid::lemma_slide_by_index(before.width, before.height, at, d);
        let after = replay(start, path);
        assert(after.cells == slide(before, d).cells);
        assert forall|i: int| 0 <= i < start.cells.len() implies start.cells.contains(
            #[trigger] after.cells[i],
        ) by {
            let to = crate::grid::slide_target(before.width, at, d);
            if i == at {
                assert(after.cells[i] == before.cells[to]);
            } else if i == to {
                assert(after.cells[i] == before.cells[at]);
            } else {
                assert(after.cells[i] == before.cells[i]);
            }
        }
        assert(after.moves =~= start.moves + path);
    }
}

/// A legal move from a board that descends from `start` leads to a board
/// that descends from `start`.
pub proof fn lemma_child_descends(start: PuzzleView, n: PuzzleView, d: Direction)
    requires
        well_shaped(start),
        single_blank(start.cells),
        descends(start, n) || n == start,
        can_slide(n, blank_index(n.cells), d),
    ensures
        descends(start, child(n, d, 1)),
        path_from(start, child(n, d, 1)) == path_from(start, n).push(d),
{
    let path = path_from(start, n);
    let kid = child(n, d, 1);
    if n == start {
        assert(path =~= Seq::<Direction>::empty());
    }
    lemma_replay(start, path);
    assert(n.moves == start.moves + path);
    let longer = path.push(d);
    assert(path_from(start, kid) =~= longer);
    assert(longer.drop_last() =~= path);
    assert(replay(start, path) == n);
    assert(follows(start, longer));
    assert(replay(start, longer) == kid);
}

/// Every successor of a board is what one legal move of its blank leads
/// to.
pub proof fn lemma_children(v: PuzzleView, dirs: Seq<Direction>, step: nat, k: int)
    requires
        0 <= k < children(v, dirs, step).len(),
    ensures
        exists|d: Direction|
            can_slide(v, blank_index(v.cells), d) && children(v, dirs, step)[k] == child(
                v,
                d,
                step,
            ),
        children(v, dirs, step).len() <= dirs.len(),
    decreases dirs.len(),
{
    lemma_children_len(v, dirs, step);
    if dirs.len() > 0 {
        let before = children(v, dirs.drop_last(), step);
        lemma_children_len(v, dirs.drop_last(), step);
        if k < before.len() {
            lemma_children(v, dirs.drop_last(), step, k);
        } else {
            assert(can_slide(v, blank_index(v.cells), dirs.last()));
            assert(children(v, dirs, step)[k] == child(v, dirs.last(), step));
        }
    }
}

/// There are no more successors than directions tried.
pub proof fn lemma_children_len(v: PuzzleView, dirs: Seq<Direction>, step: nat)
    ensures
        children(v, dirs, step).len() <= dirs.len(),
    decreases dirs.len(),
{
    if dirs.len() > 0 {
        lemma_children_len(v, dirs.drop_last(), step);
    }
}

/// No cost is negative.
pub proof fn lemma_heuristic_nonnegative(v: PuzzleView, target: PuzzleView, n: int)
    ensures
        crate::heuristic::distance_sum(v.cells, v.width, target.cells, n) >= 0,
    decreases n,
{
    if n > 0 {
        lemma_heuristic_nonnegative(v, target, n - 1);
    }
}

/// Whether every waiting board of `q` is in order for the lane state `s`.
pub open spec fn waiting_ok(s: LaneView, q: Waiting) -> bool {
    forall|f: int, i: int| 0 <= i < q[f].len() ==> node_ok(s, f, #[trigger] q[f][i])
}

/// Among priorities that are not negative, one with which something waits
/// at or below `f` entails a least one.
proof fn lemma_least_exists(q: Waiting, f: int)
    requires
        forall|k: int| k < 0 ==> (#[trigger] q[k]).len() == 0,
        exists|k: int| k <= f && (#[trigger] q[k]).len() > 0,
    ensures
        exists|m: int| is_least_priority(q, m),
    decreases f,
{
    if f < 0 {
        let k = choose|k: int| k <= f && (#[trigger] q[k]).len() > 0;
        assert(q[k].len() == 0);
    } else if exists|k: int| k <= f - 1 && (#[trigger] q[k]).len() > 0 {
        lemma_least_exists(q, f - 1);
    } else {
        let k = choose|k: int| k <= f && (#[trigger] q[k]).len() > 0;
        assert(k == f);
        assert forall|j: int| j < f implies (#[trigger] q[j]).len() == 0 by {
            if q[j].len() > 0 {
                assert(j <= f - 1 && q[j].len() > 0);
            }
        }
        assert(is_least_priority(q, f));
    }
}

/// Where boards in order wait, there is a least priority, the board served
/// next is in order, and so are those that stay.
pub proof fn lemma_dequeue_ok(s: LaneView, q: Waiting)
    requires
        waiting_ok(s, q),
        !none_waiting(q),
    ensures
        is_least_priority(q, least_priority(q)),
        node_ok(s, least_priority(q), front(q)),
        waiting_ok(s, dequeued(q)),
{
    let f0 = choose|f: int| (#[trigger] q[f]).len() > 0;
    assert forall|k: int| k < 0 implies (#[trigger] q[k]).len() == 0 by {
        if q[k].len() > 0 {
            let n = q[k][0];
            assert(node_ok(s, k, n));
            lemma_heuristic_nonnegative(n, s.target, n.cells.len() as int);
        }
    }
    lemma_least_exists(q, f0);
    let m = least_priority(q);
    assert(node_ok(s, m, q[m][0]));
    let rest = dequeued(q);
    assert forall|f: int, i: int| 0 <= i < rest[f].len() implies node_ok(
        s,
        f,
        #[trigger] rest[f][i],
    ) by {
        if f == m {
            assert(rest[f][i] == q[m][i + 1]);
        } else {
            assert(rest[f][i] == q[f][i]);
        }
    }
}

/// A board in order may join boards in order.
pub proof fn lemma_enqueue_ok(s: LaneView, q: Waiting, f: int, n: PuzzleView)
    requires
        waiting_ok(s, q),
        node_ok(s, f, n),
    ensures
        waiting_ok(s, enqueued(q, f, n)),
{
    let joined = enqueued(q, f, n);
    assert forall|k: int, i: int| 0 <= i < joined[k].len() implies node_ok(
        s,
        k,
        #[trigger] joined[k][i],
    ) by {
        if k == f {
            if i < q[f].len() {
                assert(joined[k][i] == q[f][i]);
            }
        } else {
            assert(joined[k][i] == q[k][i]);
        }
    }
}

/// Whether `kid` descends from the start of `s` by no more moves than a
/// board may have that joins the frontier of `s`.
pub open spec fn joins(s: LaneView, kid: PuzzleView) -> bool {
    descends(s.start, kid) && kid.moves.len() <= s.start.moves.len() + s.steps + 1
}

/// Admitting successors keeps the frontier in order.
pub proof fn lemma_admit_all_ok(s: LaneView, q: Waiting, kids: Seq<PuzzleView>)
    requires
        waiting_ok(s, q),
        forall|k: int| 0 <= k < kids.len() ==> joins(s, #[trigger] kids[k]),
        s.target == target_of(s.start),
    ensures
        waiting_ok(s, admit_all(q, kids, s.target, s.threshold)),
    decreases kids.len(),
{
    if kids.len() > 0 {
        let kid = kids.last();
        let f = priority_of(kid, s.target);
        assert(joins(s, kids[kids.len() - 1]));
        let joined = if passes(f, s.threshold) {
            enqueued(q, f, kid)
        } else {
            q
        };
        if passes(f, s.threshold) {
            lemma_enqueue_ok(s, q, f, kid);
        }
        assert forall|k: int| 0 <= k < kids.drop_last().len() implies joins(
            s,
            #[trigger] kids.drop_last()[k],
        ) by {
            assert(kids.drop_last()[k] == kids[k]);
        }
        lemma_admit_all_ok(s, joined, kids.drop_last());
    }
}

/// Dealing out boards that are one move from the start keeps the frontier
/// in order.
pub proof fn lemma_deal_ok(
    s: LaneView,
    q: Waiting,
    kids: Seq<PuzzleView>,
    total: int,
    lane: int,
    lanes: int,
)
    requires
        waiting_ok(s, q),
        forall|k: int|
            0 <= k < kids.len() ==> descends(s.start, #[trigger] kids[k]) && kids[k].moves.len()
                == s.start.moves.len() + 1,
        s.target == target_of(s.start),
    ensures
        waiting_ok(s, deal(q, kids, total, s.target, lane, lanes)),
    decreases kids.len(),
{
    if kids.len() > 0 {
        let kid = kids.last();
        let f = priority_of(kid, s.target);
        let turn = total - kids.len();
        assert(descends(s.start, kids[kids.len() - 1]));
        let joined = if turn % lanes == lane {
            enqueued(q, f, kid)
        } else {
            q
        };
        if turn % lanes == lane {
            lemma_enqueue_ok(s, q, f, kid);
        }
        assert forall|k: int| 0 <= k < kids.drop_last().len() implies descends(
            s.start,
            #[trigger] kids.drop_last()[k],
        ) && kids.drop_last()[k].moves.len() == s.start.moves.len() + 1 by {
            assert(kids.drop_last()[k] == kids[k]);
        }
        lemma_deal_ok(s, joined, kids.drop_last(), total, lane, lanes);
    }
}

/// The successors of a board that is the start of `s`, or descends from it
/// by at most `s.steps` moves, may join the frontier of `s`.
pub proof fn lemma_successors_join(s: LaneView, n: PuzzleView)
    requires
        well_shaped(s.start),
        single_blank(s.start.cells),
        n == s.start || (descends(s.start, n) && n.moves.len() <= s.start.moves.len()
            + s.steps),
    ensures
        forall|k: int|
            0 <= k < successors_of(n, blank_index(n.cells), 1).len() ==> {
                &&& joins(s, #[trigger] successors_of(n, blank_index(n.cells), 1)[k])
                &&& successors_of(n, blank_index(n.cells), 1)[k].moves.len() == n.moves.len()
                    + 1
            },
{
    let kids = successors_of(n, blank_index(n.cells), 1);
    let dirs = crate::grid::legal_directions(n, blank_index(n.cells));
    assert forall|k: int| 0 <= k < kids.len() implies joins(s, #[trigger] kids[k])
        && kids[k].moves.len() == n.moves.len() + 1 by {
        lemma_children(n, dirs, 1, k);
        let d = choose|d: Direction|
            can_slide(n, blank_index(n.cells), d) && kids[k] == child(n, d, 1);
        lemma_child_descends(s.start, n, d);
    }
}

/// A step keeps the invariant of a lane, and a board that it reports as
/// solved is a solution that respects the threshold.
pub proof fn lemma_step_ok(s: LaneView)
    requires
        lane_ok(s),
    ensures
        lane_ok(step_of(s).0),
        step_of(s).1 matches OutcomeView::Solved(n) ==> is_solution(s.start, n)
            && within_threshold(s.start, n, s.threshold),
        step_of(s).1 is Continue ==> step_of(s).0.steps == s.steps + 1,
        step_of(s).0.start == s.start,
        step_of(s).0.threshold == s.threshold,
{
    if !(s.steps >= MAX_ITERATIONS || none_waiting(s.waiting)) {
        assert(waiting_ok(s, s.waiting));
        lemma_dequeue_ok(s, s.waiting);
        let node = front(s.waiting);
        let rest = dequeued(s.waiting);
        let next = step_of(s).0;
        let later = LaneView {
            start: s.start,
            target: s.target,
            threshold: s.threshold,
            waiting: rest,
            visited: s.visited,
            steps: s.steps + 1,
        };
        assert(waiting_ok(later, rest)) by {
            assert forall|f: int, i: int| 0 <= i < rest[f].len() implies node_ok(
                later,
                f,
                #[trigger] rest[f][i],
            ) by {
                assert(node_ok(s, f, rest[f][i]));
            }
        }
        let hash = board_hash(node.cells);
        if hash != board_hash(s.target.cells) && !s.visited.contains(hash) {
            lemma_successors_join(later, node);
            let kids = successors_of(node, blank_index(node.cells), 1);
            lemma_admit_all_ok(later, rest, kids);
            let grown = admit_all(rest, kids, s.target, s.threshold);
            assert forall|f: int, i: int| 0 <= i < grown[f].len() implies node_ok(
                next,
                f,
                #[trigger] grown[f][i],
            ) by {
                assert(node_ok(later, f, grown[f][i]));
            }
        } else {
            assert forall|f: int, i: int| 0 <= i < rest[f].len() implies node_ok(
                next,
                f,
                #[trigger] rest[f][i],
            ) by {
                assert(node_ok(later, f, rest[f][i]));
            }
        }
    }
}

/// A lane that starts from its share of the successors satisfies the
/// invariant.
pub proof fn lemma_seeded_ok(start: PuzzleView, threshold: Option<u64>, lane: int, lanes: int)
    requires
        well_shaped(start),
        single_blank(start.cells),
        start.g <= MAX_START_COST,
    ensures
        lane_ok(seeded(start, threshold, lane, lanes)),
{
    let s = seeded(start, threshold, lane, lanes);
    let kids = successors_of(start, blank_index(start.cells), 1);
    let empty = LaneView {
        start,
        target: target_of(start),
        threshold,
        waiting: nothing_waiting(),
        visited: Set::empty(),
        steps: 0,
    };
    lemma_successors_join(empty, start);
    assert(waiting_ok(empty, nothing_waiting()));
    lemma_deal_ok(empty, nothing_waiting(), kids, kids.len() as int, lane, lanes);
    assert forall|f: int, i: int| 0 <= i < s.waiting[f].len() implies node_ok(
        s,
        f,
        #[trigger] s.waiting[f][i],
    ) by {
        assert(node_ok(empty, f, s.waiting[f][i]));
    }
}

/// What a lane finds is a solution that respects the threshold.
pub proof fn lemma_run_sound(s: LaneView)
    requires
        lane_ok(s),
    ensures
        run_of(s) matches Some(n) ==> is_solution(s.start, n) && within_threshold(
            s.start,
            n,
            s.threshold,
        ),
    decreases MAX_ITERATIONS - s.steps,
{
    if s.steps < MAX_ITERATIONS {
        lemma_step_ok(s);
        if step_of(s).1 is Continue {
            lemma_run_sound(step_of(s).0);
        }
    }
}

/// Whatever the sequential search returns for a board with one blank is
/// reached from that board by legal moves, has the content hash of the
/// solved layout, and is one move away or has a priority below the
/// threshold.
pub proof fn lemma_solve_sound(start: PuzzleView, threshold: Option<u64>)
    requires
        well_shaped(start),
        single_blank(start.cells),
        start.g <= MAX_START_COST,
    ensures
        solve_spec(start, threshold) matches Some(n) ==> is_solution(start, n)
            && within_threshold(start, n, threshold),
{
    lemma_seeded_ok(start, threshold, 0, 1);
    lemma_run_sound(seeded(start, threshold, 0, 1));
}

/// Where every solution of a board takes at least `optimum` moves, two or
/// more, the sequential search finds nothing under a threshold that is not
/// above the cost of such a solution.
pub proof fn lemma_threshold_below_optimum(start: PuzzleView, threshold: u64, optimum: nat)
    requires
        well_shaped(start),
        single_blank(start.cells),
        start.g <= MAX_START_COST,
        optimum >= 2,
        forall|n: PuzzleView| #[trigger]
            is_solution(start, n) ==> n.moves.len() >= start.moves.len() + optimum,
        threshold <= start.g + optimum,
    ensures
        solve_spec(start, Some(threshold)) is None,
{
    lemma_solve_sound(start, Some(threshold));
    if solve_spec(start, Some(threshold)) is Some {
        let n = solve_spec(start, Some(threshold))->0;
        assert(is_solution(start, n));
        lemma_descendant(start, n);
        lemma_heuristic_nonnegative(n, target_of(start), n.cells.len() as int);
    }
}

/// A board that has the cells of the solved layout of `start`, all of them
/// symbols of the board alphabet, has heuristic value zero against that
/// layout.
pub proof fn lemma_solved_cells_cost_nothing(start: PuzzleView, n: PuzzleView)
    requires
        n.width == start.width,
        n.cells == target_of(start).cells,
        forall|i: int| 0 <= i < n.cells.len() ==> crate::tile::is_board_symbol(#[trigger] n.cells[i]),
    ensures
        heuristic(n, target_of(start)) == 0,
{
    let t = target_of(start);
    crate::heuristic::lemma_heuristic_zero_on_self(t);
    assert(heuristic(n, t) == heuristic(t, t));
}

/// What is known of a board that descends from a board with one blank.
pub proof fn lemma_descendant(start: PuzzleView, n: PuzzleView)
    requires
        well_shaped(start),
        single_blank(start.cells),
        descends(start, n),
    ensures
        n.width == start.width,
        n.height == start.height,
        well_shaped(n),
        single_blank(n.cells),
        has_blank(n.cells),
        n.g == start.g + n.moves.len() - start.moves.len(),
        comparable(n, target_of(start)),
{
    lemma_replay(start, path_from(start, n));
    lemma_comparable_with_target(n, start);
}

} // verus!
