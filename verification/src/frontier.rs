//! The frontier of a search: boards waiting to be expanded, served by
//! ascending priority and, among equal priorities, oldest first.

use crate::moves::views_of;
use crate::puzzle::{Puzzle, PuzzleView};
use std::collections::VecDeque;
use vstd::prelude::*;

verus! {

/// The content of a frontier: for every priority the boards that wait with
/// it, oldest first. A priority with which nothing waits maps to the empty
/// sequence.
pub type Waiting = Map<int, Seq<PuzzleView>>;

/// The frontier in which nothing waits.
pub open spec fn nothing_waiting() -> Waiting {
    Map::total(|f: int| Seq::<PuzzleView>::empty())
}

/// Whether nothing waits.
pub open spec fn none_waiting(q: Waiting) -> bool {
    forall|f: int| (#[trigger] q[f]).len() == 0
}

/// Whether `f` is the least priority with which something waits.
pub open spec fn is_least_priority(q: Waiting, f: int) -> bool {
    &&& q[f].len() > 0
    &&& forall|k: int| k < f ==> (#[trigger] q[k]).len() == 0
}

/// The least priority with which something waits.
pub open spec fn least_priority(q: Waiting) -> int {
    choose|f: int| is_least_priority(q, f)
}

/// The frontier after `v` joined it with priority `f`.
pub open spec fn enqueued(q: Waiting, f: int, v: PuzzleView) -> Waiting {
    q.insert(f, q[f].push(v))
}

/// The board that is served next: the oldest of least priority.
pub open spec fn front(q: Waiting) -> PuzzleView {
    q[least_priority(q)][0]
}

/// The frontier after the next board was served.
pub open spec fn dequeued(q: Waiting) -> Waiting {
    q.insert(least_priority(q), q[least_priority(q)].drop_first())
}

/// There is only one least priority.
pub proof fn lemma_least_priority_unique(q: Waiting, f: int)
    requires
        is_least_priority(q, f),
    ensures
        least_priority(q) == f,
{
    let m = least_priority(q);
    assert(is_least_priority(q, m));
    if m < f {
        assert(q[m].len() == 0);
    }
    if f < m {
        assert(q[f].len() == 0);
    }
}

/// A priority queue of boards. Priorities are whole numbers not below the
/// base that the queue was made with.
pub struct Frontier {
    buckets: Vec<VecDeque<Puzzle>>,
    base: u64,
    lowest: usize,
}

impl View for Frontier {
    type V = Waiting;

    closed spec fn view(&self) -> Waiting {
        Map::total(
            |f: int|
                if self.base <= f < self.base + self.buckets@.len() {
                    views_of(self.buckets@[f - self.base]@)
                } else {
                    Seq::<PuzzleView>::empty()
                },
        )
    }
}

impl Frontier {
    /// The invariant of the representation.
    pub closed spec fn wf(&self) -> bool {
        &&& self.lowest <= self.buckets@.len()
        &&& self.base + self.buckets@.len() <= u64::MAX
        &&& forall|i: int| 0 <= i < self.lowest ==> (#[trigger] self.buckets@[i])@.len() == 0
    }

    /// The least priority that the queue accepts.
    pub closed spec fn base(&self) -> int {
        self.base as int
    }

    /// An empty queue for priorities from `base` on.
    pub fn new(base: u64) -> (frontier: Frontier)
        ensures
            frontier.wf(),
            frontier.base() == base,
            frontier@ == nothing_waiting(),
    {
        let frontier = Frontier { buckets: Vec::new(), base, lowest: 0 };
        assert(frontier@ =~= nothing_waiting());
        frontier
    }

    /// Lets `puzzle` wait with priority `priority`, behind everything that
    /// already waits with it.
    pub fn push(&mut self, priority: u64, puzzle: Puzzle)
        requires
            old(self).wf(),
            old(self).base() <= priority < u64::MAX,
            priority - old(self).base() < usize::MAX,
        ensures
            final(self).wf(),
            final(self).base() == old(self).base(),
            final(self)@ == enqueued(old(self)@, priority as int, puzzle@),
    {
        let idx = (priority - self.base) as usize;
        while self.buckets.len() <= idx
            invariant
                self.wf(),
                self.base == old(self).base,
                self@ == old(self)@,
                idx == priority - self.base,
                idx < usize::MAX,
                priority < u64::MAX,
            decreases idx + 1 - self.buckets.len(),
        {
            let ghost before = self@;
            let ghost count = self.buckets@.len() as int;
            self.buckets.push(VecDeque::new());
            proof {
                assert(self.buckets@[count]@ =~= Seq::<Puzzle>::empty());
                assert forall|f: int| #[trigger] self@[f] == before[f] by {
                    if f == self.base + count {
                        assert(views_of(self.buckets@[count]@) =~= Seq::<PuzzleView>::empty());
                    }
                }
                assert(self@ =~= before);
            }
        }
        let ghost before = self@;
        let ghost old_bucket = self.buckets@[idx as int]@;
        self.buckets[idx].push_back(puzzle);
        if idx < self.lowest {
            self.lowest = idx;
        }
        proof {
            assert(self.buckets@[idx as int]@ == old_bucket.push(puzzle));
            assert(views_of(old_bucket.push(puzzle)) =~= views_of(old_bucket).push(puzzle@));
            assert(self@ =~= enqueued(before, priority as int, puzzle@));
        }
    }

    /// Serves the board that waited longest among those of least
    /// priority, together with that priority.
    pub fn pop(&mut self) -> (served: Option<(u64, Puzzle)>)
        requires
            old(self).wf(),
        ensures
            final(self).wf(),
            final(self).base() == old(self).base(),
            served is None <==> none_waiting(old(self)@),
            served is None ==> final(self)@ == old(self)@,
            served matches Some((f, p)) ==> {
                &&& is_least_priority(old(self)@, f as int)
                &&& f == least_priority(old(self)@)
                &&& p@ == front(old(self)@)
                &&& final(self)@ == dequeued(old(self)@)
            },
    {
        while self.lowest < self.buckets.len() && self.buckets[self.lowest].len() == 0
            invariant
                self.wf(),
                self.base == old(self).base,
                self.buckets == old(self).buckets,
            decreases self.buckets.len() - self.lowest,
        {
            self.lowest += 1;
        }
        assert(self@ == old(self)@);
        if self.lowest >= self.buckets.len() {
            proof {
                assert forall|f: int| (#[trigger] self@[f]).len() == 0 by {}
            }
            return None;
        }
        let ghost before = self@;
        let ghost old_bucket = self.buckets@[self.lowest as int]@;
        let f = self.base + self.lowest as u64;
        proof {
            assert(before[f as int] == views_of(old_bucket));
            assert forall|k: int| k < f implies (#[trigger] before[k]).len() == 0 by {}
            assert(is_least_priority(before, f as int));
            lemma_least_priority_unique(before, f as int);
        }
        let taken = self.buckets[self.lowest].pop_front();
        match taken {
            Some(p) => {
                proof {
                    assert(views_of(old_bucket.subrange(1, old_bucket.len() as int)) =~= views_of(
                        old_bucket,
                    ).drop_first());
                    assert(self@ =~= dequeued(before));
                }
                Some((f, p))
            },
            None => None,
        }
    }
}

} // verus!
