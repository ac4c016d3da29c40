//! The slot in which the lanes of a search leave what they found.

use crate::puzzle::{Puzzle, PuzzleView};
use vstd::prelude::*;

verus! {

/// The place where lanes leave the solved board they found. What is
/// published first stays.
pub struct BestSolution {
    slot: Option<Puzzle>,
}

impl View for BestSolution {
    type V = Option<PuzzleView>;

    closed spec fn view(&self) -> Option<PuzzleView> {
        match self.slot {
            Some(found) => Some(found@),
            None => None,
        }
    }
}

impl BestSolution {
    /// An empty slot.
    pub fn new() -> (best: BestSolution)
        ensures
            best@ is None,
    {
        BestSolution { slot: None }
    }

    /// Whether a solution was published.
    pub fn is_published(&self) -> (published: bool)
        ensures
            published == self@ is Some,
    {
        self.slot.is_some()
    }

    /// Publishes a solved board unless one was published before, and
    /// tells whether this one was the first.
    pub fn publish(&mut self, found: Puzzle) -> (first: bool)
        ensures
            first == old(self)@ is None,
            final(self)@ == (if old(self)@ is Some {
                old(self)@
            } else {
                Some(found@)
            }),
    {
        if self.slot.is_some() {
            false
        } else {
            self.slot = Some(found);
            true
        }
    }

    /// Hands out what was published.
    pub fn take(self) -> (found: Option<Puzzle>)
        ensures
            found is Some <==> self@ is Some,
            found matches Some(p) ==> self@ == Some(p@),
    {
        self.slot
    }
}

} // verus!
