//! First occurrences in sequences.

use vstd::prelude::*;

verus! {

/// Whether `i` is the first position of `s` that holds `a`.
pub open spec fn is_first_occurrence<A>(s: Seq<A>, a: A, i: int) -> bool {
    &&& 0 <= i < s.len()
    &&& s[i] == a
    &&& forall|j: int| 0 <= j < i ==> s[j] != a
}

/// The first position of `s` that holds `a`. Meaningful only where `s`
/// contains `a`.
pub open spec fn first_occurrence<A>(s: Seq<A>, a: A) -> int {
    choose|i: int| is_first_occurrence(s, a, i)
}

/// There is only one first occurrence.
pub proof fn lemma_first_occurrence_unique<A>(s: Seq<A>, a: A, i: int)
    requires
        is_first_occurrence(s, a, i),
    ensures
        first_occurrence(s, a) == i,
{
    let k = first_occurrence(s, a);
    assert(is_first_occurrence(s, a, k));
    if k < i {
        assert(s[k] != a);
    }
    if i < k {
        assert(s[i] != a);
    }
}

/// A value that occurs before position `n` has a first occurrence before `n`.
proof fn lemma_first_occurrence_before<A>(s: Seq<A>, a: A, n: int)
    requires
        0 <= n <= s.len(),
        exists|j: int| 0 <= j < n && s[j] == a,
    ensures
        exists|i: int| 0 <= i < n && is_first_occurrence(s, a, i),
    decreases n,
{
    if exists|j: int| 0 <= j < n - 1 && s[j] == a {
        lemma_first_occurrence_before(s, a, n - 1);
    } else {
        assert(s[n - 1] == a);
        assert(is_first_occurrence(s, a, n - 1));
    }
}

/// A value that occurs in `s` has a first occurrence there.
pub proof fn lemma_first_occurrence_exists<A>(s: Seq<A>, a: A)
    requires
        s.contains(a),
    ensures
        is_first_occurrence(s, a, first_occurrence(s, a)),
{
    lemma_first_occurrence_before(s, a, s.len() as int);
}

} // verus!
