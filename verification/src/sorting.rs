//! Insertion into sorted sequences: the one step every sort here
//! builds on.

use vstd::prelude::*;
use vstd::relations::{sorted_by, total_ordering};

verus! {

/// Inserting `x` after everything ordered before it keeps a sorted
/// sequence sorted.
pub proof fn lemma_sorted_insert<A>(s: Seq<A>, x: A, p: int, leq: spec_fn(A, A) -> bool)
    requires
        total_ordering(leq),
        sorted_by(s, leq),
        0 <= p <= s.len(),
        forall|j: int| 0 <= j < p ==> leq(#[trigger] s[j], x),
        p < s.len() ==> !leq(s[p], x),
    ensures
        sorted_by(s.insert(p, x), leq),
{
    assert forall|j: int| p <= j < s.len() implies leq(x, #[trigger] s[j]) by {
        if leq(s[j], x) {
            if j > p {
                assert(leq(s[p], s[j]));
            }
        }
    }
    let t = s.insert(p, x);
    assert forall|i: int, j: int| 0 <= i < j < t.len() implies #[trigger] leq(t[i], t[j]) by {
        if j < p {
            assert(t[i] == s[i] && t[j] == s[j]);
        } else if j == p {
            assert(t[i] == s[i] && t[j] == x);
        } else if i < p {
            assert(t[i] == s[i] && t[j] == s[j - 1]);
            assert(leq(s[i], s[j - 1]));
        } else if i == p {
            assert(t[i] == x && t[j] == s[j - 1]);
        } else {
            assert(t[i] == s[i - 1] && t[j] == s[j - 1]);
        }
    }
}

} // verus!
