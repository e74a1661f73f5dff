//! The first element of a sequence that meets a condition.

use vstd::prelude::*;

verus! {

/// The position of the first element of `s` that `hit` holds of, or the
/// length of `s` if there is none.
pub open spec fn first<T>(s: Seq<T>, hit: spec_fn(T) -> bool) -> int
    decreases s.len(),
{
    if s.len() == 0 || hit(s[0]) {
        0
    } else {
        1 + first(s.drop_first(), hit)
    }
}

/// `first` returns a position within the sequence or its end; no element
/// before it is a hit, and the element at it, if there is one, is.
pub proof fn lemma_first<T>(s: Seq<T>, hit: spec_fn(T) -> bool)
    ensures
        0 <= first(s, hit) <= s.len(),
        forall|j: int| 0 <= j < first(s, hit) ==> !hit(#[trigger] s[j]),
        first(s, hit) < s.len() ==> hit(s[first(s, hit)]),
    decreases s.len(),
{
    if s.len() == 0 || hit(s[0]) {
    } else {
        let rest = s.drop_first();
        lemma_first(rest, hit);
        assert forall|j: int| 0 <= j < first(s, hit) implies !hit(#[trigger] s[j]) by {
            if j > 0 {
                assert(s[j] == rest[j - 1]);
            }
        }
    }
}

/// A position with no hit before it, which holds a hit or is the end of the
/// sequence, is the one that `first` returns.
pub proof fn lemma_first_unique<T>(s: Seq<T>, hit: spec_fn(T) -> bool, i: int)
    requires
        0 <= i <= s.len(),
        forall|j: int| 0 <= j < i ==> !hit(#[trigger] s[j]),
        i < s.len() ==> hit(s[i]),
    ensures
        first(s, hit) == i,
{
    lemma_first(s, hit);
}

} // verus!
