//! Sorting from std, which vstd does not specify.
use vstd::prelude::*;
use crate::field::Scalar;

verus! {

pub open spec fn sorted_usizes(s: Seq<usize>) -> bool {
    forall|i: int, j: int| 0 <= i <= j < s.len() ==> s[i] <= s[j]
}

/// The elements of `s` whose index is `k`, in order.
pub open spec fn with_key(s: Seq<(usize, Scalar)>, k: usize) -> Seq<Scalar>
    decreases s.len(),
{
    if s.len() == 0 {
        Seq::empty()
    } else if s.last().0 == k {
        with_key(s.drop_last(), k).push(s.last().1)
    } else {
        with_key(s.drop_last(), k)
    }
}

pub open spec fn sorted_by_index(s: Seq<(usize, Scalar)>) -> bool {
    forall|i: int, j: int| 0 <= i <= j < s.len() ==> s[i].0 <= s[j].0
}

/// `slice::sort` of std: the same elements in ascending order.
#[verifier::external_body]
pub(crate) fn sort_usizes(v: &mut Vec<usize>)
    ensures
        final(v)@.to_multiset() == old(v)@.to_multiset(),
        sorted_usizes(final(v)@),
{
    v.sort();
}

/// `slice::sort_by_key` of std on the index: ascending indices, and, being
/// stable, the elements of each index in their former order.
#[verifier::external_body]
pub(crate) fn sort_by_index(v: &mut Vec<(usize, Scalar)>)
    ensures
        final(v)@.len() == old(v)@.len(),
        sorted_by_index(final(v)@),
        forall|k: usize| #[trigger] with_key(final(v)@, k) == with_key(old(v)@, k),
{
    v.sort_by_key(|x| x.0);
}

} // verus!
