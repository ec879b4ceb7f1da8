use vstd::prelude::*;

verus! {

/// Whether the numbers stand in rising order.
pub open spec fn sorted_i32(s: Seq<i32>) -> bool {
    forall|i: int, j: int| 0 <= i <= j < s.len() ==> s[i] <= s[j]
}

/// Whether the numbers stand in rising order.
pub open spec fn sorted_usize(s: Seq<usize>) -> bool {
    forall|i: int, j: int| 0 <= i <= j < s.len() ==> s[i] <= s[j]
}

/// `slice::sort` on numbers: afterwards the list holds what it held, in
/// rising order.
#[verifier::external_body]
pub(crate) fn sort_i32(v: &mut Vec<i32>)
    ensures
        sorted_i32(final(v)@),
        final(v)@.to_multiset() == old(v)@.to_multiset(),
        final(v)@.len() == old(v)@.len(),
{
    v.sort()
}

/// `slice::sort` on numbers: afterwards the list holds what it held, in
/// rising order.
#[verifier::external_body]
pub(crate) fn sort_usize(v: &mut Vec<usize>)
    ensures
        sorted_usize(final(v)@),
        final(v)@.to_multiset() == old(v)@.to_multiset(),
        final(v)@.len() == old(v)@.len(),
{
    v.sort()
}

} // verus!
