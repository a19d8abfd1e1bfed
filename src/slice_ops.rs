//! The two standard-library slice operations the sorters rely on.
use vstd::prelude::*;
use core::cmp::Ordering;
use crate::order::{sorted_by, valid_comparator};

verus! {

/// Relies on `<[T]>::swap`: exchanges the elements at positions `i` and `j`.
#[verifier::external_body]
pub(crate) fn swap_at<T>(v: &mut Vec<T>, i: usize, j: usize)
    requires
        i < old(v)@.len(),
        j < old(v)@.len(),
    ensures
        final(v)@ == old(v)@.update(i as int, old(v)@[j as int]).update(j as int, old(v)@[i as int]),
{
    v.swap(i, j)
}

/// Relies on `<[T]>::sort_unstable_by`: given a comparator that orders the elements totally, it
/// rearranges `v[start..]` into non-decreasing order and leaves `v[..start]` alone. It compares
/// only elements of `v[start..]`, so the comparator need only accept those of `v`.
#[verifier::external_body]
pub(crate) fn sort_from<T, F: Fn(&T, &T) -> Ordering>(v: &mut Vec<T>, start: usize, compare: &F)
    requires
        start <= old(v)@.len(),
        valid_comparator(*compare, old(v)@),
    ensures
        final(v)@.len() == old(v)@.len(),
        final(v)@.subrange(0, start as int) == old(v)@.subrange(0, start as int),
        final(v)@.subrange(start as int, final(v)@.len() as int).to_multiset() == old(v)@.subrange(
            start as int,
            old(v)@.len() as int,
        ).to_multiset(),
        sorted_by(*compare, final(v)@.subrange(start as int, final(v)@.len() as int)),
{
    v[start..].sort_unstable_by(compare)
}

} // verus!
