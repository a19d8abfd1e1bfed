//! Properties that relate the sorters to one another.
use vstd::prelude::*;
use core::cmp::Ordering;
use crate::order::{implements, not_after, sorted_by, sorted_under, strict_weak_order};

verus! {

/// `compare` implements a strict weak order under which any two different elements are ordered
/// one way or the other: no two different elements compare `Equal`.
pub open spec fn tells_apart<T, F: Fn(&T, &T) -> Ordering>(compare: F) -> bool {
    exists|lt: spec_fn(T, T) -> bool|
        #[trigger] implements(compare, lt) && forall|a: T, b: T|
            #![trigger lt(a, b), lt(b, a)]
            a != b ==> lt(a, b) || lt(b, a)
}

/// The moving sorter and the copying sorter give the same result on the same input and
/// comparator, whenever the comparator tells different elements apart: both results hold the
/// input's elements in an order the comparator accepts, and there is only one such order.
/// With ties, `lemma_sorters_agree_up_to_ties` states what is proved: the results hold equivalent
/// elements at every position. The order among equal elements comes from the standard library's
/// unstable sort, of which nothing is promised; the two sorters hand it the same sequence.
pub proof fn lemma_sorters_agree<T, F: Fn(&T, &T) -> Ordering>(
    compare: F,
    input: Seq<T>,
    by_moves: Seq<T>,
    by_copies: Seq<T>,
)
    requires
        tells_apart(compare),
        by_moves.to_multiset() == input.to_multiset(),
        sorted_by(compare, by_moves),
        by_copies.to_multiset() == input.to_multiset(),
        sorted_by(compare, by_copies),
    ensures
        by_moves == by_copies,
{
    let lt = choose|lt: spec_fn(T, T) -> bool|
        #[trigger] implements(compare, lt) && forall|a: T, b: T|
            #![trigger lt(a, b), lt(b, a)]
            a != b ==> lt(a, b) || lt(b, a);
    let leq = |a: T, b: T| !lt(b, a);
    assert(implements(compare, lt));
    assert(vstd::relations::total_ordering(leq)) by {
        assert forall|a: T, b: T| #[trigger] leq(a, b) && #[trigger] leq(b, a) implies a == b by {
            if a != b {
                assert(lt(a, b) || lt(b, a));
            }
        }
        assert forall|a: T, b: T, c: T| #[trigger] leq(a, b) && #[trigger] leq(b, c) implies leq(
            a,
            c,
        ) by {
            if lt(c, a) {
                assert(lt(c, b) || lt(b, a));
            }
        }
        assert forall|a: T, b: T| #[trigger] leq(a, b) || #[trigger] leq(b, a) by {
            if lt(a, b) && lt(b, a) {
                assert(lt(a, a));
            }
        }
        assert forall|a: T| #[trigger] leq(a, a) by {}
    }
    assert forall|i: int, j: int| 0 <= i < j < by_moves.len() implies #[trigger] leq(
        by_moves[i],
        by_moves[j],
    ) by {
        assert(not_after(compare, by_moves[i], by_moves[j]));
    }
    assert forall|i: int, j: int| 0 <= i < j < by_copies.len() implies #[trigger] leq(
        by_copies[i],
        by_copies[j],
    ) by {
        assert(not_after(compare, by_copies[i], by_copies[j]));
    }
    vstd::seq_lib::lemma_sorted_unique(by_moves, by_copies, leq);
}

/// Two sequences with the same elements, both in order under the strict weak order `lt`, hold
/// elements that `lt` does not tell apart at every position.
pub proof fn lemma_sorted_equivalent<T>(lt: spec_fn(T, T) -> bool, x: Seq<T>, y: Seq<T>)
    requires
        strict_weak_order(lt),
        x.to_multiset() == y.to_multiset(),
        sorted_under(lt, x),
        sorted_under(lt, y),
    ensures
        x.len() == y.len(),
        forall|i: int| 0 <= i < x.len() ==> !lt(#[trigger] x[i], y[i]) && !lt(y[i], x[i]),
    decreases x.len(),
{
    broadcast use vstd::seq_lib::group_to_multiset_ensures;
    broadcast use vstd::multiset::group_multiset_axioms;

    assert(x.len() == x.to_multiset().len());
    assert(y.len() == y.to_multiset().len());
    if x.len() > 0 {
        let n = x.len() as int;
        let a = x[n - 1];
        assert(x.contains(a));
        assert(x.to_multiset().count(a) > 0);
        assert(y.to_multiset().count(a) > 0);
        assert(y.contains(a));
        let k = choose|k: int| 0 <= k < n && y[k] == a;
        let x1 = x.drop_last();
        let y1 = y.remove(k);
        assert(x =~= x1.push(a));
        assert(x1.push(a).to_multiset() == x1.to_multiset().insert(a));
        assert(x1.to_multiset() =~= x.to_multiset().remove(a));
        assert(y1.to_multiset() =~= y.to_multiset().remove(a));
        assert forall|i: int, j: int| 0 <= i < j < x1.len() implies !#[trigger] lt(
            x1[j],
            x1[i],
        ) by {
            assert(x1[i] == x[i] && x1[j] == x[j]);
        }
        assert forall|i: int, j: int| 0 <= i < j < y1.len() implies !#[trigger] lt(
            y1[j],
            y1[i],
        ) by {
            let ii = if i < k { i } else { i + 1 };
            let jj = if j < k { j } else { j + 1 };
            assert(y1[i] == y[ii] && y1[j] == y[jj]);
        }
        lemma_sorted_equivalent(lt, x1, y1);
        // No element is above the last element of `x`.
        assert forall|j: int| 0 <= j < n implies !lt(a, #[trigger] y[j]) by {
            assert(y.contains(y[j]));
            assert(y.to_multiset().count(y[j]) > 0);
            assert(x.to_multiset().count(y[j]) > 0);
            assert(x.contains(y[j]));
            let m = choose|m: int| 0 <= m < n && x[m] == y[j];
            if m < n - 1 {
                assert(!lt(x[n - 1], x[m]));
            }
        }
        assert forall|j: int| k <= j < n implies !lt(#[trigger] y[j], a) by {
            if k < j {
                assert(!lt(y[j], y[k]));
            }
        }
        assert forall|i: int| 0 <= i < n implies !lt(#[trigger] x[i], y[i]) && !lt(y[i], x[i]) by {
            if i == n - 1 {
                assert(!lt(a, y[i]));
                assert(!lt(y[i], a));
            } else if i < k {
                assert(x1[i] == x[i] && y1[i] == y[i]);
            } else {
                assert(x1[i] == x[i] && y1[i] == y[i + 1]);
                assert(!lt(x[i], y[i + 1]) && !lt(y[i + 1], x[i]));
                assert(!lt(a, y[i]) && !lt(y[i], a));
                assert(!lt(a, y[i + 1]) && !lt(y[i + 1], a));
                if lt(x[i], y[i]) {
                    assert(lt(x[i], a) || lt(a, y[i]));
                    assert(lt(x[i], y[i + 1]) || lt(y[i + 1], a));
                }
                if lt(y[i], x[i]) {
                    assert(lt(y[i], a) || lt(a, x[i]));
                    assert(lt(a, y[i + 1]) || lt(y[i + 1], x[i]));
                }
            }
        }
    }
}

/// The moving sorter and the copying sorter, given the same input and comparator, leave at every
/// position elements that no order the comparator implements tells apart: their results differ
/// at most in the order of elements that compare `Equal`.
pub proof fn lemma_sorters_agree_up_to_ties<T, F: Fn(&T, &T) -> Ordering>(
    compare: F,
    input: Seq<T>,
    by_moves: Seq<T>,
    by_copies: Seq<T>,
)
    requires
        by_moves.to_multiset() == input.to_multiset(),
        sorted_by(compare, by_moves),
        by_copies.to_multiset() == input.to_multiset(),
        sorted_by(compare, by_copies),
    ensures
        by_moves.len() == by_copies.len(),
        forall|lt: spec_fn(T, T) -> bool, i: int|
            #![trigger implements(compare, lt), by_moves[i]]
            implements(compare, lt) && 0 <= i < by_moves.len() ==> !lt(
                by_moves[i],
                by_copies[i],
            ) && !lt(by_copies[i], by_moves[i]),
{
    broadcast use vstd::seq_lib::group_to_multiset_ensures;

    assert(by_moves.len() == by_moves.to_multiset().len());
    assert(by_copies.len() == by_copies.to_multiset().len());
    assert forall|lt: spec_fn(T, T) -> bool, i: int|
        #![trigger implements(compare, lt), by_moves[i]]
        implements(compare, lt) && 0 <= i < by_moves.len() implies !lt(
        by_moves[i],
        by_copies[i],
    ) && !lt(by_copies[i], by_moves[i]) by {
        assert forall|p: int, q: int| 0 <= p < q < by_moves.len() implies !#[trigger] lt(
            by_moves[q],
            by_moves[p],
        ) by {
            assert(not_after(compare, by_moves[p], by_moves[q]));
        }
        assert forall|p: int, q: int| 0 <= p < q < by_copies.len() implies !#[trigger] lt(
            by_copies[q],
            by_copies[p],
        ) by {
            assert(not_after(compare, by_copies[p], by_copies[q]));
        }
        lemma_sorted_equivalent(lt, by_moves, by_copies);
        assert(!lt(by_moves[i], by_copies[i]));
    }
}

} // verus!
