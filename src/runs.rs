//! Sorted runs of a sequence, and the bookkeeping of moving elements between runs.
use vstd::prelude::*;
use core::cmp::Ordering;
use crate::order::{lemma_not_after_trans, not_after, sorted_by};

verus! {

/// Every element of `s[lo..hi)` may stand before every later one.
pub open spec fn sorted_range<T, F: Fn(&T, &T) -> Ordering>(
    compare: F,
    s: Seq<T>,
    lo: int,
    hi: int,
) -> bool {
    forall|i: int, j: int| lo <= i < j < hi ==> #[trigger] not_after(compare, s[i], s[j])
}

/// Swapping two elements keeps the multiset of a sequence.
pub(crate) proof fn lemma_swap_to_multiset<T>(s: Seq<T>, i: int, j: int)
    requires
        0 <= i < s.len(),
        0 <= j < s.len(),
    ensures
        s.update(i, s[j]).update(j, s[i]).to_multiset() == s.to_multiset(),
{
    broadcast use vstd::seq_lib::to_multiset_update;
    broadcast use vstd::multiset::group_multiset_axioms;
    broadcast use vstd::seq_lib::group_to_multiset_ensures;

    if i == j {
        assert(s.update(i, s[j]).update(j, s[i]) =~= s);
    } else {
        let s1 = s.update(i, s[j]);
        assert(s1[j] == s[j]);
        assert(s.contains(s[i]));
        assert(s1.contains(s[j]));
        assert(s1.update(j, s[i]).to_multiset() =~= s.to_multiset());
    }
}

/// A sorted prefix followed by an element that may stand after its last one is still sorted.
pub(crate) proof fn lemma_extend_sorted_range<T, F: Fn(&T, &T) -> Ordering>(
    compare: F,
    s: Seq<T>,
    t: Seq<T>,
    w: int,
)
    requires
        0 <= w < t.len(),
        w <= s.len(),
        sorted_range(compare, s, 0, w),
        forall|i: int| 0 <= i < w ==> t[i] == s[i],
        w > 0 ==> not_after(compare, s[w - 1], t[w]),
    ensures
        sorted_range(compare, t, 0, w + 1),
{
    assert forall|i: int, j: int| 0 <= i < j < w + 1 implies #[trigger] not_after(
        compare,
        t[i],
        t[j],
    ) by {
        if j == w && i < w - 1 {
            assert(not_after(compare, s[i], s[w - 1]));
            lemma_not_after_trans(compare, s[i], s[w - 1], t[w]);
        } else if j < w {
            assert(not_after(compare, s[i], s[j]));
        }
    }
}

/// Moving the top of `a` or of `b` to the front of `out` keeps the three together the same.
pub(crate) proof fn lemma_regroup<T>(a: Seq<T>, b: Seq<T>, x: T, out: Seq<T>)
    ensures
        a.push(x).to_multiset().add(b.to_multiset()).add(out.to_multiset()) == a.to_multiset().add(
            b.to_multiset(),
        ).add((seq![x] + out).to_multiset()),
        a.to_multiset().add(b.push(x).to_multiset()).add(out.to_multiset()) == a.to_multiset().add(
            b.to_multiset(),
        ).add((seq![x] + out).to_multiset()),
{
    broadcast use vstd::multiset::group_multiset_axioms;
    broadcast use vstd::seq_lib::group_to_multiset_ensures;

    vstd::seq_lib::lemma_multiset_commutative(seq![x], out);
    assert(seq![x] =~= Seq::<T>::empty().push(x));
    assert(Seq::<T>::empty().to_multiset() =~= vstd::multiset::Multiset::empty());
    assert(a.push(x).to_multiset().add(b.to_multiset()).add(out.to_multiset()) =~= a.to_multiset().add(
        b.to_multiset(),
    ).add((seq![x] + out).to_multiset()));
    assert(a.to_multiset().add(b.push(x).to_multiset()).add(out.to_multiset()) =~= a.to_multiset().add(
        b.to_multiset(),
    ).add((seq![x] + out).to_multiset()));
}

/// Putting `e` in front of the sorted `out` keeps it sorted, and keeps every element of `r1` and
/// `r2` before every element of it, when `e` may stand after all of `r1` and `r2` and before all
/// of `out`.
pub(crate) proof fn lemma_prepend<T, F: Fn(&T, &T) -> Ordering>(
    compare: F,
    r1: Seq<T>,
    r2: Seq<T>,
    out: Seq<T>,
    e: T,
)
    requires
        sorted_range(compare, out, 0, out.len() as int),
        forall|a: int, b: int|
            0 <= a < r1.len() && 0 <= b < out.len() ==> #[trigger] not_after(
                compare,
                r1[a],
                out[b],
            ),
        forall|a: int, b: int|
            0 <= a < r2.len() && 0 <= b < out.len() ==> #[trigger] not_after(
                compare,
                r2[a],
                out[b],
            ),
        forall|b: int| 0 <= b < out.len() ==> #[trigger] not_after(compare, e, out[b]),
        forall|a: int| 0 <= a < r1.len() ==> #[trigger] not_after(compare, r1[a], e),
        forall|a: int| 0 <= a < r2.len() ==> #[trigger] not_after(compare, r2[a], e),
    ensures
        sorted_range(compare, seq![e] + out, 0, out.len() + 1 as int),
        forall|a: int, b: int|
            0 <= a < r1.len() && 0 <= b < out.len() + 1 ==> #[trigger] not_after(
                compare,
                r1[a],
                (seq![e] + out)[b],
            ),
        forall|a: int, b: int|
            0 <= a < r2.len() && 0 <= b < out.len() + 1 ==> #[trigger] not_after(
                compare,
                r2[a],
                (seq![e] + out)[b],
            ),
{
    let o2 = seq![e] + out;
    assert forall|i: int, j: int| 0 <= i < j < out.len() + 1 implies #[trigger] not_after(
        compare,
        o2[i],
        o2[j],
    ) by {
        if i == 0 {
            assert(o2[j] == out[j - 1]);
        } else {
            assert(o2[i] == out[i - 1] && o2[j] == out[j - 1]);
        }
    }
    assert forall|a: int, b: int| 0 <= a < r1.len() && 0 <= b < out.len() + 1 implies #[trigger] not_after(
        compare,
        r1[a],
        o2[b],
    ) by {
        if b > 0 {
            assert(o2[b] == out[b - 1]);
        }
    }
    assert forall|a: int, b: int| 0 <= a < r2.len() && 0 <= b < out.len() + 1 implies #[trigger] not_after(
        compare,
        r2[a],
        o2[b],
    ) by {
        if b > 0 {
            assert(o2[b] == out[b - 1]);
        }
    }
}

/// Two sorted runs, every element of the first may stand before every element of the second,
/// make a sorted sequence.
pub(crate) proof fn lemma_concat_sorted<T, F: Fn(&T, &T) -> Ordering>(compare: F, a: Seq<T>, b: Seq<T>)
    requires
        sorted_range(compare, a, 0, a.len() as int),
        sorted_range(compare, b, 0, b.len() as int),
        forall|i: int, j: int|
            0 <= i < a.len() && 0 <= j < b.len() ==> #[trigger] not_after(compare, a[i], b[j]),
    ensures
        sorted_by(compare, a + b),
{
    let s = a + b;
    assert forall|i: int, j: int| 0 <= i < j < s.len() implies #[trigger] not_after(
        compare,
        s[i],
        s[j],
    ) by {
        if j < a.len() {
            assert(s[i] == a[i] && s[j] == a[j]);
        } else if i < a.len() {
            assert(s[i] == a[i] && s[j] == b[j - a.len()]);
        } else {
            assert(s[i] == b[i - a.len()] && s[j] == b[j - a.len()]);
        }
    }
}

} // verus!
