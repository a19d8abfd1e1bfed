//! The merge step of drop-merge sort: the sorted dropped elements go back among the kept run,
//! from the back. All comparisons are made first, while the sequence is left untouched; the
//! elements then move without any further comparison.
use vstd::prelude::*;
use core::cmp::Ordering;
use crate::order::{callable_on, lemma_answer, lemma_not_after_trans, not_after, orders, sorted_by};
use crate::runs::{lemma_concat_sorted, lemma_prepend, lemma_regroup, sorted_range};

verus! {

/// How many kept elements stay ahead of the dropped element placed before the `t`-th one, where
/// dropped elements are placed from the largest down.
pub open spec fn prev_cut(cuts: Seq<usize>, t: int, kept_len: int) -> int {
    if t == 0 {
        kept_len
    } else {
        cuts[t - 1] as int
    }
}

/// The first `cuts.len()` dropped elements, from the largest down, are placed among the sorted
/// `kept` run: the `t`-th one goes right after the first `cuts[t]` kept elements, every kept
/// element it passes may stand after it, and the kept element it stops at may stand before it.
#[verifier::opaque]
pub open spec fn plan_prefix<T, F: Fn(&T, &T) -> Ordering>(
    compare: F,
    kept: Seq<T>,
    dropped: Seq<T>,
    cuts: Seq<usize>,
) -> bool {
    &&& cuts.len() <= dropped.len()
    &&& forall|t: int|
        0 <= t < cuts.len() ==> #[trigger] cuts[t] <= prev_cut(cuts, t, kept.len() as int)
    &&& forall|t: int, i: int|
        #![trigger cuts[t], kept[i]]
        0 <= t < cuts.len() && cuts[t] <= i < prev_cut(cuts, t, kept.len() as int) ==> not_after(
            compare,
            dropped[dropped.len() - 1 - t],
            kept[i],
        )
    &&& forall|t: int|
        0 <= t < cuts.len() && #[trigger] cuts[t] > 0 ==> not_after(
            compare,
            kept[cuts[t] - 1],
            dropped[dropped.len() - 1 - t],
        )
}

/// `cuts` places every one of the sorted `dropped` elements among the sorted `kept` run.
pub open spec fn merge_plan<T, F: Fn(&T, &T) -> Ordering>(
    compare: F,
    kept: Seq<T>,
    dropped: Seq<T>,
    cuts: Seq<usize>,
) -> bool {
    &&& cuts.len() == dropped.len()
    &&& plan_prefix(compare, kept, dropped, cuts)
}

/// Placing one more dropped element extends a plan.
proof fn lemma_plan_push<T, F: Fn(&T, &T) -> Ordering>(
    compare: F,
    kept: Seq<T>,
    dropped: Seq<T>,
    cuts: Seq<usize>,
    w: usize,
)
    requires
        plan_prefix(compare, kept, dropped, cuts),
        cuts.len() < dropped.len(),
        w <= prev_cut(cuts, cuts.len() as int, kept.len() as int),
        forall|i: int|
            w <= i < prev_cut(cuts, cuts.len() as int, kept.len() as int) ==> #[trigger] not_after(
                compare,
                dropped[dropped.len() - 1 - cuts.len()],
                kept[i],
            ),
        w > 0 ==> not_after(compare, kept[w - 1], dropped[dropped.len() - 1 - cuts.len()]),
    ensures
        plan_prefix(compare, kept, dropped, cuts.push(w)),
{
    reveal(plan_prefix);
    let c2 = cuts.push(w);
    let t = cuts.len() as int;
    assert forall|s: int| 0 <= s < c2.len() implies #[trigger] c2[s] <= prev_cut(
        c2,
        s,
        kept.len() as int,
    ) by {
        if s < t {
            assert(c2[s] == cuts[s]);
            assert(cuts[s] <= prev_cut(cuts, s, kept.len() as int));
        }
    }
    assert forall|s: int, i: int|
        #![trigger c2[s], kept[i]]
        0 <= s < c2.len() && c2[s] <= i < prev_cut(c2, s, kept.len() as int) implies not_after(
        compare,
        dropped[dropped.len() - 1 - s],
        kept[i],
    ) by {
        if s < t {
            assert(c2[s] == cuts[s]);
            assert(prev_cut(c2, s, kept.len() as int) == prev_cut(cuts, s, kept.len() as int));
            assert(cuts[s] <= i < prev_cut(cuts, s, kept.len() as int));
        }
    }
    assert forall|s: int| 0 <= s < c2.len() && #[trigger] c2[s] > 0 implies not_after(
        compare,
        kept[c2[s] - 1],
        dropped[dropped.len() - 1 - s],
    ) by {
        if s < t {
            assert(c2[s] == cuts[s]);
        }
    }
}

/// Plans the merge of the kept run `v[..write]` with the sorted dropped elements `v[write..]`,
/// making every comparison the merge needs without moving anything.
pub(crate) fn plan_merge<T, F: Fn(&T, &T) -> Ordering>(v: &Vec<T>, write: usize, compare: &F) -> (cuts: Vec<
    usize,
>)
    requires
        write <= v@.len(),
        orders(*compare),
        callable_on(*compare, v@),
    ensures
        merge_plan(
            *compare,
            v@.subrange(0, write as int),
            v@.subrange(write as int, v@.len() as int),
            cuts@,
        ),
{
    let n = v.len();
    let k = n - write;
    let ghost kept = v@.subrange(0, write as int);
    let ghost dropped = v@.subrange(write as int, n as int);
    let mut cuts: Vec<usize> = Vec::new();
    let mut w: usize = write;
    let mut t: usize = 0;
    proof {
        reveal(plan_prefix);
    }
    while t < k
        invariant
            n == v@.len(),
            write <= n,
            k == n - write,
            t <= k,
            kept == v@.subrange(0, write as int),
            dropped == v@.subrange(write as int, n as int),
            orders(*compare),
            callable_on(*compare, v@),
            cuts@.len() == t,
            w <= write,
            w as int == prev_cut(cuts@, t as int, write as int),
            plan_prefix(*compare, kept, dropped, cuts@),
        decreases k - t,
    {
        let d = write + (k - 1 - t);
        let ghost w_start = w;
        loop
            invariant
                w <= w_start,
                w_start <= write,
                write <= d < n,
                n == v@.len(),
                orders(*compare),
                callable_on(*compare, v@),
                forall|i: int| w <= i < w_start ==> #[trigger] not_after(*compare, v@[d as int], v@[i]),
            ensures
                w > 0 ==> not_after(*compare, v@[w - 1], v@[d as int]),
            decreases w,
        {
            if w == 0 {
                break;
            }
            let c = compare(&v[d], &v[w - 1]);
            proof {
                lemma_answer(*compare, v@[d as int], v@[w - 1], c);
            }
            if !matches!(c, Ordering::Less) {
                break;
            }
            w = w - 1;
        }
        proof {
            assert(dropped[k - 1 - t] == v@[d as int]);
            assert forall|i: int| w <= i < w_start implies #[trigger] not_after(
                *compare,
                dropped[k - 1 - t],
                kept[i],
            ) by {
                assert(kept[i] == v@[i]);
                assert(not_after(*compare, v@[d as int], v@[i]));
            }
            if w > 0 {
                assert(kept[w - 1] == v@[w - 1]);
            }
            lemma_plan_push(*compare, kept, dropped, cuts@, w);
        }
        cuts.push(w);
        t = t + 1;
    }
    cuts
}

/// What a plan says of the `t`-th dropped element from the top.
proof fn lemma_plan_at<T, F: Fn(&T, &T) -> Ordering>(
    compare: F,
    kept: Seq<T>,
    dr: Seq<T>,
    cuts: Seq<usize>,
    t: int,
)
    requires
        plan_prefix(compare, kept, dr, cuts),
        0 <= t < cuts.len(),
    ensures
        cuts.len() <= dr.len(),
        cuts[t] <= prev_cut(cuts, t, kept.len() as int),
        forall|i: int|
            cuts[t] <= i < prev_cut(cuts, t, kept.len() as int) ==> #[trigger] not_after(
                compare,
                dr[dr.len() - 1 - t],
                kept[i],
            ),
        cuts[t] > 0 ==> not_after(compare, kept[cuts[t] - 1], dr[dr.len() - 1 - t]),
{
    reveal(plan_prefix);
    assert forall|i: int|
        cuts[t] <= i < prev_cut(cuts, t, kept.len() as int) implies #[trigger] not_after(
        compare,
        dr[dr.len() - 1 - t],
        kept[i],
    ) by {
        assert(0 <= t < cuts.len() && cuts[t] <= i < prev_cut(cuts, t, kept.len() as int));
    }
}

/// The merge step that moves the last remaining kept element to the front of `out`.
proof fn lemma_place_kept<T, F: Fn(&T, &T) -> Ordering>(
    compare: F,
    kept: Seq<T>,
    dr: Seq<T>,
    cuts: Seq<usize>,
    t: int,
    rest: Seq<T>,
    dropped: Seq<T>,
    out: Seq<T>,
)
    requires
        plan_prefix(compare, kept, dr, cuts),
        cuts.len() == dr.len(),
        0 <= t < dr.len(),
        sorted_range(compare, kept, 0, kept.len() as int),
        sorted_range(compare, dr, 0, dr.len() as int),
        cuts[t] < rest.len() <= prev_cut(cuts, t, kept.len() as int),
        prev_cut(cuts, t, kept.len() as int) <= kept.len(),
        rest == kept.subrange(0, rest.len() as int),
        dropped == dr.subrange(0, dr.len() - t),
        sorted_range(compare, out, 0, out.len() as int),
        forall|a: int, b: int|
            0 <= a < rest.len() && 0 <= b < out.len() ==> #[trigger] not_after(
                compare,
                rest[a],
                out[b],
            ),
        forall|a: int, b: int|
            0 <= a < dropped.len() && 0 <= b < out.len() ==> #[trigger] not_after(
                compare,
                dropped[a],
                out[b],
            ),
    ensures
        ({
            let x = rest.last();
            let r = rest.drop_last();
            &&& sorted_range(compare, seq![x] + out, 0, out.len() + 1 as int)
            &&& forall|a: int, b: int|
                0 <= a < r.len() && 0 <= b < out.len() + 1 ==> #[trigger] not_after(
                    compare,
                    r[a],
                    (seq![x] + out)[b],
                )
            &&& forall|a: int, b: int|
                0 <= a < dropped.len() && 0 <= b < out.len() + 1 ==> #[trigger] not_after(
                    compare,
                    dropped[a],
                    (seq![x] + out)[b],
                )
        }),
{
    lemma_plan_at(compare, kept, dr, cuts, t);
    let i = rest.len() - 1;
    let x = rest.last();
    let r = rest.drop_last();
    let k = dr.len() as int;
    assert(x == kept[i]);
    assert forall|a: int| 0 <= a < r.len() implies #[trigger] not_after(compare, r[a], x) by {
        assert(r[a] == kept[a]);
        assert(not_after(compare, kept[a], kept[i]));
    }
    let d = dr[k - 1 - t];
    assert(cuts[t] <= i < prev_cut(cuts, t, kept.len() as int));
    assert(not_after(compare, d, kept[i]));
    assert forall|a: int| 0 <= a < dropped.len() implies #[trigger] not_after(
        compare,
        dropped[a],
        x,
    ) by {
        assert(dropped[a] == dr[a]);
        if a < k - 1 - t {
            assert(not_after(compare, dr[a], d));
            lemma_not_after_trans(compare, dr[a], d, x);
        }
    }
    assert forall|b: int| 0 <= b < out.len() implies #[trigger] not_after(compare, x, out[b]) by {
        assert(rest[i] == x);
        assert(not_after(compare, rest[i], out[b]));
    }
    assert forall|a: int, b: int| 0 <= a < r.len() && 0 <= b < out.len() implies #[trigger] not_after(
        compare,
        r[a],
        out[b],
    ) by {
        assert(rest[a] == r[a]);
        assert(not_after(compare, rest[a], out[b]));
    }
    lemma_prepend(compare, r, dropped, out, x);
}

/// The merge step that moves the largest remaining dropped element to the front of `out`.
proof fn lemma_place_dropped<T, F: Fn(&T, &T) -> Ordering>(
    compare: F,
    kept: Seq<T>,
    dr: Seq<T>,
    cuts: Seq<usize>,
    t: int,
    rest: Seq<T>,
    dropped: Seq<T>,
    out: Seq<T>,
)
    requires
        plan_prefix(compare, kept, dr, cuts),
        cuts.len() == dr.len(),
        0 <= t < dr.len(),
        sorted_range(compare, kept, 0, kept.len() as int),
        sorted_range(compare, dr, 0, dr.len() as int),
        rest.len() == cuts[t],
        cuts[t] <= kept.len(),
        rest == kept.subrange(0, rest.len() as int),
        dropped == dr.subrange(0, dr.len() - t),
        sorted_range(compare, out, 0, out.len() as int),
        forall|a: int, b: int|
            0 <= a < rest.len() && 0 <= b < out.len() ==> #[trigger] not_after(
                compare,
                rest[a],
                out[b],
            ),
        forall|a: int, b: int|
            0 <= a < dropped.len() && 0 <= b < out.len() ==> #[trigger] not_after(
                compare,
                dropped[a],
                out[b],
            ),
    ensures
        ({
            let d = dropped.last();
            let r = dropped.drop_last();
            &&& sorted_range(compare, seq![d] + out, 0, out.len() + 1 as int)
            &&& forall|a: int, b: int|
                0 <= a < rest.len() && 0 <= b < out.len() + 1 ==> #[trigger] not_after(
                    compare,
                    rest[a],
                    (seq![d] + out)[b],
                )
            &&& forall|a: int, b: int|
                0 <= a < r.len() && 0 <= b < out.len() + 1 ==> #[trigger] not_after(
                    compare,
                    r[a],
                    (seq![d] + out)[b],
                )
        }),
{
    lemma_plan_at(compare, kept, dr, cuts, t);
    let k = dr.len() as int;
    let j = k - 1 - t;
    let d = dropped.last();
    let r = dropped.drop_last();
    let cut = cuts[t] as int;
    assert(d == dr[j]);
    assert forall|a: int| 0 <= a < rest.len() implies #[trigger] not_after(compare, rest[a], d) by {
        assert(rest[a] == kept[a]);
        assert(cuts[t] > 0);
        assert(not_after(compare, kept[cut - 1], d));
        if a < cut - 1 {
            assert(not_after(compare, kept[a], kept[cut - 1]));
            lemma_not_after_trans(compare, kept[a], kept[cut - 1], d);
        }
    }
    assert forall|a: int| 0 <= a < r.len() implies #[trigger] not_after(compare, r[a], d) by {
        assert(r[a] == dr[a]);
        assert(not_after(compare, dr[a], dr[j]));
    }
    assert forall|b: int| 0 <= b < out.len() implies #[trigger] not_after(compare, d, out[b]) by {
        assert(dropped[j] == d);
        assert(not_after(compare, dropped[j], out[b]));
    }
    assert forall|a: int, b: int| 0 <= a < r.len() && 0 <= b < out.len() implies #[trigger] not_after(
        compare,
        r[a],
        out[b],
    ) by {
        assert(dropped[a] == r[a]);
        assert(not_after(compare, dropped[a], out[b]));
    }
    lemma_prepend(compare, rest, r, out, d);
}

/// Carries out a merge plan: afterwards `v` holds the kept run `v[..write]` and the sorted
/// dropped elements `v[write..]` merged in order. It makes no comparisons.
pub(crate) fn apply_merge<T, F: Fn(&T, &T) -> Ordering>(
    v: &mut Vec<T>,
    write: usize,
    cuts: &Vec<usize>,
    compare: &F,
)
    requires
        write <= old(v)@.len(),
        orders(*compare),
        sorted_range(*compare, old(v)@, 0, write as int),
        sorted_range(*compare, old(v)@, write as int, old(v)@.len() as int),
        merge_plan(
            *compare,
            old(v)@.subrange(0, write as int),
            old(v)@.subrange(write as int, old(v)@.len() as int),
            cuts@,
        ),
    ensures
        final(v)@.to_multiset() == old(v)@.to_multiset(),
        sorted_by(*compare, final(v)@),
        write == old(v)@.len() ==> final(v)@ == old(v)@,
{
    broadcast use vstd::multiset::group_multiset_axioms;
    broadcast use vstd::seq_lib::group_to_multiset_ensures;

    let n = v.len();
    let k = n - write;
    let ghost v0 = v@;
    let ghost kept = v@.subrange(0, write as int);
    let ghost dr = v@.subrange(write as int, n as int);
    proof {
        reveal(plan_prefix);
        assert(v0 =~= kept + dr);
        vstd::seq_lib::lemma_multiset_commutative(kept, dr);
        assert forall|i: int, j: int| 0 <= i < j < dr.len() implies #[trigger] not_after(
            *compare,
            dr[i],
            dr[j],
        ) by {
            assert(dr[i] == v0[write + i] && dr[j] == v0[write + j]);
        }
        assert forall|i: int, j: int| 0 <= i < j < kept.len() implies #[trigger] not_after(
            *compare,
            kept[i],
            kept[j],
        ) by {
            assert(kept[i] == v0[i] && kept[j] == v0[j]);
        }
    }
    let mut dropped = v.split_off(write);
    let mut merged: Vec<T> = Vec::new();
    let ghost mut out: Seq<T> = Seq::empty();
    let mut t: usize = 0;
    proof {
        assert(v@ =~= kept.subrange(0, write as int));
        assert(dropped@ =~= dr.subrange(0, k as int));
        assert(out.to_multiset() =~= vstd::multiset::Multiset::empty());
    }
    while t < k
        invariant
            orders(*compare),
            kept.len() == write,
            dr.len() == k,
            v0.to_multiset() == kept.to_multiset().add(dr.to_multiset()),
            t <= k,
            cuts@.len() == k,
            plan_prefix(*compare, kept, dr, cuts@),
            sorted_range(*compare, kept, 0, write as int),
            sorted_range(*compare, dr, 0, k as int),
            v@ == kept.subrange(0, prev_cut(cuts@, t as int, write as int)),
            prev_cut(cuts@, t as int, write as int) <= write,
            out.len() + v@.len() + dropped@.len() == kept.len() + dr.len(),
            dropped@ == dr.subrange(0, k - t),
            merged@.len() == out.len(),
            forall|i: int| 0 <= i < out.len() ==> #[trigger] merged@[i] == out[out.len() - 1 - i],
            sorted_range(*compare, out, 0, out.len() as int),
            forall|a: int, b: int|
                0 <= a < v@.len() && 0 <= b < out.len() ==> #[trigger] not_after(
                    *compare,
                    v@[a],
                    out[b],
                ),
            forall|a: int, b: int|
                0 <= a < dropped@.len() && 0 <= b < out.len() ==> #[trigger] not_after(
                    *compare,
                    dropped@[a],
                    out[b],
                ),
            v@.to_multiset().add(dropped@.to_multiset()).add(out.to_multiset())
                == v0.to_multiset(),
        decreases k - t,
    {
        let cut = cuts[t];
        proof {
            reveal(plan_prefix);
        }
        while v.len() > cut
            invariant
                orders(*compare),
                kept.len() == write,
                dr.len() == k,
                t < k,
                cuts@.len() == k,
                cut == cuts@[t as int],
                plan_prefix(*compare, kept, dr, cuts@),
                sorted_range(*compare, kept, 0, write as int),
                sorted_range(*compare, dr, 0, k as int),
                cut <= prev_cut(cuts@, t as int, write as int),
                cut <= v@.len(),
                out.len() + v@.len() + dropped@.len() == kept.len() + dr.len(),
                v@.len() <= prev_cut(cuts@, t as int, write as int),
                prev_cut(cuts@, t as int, write as int) <= write,
                v@ == kept.subrange(0, v@.len() as int),
                dropped@ == dr.subrange(0, k - t),
                merged@.len() == out.len(),
                forall|i: int| 0 <= i < out.len() ==> #[trigger] merged@[i] == out[out.len() - 1 - i],
                sorted_range(*compare, out, 0, out.len() as int),
                forall|a: int, b: int|
                    0 <= a < v@.len() && 0 <= b < out.len() ==> #[trigger] not_after(
                        *compare,
                        v@[a],
                        out[b],
                    ),
                forall|a: int, b: int|
                    0 <= a < dropped@.len() && 0 <= b < out.len() ==> #[trigger] not_after(
                        *compare,
                        dropped@[a],
                        out[b],
                    ),
                v@.to_multiset().add(dropped@.to_multiset()).add(out.to_multiset())
                    == v0.to_multiset(),
            decreases v@.len(),
        {
            let ghost before = v@;
            let x = v.pop().unwrap();
            proof {
                lemma_place_kept(*compare, kept, dr, cuts@, t as int, before, dropped@, out);
                assert(before =~= v@.push(x));
                lemma_regroup(v@, dropped@, x, out);
            }
            merged.push(x);
            proof {
                let old_out = out;
                out = seq![x] + out;
                assert(v@.to_multiset().add(dropped@.to_multiset()).add(out.to_multiset())
                    =~= v0.to_multiset());
                assert forall|i: int| 0 <= i < out.len() implies #[trigger] merged@[i] == out[out.len()
                    - 1 - i] by {
                    if i < old_out.len() {
                        assert(merged@[i] == old_out[old_out.len() - 1 - i]);
                    }
                }
            }
        }
        let ghost before = dropped@;
        let d = dropped.pop().unwrap();
        proof {
            lemma_place_dropped(*compare, kept, dr, cuts@, t as int, v@, before, out);
            assert(before =~= dropped@.push(d));
            lemma_regroup(v@, dropped@, d, out);
        }
        merged.push(d);
        proof {
            let old_out = out;
            out = seq![d] + out;
            assert(v@.to_multiset().add(dropped@.to_multiset()).add(out.to_multiset())
                =~= v0.to_multiset());
            assert forall|i: int| 0 <= i < out.len() implies #[trigger] merged@[i] == out[out.len() - 1
                - i] by {
                if i < old_out.len() {
                    assert(merged@[i] == old_out[old_out.len() - 1 - i]);
                }
            }
            assert(prev_cut(cuts@, t + 1, write as int) == cut);
            assert(dropped@ =~= dr.subrange(0, k - (t + 1)));
        }
        t = t + 1;
    }
    let ghost prefix = v@;
    proof {
        assert(dropped@.len() == 0);
        assert(dropped@.to_multiset() =~= vstd::multiset::Multiset::empty());
        assert(v@ =~= prefix + out.subrange(0, 0));
    }
    while merged.len() > 0
        invariant
            merged@.len() <= out.len(),
            forall|i: int| 0 <= i < merged@.len() ==> #[trigger] merged@[i] == out[out.len() - 1 - i],
            v@ == prefix + out.subrange(0, out.len() - merged@.len()),
        decreases merged@.len(),
    {
        let x = merged.pop().unwrap();
        v.push(x);
        proof {
            assert(x == out[out.len() - 1 - merged@.len()]);
            assert(v@ =~= prefix + out.subrange(0, out.len() - merged@.len()));
        }
    }
    proof {
        assert(v@ =~= prefix + out);
        vstd::seq_lib::lemma_multiset_commutative(prefix, out);
        assert forall|i: int, j: int| 0 <= i < j < prefix.len() implies #[trigger] not_after(
            *compare,
            prefix[i],
            prefix[j],
        ) by {
            assert(prefix[i] == kept[i] && prefix[j] == kept[j]);
        }
        lemma_concat_sorted(*compare, prefix, out);
        if write == n {
            assert(k == 0);
            assert(out.len() == 0);
            assert(v@ =~= v0);
        }
    }
}

} // verus!
