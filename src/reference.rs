//! The reference form of drop-merge sort, for elements that can be copied.
//!
//! It follows the same steps as the moving sorter, but copies elements into a separate buffer of
//! dropped elements and merges them back by copying. It reports how many elements it dropped.
//! The buffer is kept in the arrangement that the moving sorter's swaps leave in its gap, so the
//! two sorters make the same comparisons and hand the same sequence to the sort of the dropped
//! elements.
use vstd::prelude::*;
use core::cmp::Ordering;
use vstd::laws_cmp::{obeys_cmp, obeys_cmp_ord};
use vstd::std_specs::cmp::OrdSpec;
use crate::dmsort::position_of_max;
use crate::policy::{
    DOUBLE_COMPARISONS, EARLY_OUT, EARLY_OUT_DISORDER_DEN, EARLY_OUT_DISORDER_NUM,
    EARLY_OUT_TEST_AT, FAST_BACKTRACKING, RECENCY,
};
use crate::runs::{
    lemma_concat_sorted, lemma_extend_sorted_range, lemma_prepend, lemma_regroup, sorted_range,
};
use crate::order::{
    already_sorted, ascending, implements, lemma_answer, lemma_natural_order,
    lemma_not_after_trans, natural_lt, not_after, sorted_by, sorted_under, valid_comparator,
    callable_on, orders, within, lemma_callable_within, lemma_callable_perm,
};
use crate::slice_ops::sort_from;
use std::collections::VecDeque;

verus! {

/// Counting the pieces `s[a..b)` and `s[b..c)` is counting `s[a..c)`.
proof fn lemma_split<T>(s: Seq<T>, a: int, b: int, c: int)
    requires
        0 <= a <= b <= c <= s.len(),
    ensures
        s.subrange(a, c).to_multiset() == s.subrange(a, b).to_multiset().add(
            s.subrange(b, c).to_multiset(),
        ),
{
    assert(s.subrange(a, c) =~= s.subrange(a, b) + s.subrange(b, c));
    vstd::seq_lib::lemma_multiset_commutative(s.subrange(a, b), s.subrange(b, c));
}

/// The multiset of a sequence with one more element.
proof fn lemma_push<T>(s: Seq<T>, x: T)
    ensures
        s.push(x).to_multiset() == s.to_multiset().insert(x),
{
    broadcast use vstd::seq_lib::group_to_multiset_ensures;

}

/// What the scan holds: the kept run `s[..write]`, the dropped elements and the unread `s[read..]`.
pub open spec fn scan_total<T>(s: Seq<T>, write: int, dropped: Seq<T>, read: int) -> vstd::multiset::Multiset<T> {
    s.subrange(0, write).to_multiset().add(dropped.to_multiset()).add(
        s.subrange(read, s.len() as int).to_multiset(),
    )
}

/// Keeping `s[read]` by copying it to `s[write]`.
proof fn lemma_keep_total<T>(s: Seq<T>, write: int, d: Seq<T>, read: int)
    requires
        0 <= write <= read < s.len(),
    ensures
        scan_total(s.update(write, s[read]), write + 1, d, read + 1) == scan_total(
            s,
            write,
            d,
            read,
        ),
{
    broadcast use vstd::multiset::group_multiset_axioms;

    broadcast use vstd::seq_lib::group_to_multiset_ensures;

    let n = s.len() as int;
    let x = s[read];
    let t = s.update(write, x);
    assert(t.subrange(0, write + 1) =~= s.subrange(0, write).push(x));
    assert(t.subrange(read + 1, n) =~= s.subrange(read + 1, n));
    lemma_push(s.subrange(0, write), x);
    lemma_split(s, read, read + 1, n);
    assert(s.subrange(read, read + 1) =~= Seq::<T>::empty().push(x));
    lemma_push(Seq::<T>::empty(), x);
    assert(Seq::<T>::empty().to_multiset() =~= vstd::multiset::Multiset::empty());
    assert(scan_total(t, write + 1, d, read + 1) =~= scan_total(s, write, d, read));
}

/// Dropping the last kept element `s[write - 1]` and keeping `s[read]` in its place.
proof fn lemma_swap_last_total<T>(s: Seq<T>, write: int, d: Seq<T>, read: int)
    requires
        0 < write <= read < s.len(),
    ensures
        scan_total(s.update(write - 1, s[read]), write, d.push(s[write - 1]), read + 1)
            == scan_total(s, write, d, read),
{
    broadcast use vstd::multiset::group_multiset_axioms;

    broadcast use vstd::seq_lib::group_to_multiset_ensures;

    let n = s.len() as int;
    let x = s[read];
    let y = s[write - 1];
    let t = s.update(write - 1, x);
    assert(t.subrange(0, write) =~= s.subrange(0, write - 1).push(x));
    assert(s.subrange(0, write) =~= s.subrange(0, write - 1).push(y));
    assert(t.subrange(read + 1, n) =~= s.subrange(read + 1, n));
    lemma_push(s.subrange(0, write - 1), x);
    lemma_push(s.subrange(0, write - 1), y);
    lemma_push(d, y);
    lemma_split(s, read, read + 1, n);
    assert(s.subrange(read, read + 1) =~= Seq::<T>::empty().push(x));
    lemma_push(Seq::<T>::empty(), x);
    assert(Seq::<T>::empty().to_multiset() =~= vstd::multiset::Multiset::empty());
    assert(scan_total(t, write, d.push(y), read + 1) =~= scan_total(s, write, d, read));
}

/// Dropping `s[read]`.
proof fn lemma_drop_total<T>(s: Seq<T>, write: int, d: Seq<T>, read: int)
    requires
        0 <= write <= read < s.len(),
    ensures
        scan_total(s, write, d.push(s[read]), read + 1) == scan_total(s, write, d, read),
{
    broadcast use vstd::multiset::group_multiset_axioms;

    broadcast use vstd::seq_lib::group_to_multiset_ensures;

    let n = s.len() as int;
    let x = s[read];
    lemma_push(d, x);
    lemma_split(s, read, read + 1, n);
    assert(s.subrange(read, read + 1) =~= Seq::<T>::empty().push(x));
    lemma_push(Seq::<T>::empty(), x);
    assert(Seq::<T>::empty().to_multiset() =~= vstd::multiset::Multiset::empty());
    assert(scan_total(s, write, d.push(x), read + 1) =~= scan_total(s, write, d, read));
}

/// Reading the last `k` dropped elements again, and dropping the kept elements `s[w..write)`.
proof fn lemma_backtrack_total<T>(s: Seq<T>, w: int, write: int, d: Seq<T>, read: int, k: int)
    requires
        0 <= w <= write,
        0 <= k <= d.len(),
        write <= read - k,
        read <= s.len(),
        d.subrange(d.len() - k, d.len() as int) == s.subrange(read - k, read),
    ensures
        scan_total(s, w, d.subrange(0, d.len() - k) + s.subrange(w, write), read - k)
            == scan_total(s, write, d, read),
{
    broadcast use vstd::multiset::group_multiset_axioms;

    let n = s.len() as int;
    let d1 = d.subrange(0, d.len() - k);
    lemma_split(s, 0, w, write);
    lemma_split(s, read - k, read, n);
    lemma_split(d, 0, d.len() - k, d.len() as int);
    assert(d.subrange(0, d.len() as int) =~= d);
    vstd::seq_lib::lemma_multiset_commutative(d1, s.subrange(w, write));
    assert(scan_total(s, w, d1 + s.subrange(w, write), read - k) =~= scan_total(
        s,
        write,
        d,
        read,
    ));
}

/// A tail of an unchanged tail is unchanged.
proof fn lemma_unread_tail<T>(s: Seq<T>, s0: Seq<T>, a: int, b: int)
    requires
        0 <= a <= b <= s.len(),
        s.len() == s0.len(),
        s.subrange(a, s.len() as int) == s0.subrange(a, s0.len() as int),
    ensures
        s.subrange(b, s.len() as int) == s0.subrange(b, s0.len() as int),
{
    assert forall|p: int| b <= p < s.len() implies s[p] == s0[p] by {
        assert(s.subrange(a, s.len() as int)[p - a] == s0.subrange(a, s0.len() as int)[p - a]);
    }
    assert(s.subrange(b, s.len() as int) =~= s0.subrange(b, s0.len() as int));
}

/// Moving the first element of a sequence to its back keeps its elements.
proof fn lemma_rotate<T>(d: Seq<T>)
    requires
        d.len() > 0,
    ensures
        d.subrange(1, d.len() as int).push(d[0]).to_multiset() == d.to_multiset(),
{
    broadcast use vstd::multiset::group_multiset_axioms;

    let rest = d.subrange(1, d.len() as int);
    lemma_push(rest, d[0]);
    assert(d =~= seq![d[0]] + rest);
    vstd::seq_lib::lemma_multiset_commutative(seq![d[0]], rest);
    lemma_push(Seq::<T>::empty(), d[0]);
    assert(seq![d[0]] =~= Seq::<T>::empty().push(d[0]));
    assert(Seq::<T>::empty().to_multiset() =~= vstd::multiset::Multiset::empty()) by {
        broadcast use vstd::seq_lib::group_to_multiset_ensures;
    }
    assert(rest.push(d[0]).to_multiset() =~= d.to_multiset());
}

/// `idx` lists increasing positions of `s` whose elements, in that order, make up `t`.
pub open spec fn picked<T>(s: Seq<T>, idx: Seq<int>, t: Seq<T>) -> bool {
    &&& idx.len() == t.len()
    &&& forall|i: int| 0 <= i < idx.len() ==> 0 <= #[trigger] idx[i] < s.len() && t[i] == s[idx[i]]
    &&& forall|i: int, j: int| 0 <= i < j < idx.len() ==> #[trigger] idx[i] < #[trigger] idx[j]
}

/// The scan of drop-merge sort, copying the dropped elements into `dropped`.
///
/// On `Some(write)`, `v[..write]` is the kept run, in order, and `dropped` the other elements,
/// arranged as the moving sorter's gap holds them.
/// On `None` the input looked too disordered and all of `v` was sorted instead; `dropped` then
/// tells how many elements had been dropped by then.
#[verifier::rlimit(80)]
fn copy_scan<T: Copy, F: Fn(&T, &T) -> Ordering>(
    v: &mut Vec<T>,
    dropped: &mut VecDeque<T>,
    compare: &F,
) -> (r: Option<usize>)
    requires
        old(dropped)@.len() == 0,
        valid_comparator(*compare, old(v)@),
    ensures
        final(v)@.len() == old(v)@.len(),
        match r {
            Some(write) => {
                &&& write + final(dropped)@.len() == final(v)@.len()
                &&& final(v)@.len() > 0 ==> write > 0
                &&& sorted_range(*compare, final(v)@, 0, write as int)
                &&& final(v)@.subrange(0, write as int).to_multiset().add(
                    final(dropped)@.to_multiset(),
                ) == old(v)@.to_multiset()
                &&& final(dropped)@.len() == 0 ==> final(v)@ == old(v)@
                &&& exists|idx: Seq<int>| picked(old(v)@, idx, final(v)@.subrange(0, write as int))
            },
            None => {
                &&& final(v)@.to_multiset() == old(v)@.to_multiset()
                &&& sorted_by(*compare, final(v)@)
                &&& 0 < final(dropped)@.len()
                &&& final(dropped)@.len() * EARLY_OUT_TEST_AT < final(v)@.len()
            },
        },
        already_sorted(*compare, old(v)@) ==> r == Some(old(v)@.len() as usize),
{
    broadcast use vstd::multiset::group_multiset_axioms;
    broadcast use vstd::seq_lib::group_to_multiset_ensures;

    let n = v.len();
    let ghost v0 = v@;
    let mut num_dropped_in_row: usize = 0;
    let mut write: usize = 0;
    let mut read: usize = 0;
    let mut iteration: usize = 0;
    let early_out_stop: usize = n / EARLY_OUT_TEST_AT;
    let ghost mut kept_at: Seq<int> = Seq::empty();
    proof {
        assert(v@.subrange(0, 0).to_multiset() =~= vstd::multiset::Multiset::empty());
        assert(dropped@.to_multiset() =~= vstd::multiset::Multiset::empty());
        assert(v@.subrange(0, n as int) =~= v@);
    }
    while read < n
        invariant
            v@.len() == n,
            v0.len() == n,
            v0 == old(v)@,
            write + dropped@.len() == read,
            read <= n,
            num_dropped_in_row <= RECENCY,
            num_dropped_in_row <= dropped@.len(),
            num_dropped_in_row > 0 ==> write > 0,
            v@.subrange(read - num_dropped_in_row, n as int) == v0.subrange(
                read - num_dropped_in_row,
                n as int,
            ),
            dropped@.subrange(dropped@.len() - num_dropped_in_row, dropped@.len() as int)
                == v@.subrange(read - num_dropped_in_row, read as int),
            scan_total(v@, write as int, dropped@, read as int) == v0.to_multiset(),
            early_out_stop == n / EARLY_OUT_TEST_AT,
            iteration <= early_out_stop + 1,
            iteration <= early_out_stop ==> read <= iteration,
            orders(*compare),
            callable_on(*compare, v0),
            within(v@, v0),
            within(dropped@, v0),
            sorted_range(*compare, v@, 0, write as int),
            dropped@.len() == 0 ==> write == read && v@ == v0,
            read == n && n > 0 ==> write > 0,
            already_sorted(*compare, v0) ==> dropped@.len() == 0,
            kept_at.len() == write,
            forall|i: int|
                0 <= i < write ==> 0 <= #[trigger] kept_at[i] < read - num_dropped_in_row
                    && v@[i] == v0[kept_at[i]],
            forall|i: int, j: int| 0 <= i < j < write ==> #[trigger] kept_at[i] < #[trigger] kept_at[j],
        decreases n - (dropped@.len() - num_dropped_in_row), n - read,
    {
        proof {
            lemma_callable_within(*compare, v0, v@);
        }
        if iteration <= early_out_stop {
            iteration = iteration + 1;
        }
        if EARLY_OUT && iteration == early_out_stop && dropped.len() > read
            * EARLY_OUT_DISORDER_NUM / EARLY_OUT_DISORDER_DEN {
            // Too disordered: write the dropped elements back into the gap and sort everything.
            let ghost before = v@;
            let mut i: usize = 0;
            while i < dropped.len()
                invariant
                    v@.len() == n,
                    before.len() == n,
                    write + dropped@.len() == read,
                    read <= n,
                    i <= dropped@.len(),
                    forall|p: int|
                        0 <= p < n && (p < write || p >= read) ==> #[trigger] v@[p] == before[p],
                    forall|m: int| 0 <= m < i ==> #[trigger] v@[write + m] == dropped@[m],
                decreases dropped@.len() - i,
            {
                v[write + i] = dropped[i];
                i = i + 1;
            }
            proof {
                assert forall|p: int| write <= p < read implies #[trigger] v@[p] == dropped@[p
                    - write] by {
                    assert(v@[write + (p - write)] == dropped@[p - write]);
                }
                assert(v@ =~= before.subrange(0, write as int) + dropped@ + before.subrange(
                    read as int,
                    n as int,
                ));
                vstd::seq_lib::lemma_multiset_commutative(
                    before.subrange(0, write as int),
                    dropped@,
                );
                vstd::seq_lib::lemma_multiset_commutative(
                    before.subrange(0, write as int) + dropped@,
                    before.subrange(read as int, n as int),
                );
                assert(v@.subrange(0, n as int) == v@);
                assert(v@.to_multiset() == v0.to_multiset());
                lemma_callable_perm(*compare, v0, v@);
            }
            sort_from(v, 0, compare);
            proof {
                assert(v@.subrange(0, n as int) == v@);
            }
            return None;
        }
        let keep = if write == 0 {
            true
        } else {
            let c = compare(&v[read], &v[write - 1]);
            proof {
                lemma_answer(*compare, v@[read as int], v@[write - 1], c);
            }
            !matches!(c, Ordering::Less)
        };
        proof {
            if !keep && already_sorted(*compare, v0) {
                let lt = choose|lt: spec_fn(T, T) -> bool|
                    #[trigger] implements(*compare, lt) && sorted_under(lt, v0);
                assert(lt(v0[read as int], v0[write - 1]));
            }
        }
        if keep {
            // In order: keep it.
            let ghost before = v@;
            proof {
                assert(before[read as int] == v0[read as int]) by {
                    let k = num_dropped_in_row as int;
                    assert(before.subrange(read - k, n as int)[k] == v0.subrange(read - k, n as int)[k]);
                }
            }
            let x = v[read];
            v[write] = x;
            proof {
                kept_at = kept_at.push(read as int);
                lemma_extend_sorted_range(*compare, before, v@, write as int);
                lemma_keep_total(before, write as int, dropped@, read as int);
                assert(v@.subrange(read + 1, n as int) =~= before.subrange(read + 1, n as int));
                lemma_unread_tail(before, v0, read - num_dropped_in_row, read + 1);
                if dropped@.len() == 0 {
                    assert(v@ =~= v0);
                }
            }
            if dropped.len() > 0 {
                // Where the moving sorter keeps an element, its swap sends the first dropped
                // element to the back of the gap: the buffer follows the same arrangement, so
                // that both sorters hand the same sequence to the sort of the dropped elements.
                let ghost d_before = dropped@;
                let first = dropped.pop_front().unwrap();
                dropped.push_back(first);
                proof {
                    lemma_rotate(d_before);
                    assert(dropped@ == d_before.subrange(1, d_before.len() as int).push(
                        d_before[0],
                    ));
                }
            }
            read = read + 1;
            write = write + 1;
            num_dropped_in_row = 0;
        } else {
            let quick = if DOUBLE_COMPARISONS && num_dropped_in_row == 0 && 2 <= write {
                let c = compare(&v[read], &v[write - 2]);
                proof {
                    lemma_answer(*compare, v@[read as int], v@[write - 2], c);
                }
                !matches!(c, Ordering::Less)
            } else {
                false
            };
            if quick {
                // Only the last kept element was out of place: drop it and keep this one instead.
                let ghost before = v@;
                let ghost d_before = dropped@;
                let y = v[write - 1];
                dropped.push_back(y);
                proof {
                    assert(before[read as int] == v0[read as int]) by {
                        assert(before.subrange(read as int, n as int)[0] == v0.subrange(
                            read as int,
                            n as int,
                        )[0]);
                    }
                }
                let x = v[read];
                v[write - 1] = x;
                proof {
                    kept_at = kept_at.update(write - 1, read as int);
                    lemma_extend_sorted_range(*compare, before, v@, write - 1);
                    lemma_swap_last_total(before, write as int, d_before, read as int);
                    assert(v@.subrange(read + 1, n as int) =~= before.subrange(read + 1, n as int));
                    lemma_unread_tail(before, v0, read as int, read + 1);
                    assert(dropped@.subrange(dropped@.len() as int, dropped@.len() as int)
                        =~= v@.subrange(read + 1, read + 1));
                }
                read = read + 1;
            } else if num_dropped_in_row < RECENCY {
                // Drop it.
                let ghost d_before = dropped@;
                let x = v[read];
                dropped.push_back(x);
                proof {
                    lemma_drop_total(v@, write as int, d_before, read as int);
                    let k = num_dropped_in_row as int;
                    assert(dropped@.subrange(dropped@.len() - (k + 1), dropped@.len() as int)
                        =~= d_before.subrange(d_before.len() - k, d_before.len() as int).push(x));
                    assert(v@.subrange(read - k, read + 1) =~= v@.subrange(read - k, read as int).push(
                        x,
                    ));
                }
                read = read + 1;
                num_dropped_in_row = num_dropped_in_row + 1;
            } else {
                // RECENCY drops in a row: keeping the last kept element was a mistake. Read the
                // dropped elements again, and drop kept elements until one of them fits.
                let ghost d_before = dropped@;
                let ghost read_before = read;
                let ghost write_before = write;
                let trunc_to_length = dropped.len() - num_dropped_in_row;
                dropped.truncate(trunc_to_length);
                read = read - num_dropped_in_row;
                let mut num_backtracked: usize = 1;
                write = write - 1;
                if FAST_BACKTRACKING {
                    let max_pos = position_of_max(v, read, read + num_dropped_in_row + 1, compare);
                    while 1 <= write && matches!(compare(&v[max_pos], &v[write - 1]), Ordering::Less)
                        invariant
                            write + num_backtracked == write_before,
                            num_backtracked >= 1,
                            write <= read <= n,
                            max_pos < n,
                            v@.len() == n,
                            orders(*compare),
                            callable_on(*compare, v@),
                        decreases write,
                    {
                        num_backtracked = num_backtracked + 1;
                        write = write - 1;
                    }
                }
                // Drop the kept elements given up, in front of the others, where the moving
                // sorter's gap has them.
                let mut m: usize = write + num_backtracked;
                while m > write
                    invariant
                        write + num_backtracked == write_before,
                        num_backtracked >= 1,
                        trunc_to_length <= d_before.len(),
                        write <= m <= write_before,
                        write_before <= read <= n,
                        v@.len() == n,
                        within(v@, v0),
                        within(d_before, v0),
                        dropped@ == v@.subrange(m as int, write_before as int) + d_before.subrange(
                            0,
                            trunc_to_length as int,
                        ),
                    decreases m,
                {
                    let x = v[m - 1];
                    dropped.push_front(x);
                    proof {
                        assert(v@.subrange(m - 1, write_before as int) =~= seq![x] + v@.subrange(
                            m as int,
                            write_before as int,
                        ));
                    }
                    m = m - 1;
                }
                proof {
                    let d1 = d_before.subrange(0, trunc_to_length as int);
                    let given_up = v@.subrange(write as int, write_before as int);
                    lemma_backtrack_total(
                        v@,
                        write as int,
                        write_before as int,
                        d_before,
                        read_before as int,
                        num_dropped_in_row as int,
                    );
                    vstd::seq_lib::lemma_multiset_commutative(d1, given_up);
                    vstd::seq_lib::lemma_multiset_commutative(given_up, d1);
                    assert(scan_total(v@, write as int, dropped@, read as int) == scan_total(
                        v@,
                        write as int,
                        d1 + given_up,
                        read as int,
                    ));
                    assert(dropped@.subrange(dropped@.len() as int, dropped@.len() as int)
                        =~= v@.subrange(read as int, read as int));
                    assert(dropped@.len() == trunc_to_length + num_backtracked);
                    assert forall|p: int| 0 <= p < dropped@.len() implies v0.contains(
                        #[trigger] dropped@[p],
                    ) by {
                        if p < num_backtracked {
                            assert(dropped@[p] == v@[write + p]);
                        } else {
                            assert(dropped@[p] == d_before[p - num_backtracked]);
                        }
                    }
                    assert(dropped@.len() > 0);
                    kept_at = kept_at.subrange(0, write as int);
                }
                num_dropped_in_row = 0;
            }
        }
    }
    proof {
        assert(v@.subrange(n as int, n as int).to_multiset() =~= vstd::multiset::Multiset::empty());
        assert(picked(v0, kept_at, v@.subrange(0, write as int)));
    }
    Some(write)
}

/// Merges the sorted `dropped` elements into the kept run `v[..write]`, filling `v` from the back.
fn copy_merge<T: Copy, F: Fn(&T, &T) -> Ordering>(
    v: &mut Vec<T>,
    dropped: &mut Vec<T>,
    write: usize,
    compare: &F,
)
    requires
        write + old(dropped)@.len() == old(v)@.len(),
        valid_comparator(*compare, old(v)@.subrange(0, write as int) + old(dropped)@),
        sorted_range(*compare, old(v)@, 0, write as int),
        sorted_range(*compare, old(dropped)@, 0, old(dropped)@.len() as int),
    ensures
        final(v)@.to_multiset() == old(v)@.subrange(0, write as int).to_multiset().add(
            old(dropped)@.to_multiset(),
        ),
        sorted_by(*compare, final(v)@),
        old(dropped)@.len() == 0 ==> final(v)@ == old(v)@,
{
    broadcast use vstd::multiset::group_multiset_axioms;
    broadcast use vstd::seq_lib::group_to_multiset_ensures;

    let n = v.len();
    let mut write = write;
    let mut back = n;
    let ghost v0 = v@;
    let ghost kept0 = v@.subrange(0, write as int);
    let ghost d0 = dropped@;
    let ghost mut tail: Seq<T> = Seq::empty();
    proof {
        assert(v@.subrange(n as int, n as int) =~= tail);
        assert(dropped@ =~= d0.subrange(0, d0.len() as int));
        assert(v@.subrange(0, write as int) =~= kept0.subrange(0, write as int));
        assert(tail.to_multiset() =~= vstd::multiset::Multiset::empty());
        assert forall|i: int, j: int| 0 <= i < j < kept0.len() implies #[trigger] not_after(
            *compare,
            kept0[i],
            kept0[j],
        ) by {
            assert(kept0[i] == v0[i] && kept0[j] == v0[j]);
        }
    }
    while dropped.len() > 0
        invariant
            v@.len() == n,
            back == write + dropped@.len(),
            back <= n,
            write <= kept0.len(),
            orders(*compare),
            callable_on(*compare, kept0 + d0),
            v@.subrange(0, write as int) == kept0.subrange(0, write as int),
            sorted_range(*compare, kept0, 0, kept0.len() as int),
            dropped@ == d0.subrange(0, dropped@.len() as int),
            dropped@.len() <= d0.len(),
            sorted_range(*compare, d0, 0, d0.len() as int),
            v@.subrange(back as int, n as int) == tail,
            sorted_range(*compare, tail, 0, tail.len() as int),
            forall|a: int, b: int|
                0 <= a < write && 0 <= b < tail.len() ==> #[trigger] not_after(
                    *compare,
                    kept0[a],
                    tail[b],
                ),
            forall|a: int, b: int|
                0 <= a < dropped@.len() && 0 <= b < tail.len() ==> #[trigger] not_after(
                    *compare,
                    d0[a],
                    tail[b],
                ),
            kept0.subrange(0, write as int).to_multiset().add(dropped@.to_multiset()).add(
                tail.to_multiset(),
            ) == kept0.to_multiset().add(d0.to_multiset()),
            d0.len() == 0 ==> v@ == v0,
        decreases dropped@.len(),
    {
        let last_dropped = dropped[dropped.len() - 1];
        let ghost d_idx = dropped@.len() - 1;
        loop
            invariant
                v@.len() == n,
                back == write + dropped@.len(),
                back <= n,
                write <= kept0.len(),
                dropped@.len() > 0,
                last_dropped == d0[d_idx],
                d_idx == dropped@.len() - 1,
                orders(*compare),
                callable_on(*compare, kept0 + d0),
                v@.subrange(0, write as int) == kept0.subrange(0, write as int),
                sorted_range(*compare, kept0, 0, kept0.len() as int),
                dropped@ == d0.subrange(0, dropped@.len() as int),
                dropped@.len() <= d0.len(),
                sorted_range(*compare, d0, 0, d0.len() as int),
                v@.subrange(back as int, n as int) == tail,
                sorted_range(*compare, tail, 0, tail.len() as int),
                forall|a: int, b: int|
                    0 <= a < write && 0 <= b < tail.len() ==> #[trigger] not_after(
                        *compare,
                        kept0[a],
                        tail[b],
                    ),
                forall|a: int, b: int|
                    0 <= a < dropped@.len() && 0 <= b < tail.len() ==> #[trigger] not_after(
                        *compare,
                        d0[a],
                        tail[b],
                    ),
                kept0.subrange(0, write as int).to_multiset().add(dropped@.to_multiset()).add(
                    tail.to_multiset(),
                ) == kept0.to_multiset().add(d0.to_multiset()),
            ensures
                write > 0 ==> not_after(*compare, kept0[write - 1], last_dropped),
            decreases write,
        {
            if write == 0 {
                break;
            }
            proof {
                assert(v@[write - 1] == kept0[write - 1]) by {
                    assert(v@.subrange(0, write as int)[write - 1] == kept0.subrange(
                        0,
                        write as int,
                    )[write - 1]);
                }
                assert((kept0 + d0)[write - 1] == kept0[write - 1]);
                assert((kept0 + d0)[kept0.len() + d_idx] == d0[d_idx]);
                assert((kept0 + d0).contains(v@[write - 1]));
                assert((kept0 + d0).contains(last_dropped));
            }
            let c = compare(&last_dropped, &v[write - 1]);
            proof {
                assert(v@[write - 1] == kept0[write - 1]) by {
                    assert(v@.subrange(0, write as int)[write - 1] == kept0.subrange(
                        0,
                        write as int,
                    )[write - 1]);
                }
                lemma_answer(*compare, last_dropped, v@[write - 1], c);
            }
            if !matches!(c, Ordering::Less) {
                break;
            }
            // The last kept element is larger: it moves to the back.
            let ghost before = v@;
            let x = v[write - 1];
            v[back - 1] = x;
            proof {
                let r1 = kept0.subrange(0, write - 1);
                assert forall|a: int| 0 <= a < r1.len() implies #[trigger] not_after(
                    *compare,
                    r1[a],
                    x,
                ) by {
                    assert(not_after(*compare, kept0[a], kept0[write - 1]));
                }
                assert forall|a: int| 0 <= a < dropped@.len() implies #[trigger] not_after(
                    *compare,
                    dropped@[a],
                    x,
                ) by {
                    assert(dropped@[a] == d0[a]);
                    if a < d_idx {
                        assert(not_after(*compare, d0[a], d0[d_idx]));
                        lemma_not_after_trans(*compare, d0[a], last_dropped, x);
                    }
                }
                assert forall|b: int| 0 <= b < tail.len() implies #[trigger] not_after(
                    *compare,
                    x,
                    tail[b],
                ) by {
                    assert(not_after(*compare, kept0[write - 1], tail[b]));
                }
                assert forall|a: int, b: int|
                    0 <= a < r1.len() && 0 <= b < tail.len() implies #[trigger] not_after(
                    *compare,
                    r1[a],
                    tail[b],
                ) by {
                    assert(not_after(*compare, kept0[a], tail[b]));
                }
                assert forall|a: int, b: int|
                    0 <= a < dropped@.len() && 0 <= b < tail.len() implies #[trigger] not_after(
                    *compare,
                    dropped@[a],
                    tail[b],
                ) by {
                    assert(dropped@[a] == d0[a]);
                    assert(not_after(*compare, d0[a], tail[b]));
                }
                lemma_prepend(*compare, r1, dropped@, tail, x);
                assert(kept0.subrange(0, write as int) =~= r1.push(x));
                lemma_regroup(r1, dropped@, x, tail);
                let new_tail = seq![x] + tail;
                assert(v@.subrange(back - 1, n as int) =~= new_tail);
                assert(v@.subrange(0, write - 1) =~= kept0.subrange(0, write - 1));
                assert forall|a: int, b: int|
                    0 <= a < write - 1 && 0 <= b < new_tail.len() implies #[trigger] not_after(
                    *compare,
                    kept0[a],
                    new_tail[b],
                ) by {
                    assert(r1[a] == kept0[a]);
                }
                assert forall|a: int, b: int|
                    0 <= a < dropped@.len() && 0 <= b < new_tail.len() implies #[trigger] not_after(
                    *compare,
                    d0[a],
                    new_tail[b],
                ) by {
                    assert(dropped@[a] == d0[a]);
                }
                tail = new_tail;
            }
            back = back - 1;
            write = write - 1;
        }
        // Every kept element left may stand before it: the last dropped element goes here.
        let ghost before = v@;
        let ghost d_before = dropped@;
        v[back - 1] = last_dropped;
        dropped.pop();
        proof {
            let r1 = kept0.subrange(0, write as int);
            let r2 = dropped@;
            assert(d_before =~= r2.push(last_dropped));
            assert forall|a: int| 0 <= a < r1.len() implies #[trigger] not_after(
                *compare,
                r1[a],
                last_dropped,
            ) by {
                assert(not_after(*compare, kept0[a], kept0[write - 1]));
                lemma_not_after_trans(*compare, kept0[a], kept0[write - 1], last_dropped);
            }
            assert forall|a: int| 0 <= a < r2.len() implies #[trigger] not_after(
                *compare,
                r2[a],
                last_dropped,
            ) by {
                assert(r2[a] == d0[a]);
                assert(not_after(*compare, d0[a], d0[d_idx]));
            }
            assert forall|b: int| 0 <= b < tail.len() implies #[trigger] not_after(
                *compare,
                last_dropped,
                tail[b],
            ) by {
                assert(not_after(*compare, d0[d_idx], tail[b]));
            }
            assert forall|a: int, b: int|
                0 <= a < r1.len() && 0 <= b < tail.len() implies #[trigger] not_after(
                *compare,
                r1[a],
                tail[b],
            ) by {
                assert(not_after(*compare, kept0[a], tail[b]));
            }
            assert forall|a: int, b: int|
                0 <= a < r2.len() && 0 <= b < tail.len() implies #[trigger] not_after(
                *compare,
                r2[a],
                tail[b],
            ) by {
                assert(r2[a] == d0[a]);
                assert(not_after(*compare, d0[a], tail[b]));
            }
            lemma_prepend(*compare, r1, r2, tail, last_dropped);
            lemma_regroup(r1, r2, last_dropped, tail);
            let new_tail = seq![last_dropped] + tail;
            assert(v@.subrange(back - 1, n as int) =~= new_tail);
            assert(v@.subrange(0, write as int) =~= kept0.subrange(0, write as int));
            assert(r2 =~= d0.subrange(0, r2.len() as int));
            assert forall|a: int, b: int|
                0 <= a < write && 0 <= b < new_tail.len() implies #[trigger] not_after(
                *compare,
                kept0[a],
                new_tail[b],
            ) by {
                assert(r1[a] == kept0[a]);
            }
            assert forall|a: int, b: int|
                0 <= a < r2.len() && 0 <= b < new_tail.len() implies #[trigger] not_after(
                *compare,
                d0[a],
                new_tail[b],
            ) by {
                assert(r2[a] == d0[a]);
            }
            tail = new_tail;
        }
        back = back - 1;
    }
    proof {
        assert(dropped@.to_multiset() =~= vstd::multiset::Multiset::empty());
        let prefix = kept0.subrange(0, write as int);
        assert(v@ =~= prefix + tail);
        vstd::seq_lib::lemma_multiset_commutative(prefix, tail);
        assert(v0.subrange(0, kept0.len() as int) == kept0);
        assert forall|i: int, j: int| 0 <= i < j < prefix.len() implies #[trigger] not_after(
            *compare,
            prefix[i],
            prefix[j],
        ) by {
            assert(prefix[i] == kept0[i] && prefix[j] == kept0[j]);
        }
        assert forall|i: int, j: int|
            0 <= i < prefix.len() && 0 <= j < tail.len() implies #[trigger] not_after(
            *compare,
            prefix[i],
            tail[j],
        ) by {
            assert(prefix[i] == kept0[i]);
        }
        lemma_concat_sorted(*compare, prefix, tail);
    }
}

/// Sorts `v` with the comparator `compare` by copying elements, and returns how many elements
/// it dropped from the kept run and merged back; when it gave up on a disordered input and
/// sorted everything, it returns an estimate: `EARLY_OUT_TEST_AT` times the drops seen by then.
///
/// Afterwards `v` holds the same elements, in an order that every strict weak order `compare`
/// implements accepts. The count is 0 exactly when `v` was already in order, and then nothing
/// moved; otherwise at least one element stays in the kept run, so the count is below `len`.
/// Unless it is the estimate (a positive multiple of `EARLY_OUT_TEST_AT`), the count is `len`
/// less the length of the kept run, which is an in-order subsequence of the input; so it is at
/// least `len` less the length of a longest in-order subsequence.
pub fn sort_copy_by<T: Copy, F: Fn(&T, &T) -> Ordering>(v: &mut Vec<T>, compare: F) -> (num_dropped:
    usize)
    requires
        valid_comparator(compare, old(v)@),
    ensures
        final(v)@.to_multiset() == old(v)@.to_multiset(),
        sorted_by(compare, final(v)@),
        old(v)@.len() < 2 ==> num_dropped == 0,
        old(v)@.len() >= 2 ==> num_dropped < old(v)@.len(),
        num_dropped == 0 ==> final(v)@ == old(v)@,
        num_dropped == 0 <==> already_sorted(compare, old(v)@),
        (exists|idx: Seq<int>, run: Seq<T>|
            #[trigger] picked(old(v)@, idx, run) && sorted_by(compare, run) && run.len()
                + num_dropped == old(v)@.len()) || (num_dropped > 0 && num_dropped
            % EARLY_OUT_TEST_AT == 0),
{
    broadcast use vstd::multiset::group_multiset_axioms;

    let n = v.len();
    if n < 2 {
        proof {
            let lt = choose|lt: spec_fn(T, T) -> bool| #[trigger] implements(compare, lt);
            assert(sorted_under(lt, v@));
            let idx = Seq::new(n as nat, |i: int| i);
            assert(picked(v@, idx, v@));
        }
        return 0;
    }
    let ghost v0 = v@;
    let mut gap: VecDeque<T> = VecDeque::new();
    match copy_scan(v, &mut gap, &compare) {
        None => gap.len() * EARLY_OUT_TEST_AT,
        Some(write) => {
            let ghost scanned = v@;
            proof {
                let run = scanned.subrange(0, write as int);
                let idx = choose|idx: Seq<int>| picked(v0, idx, run);
                assert forall|i: int, j: int| 0 <= i < j < run.len() implies #[trigger] not_after(
                    compare,
                    run[i],
                    run[j],
                ) by {
                    assert(run[i] == scanned[i] && run[j] == scanned[j]);
                }
                assert(picked(v0, idx, run) && sorted_by(compare, run));
            }
            let ghost in_gap = gap@;
            let mut dropped: Vec<T> = Vec::new();
            while gap.len() > 0
                invariant
                    dropped@ + gap@ == in_gap,
                decreases gap@.len(),
            {
                let ghost g = gap@;
                let x = gap.pop_front().unwrap();
                dropped.push(x);
                proof {
                    assert(dropped@ + gap@ =~= in_gap);
                }
            }
            proof {
                assert(dropped@ =~= in_gap);
            }
            let num_dropped = dropped.len();
            let ghost live = v@.subrange(0, write as int) + dropped@;
            let ghost unsorted = dropped@;
            proof {
                assert(dropped@.subrange(0, num_dropped as int) == dropped@);
                vstd::seq_lib::lemma_multiset_commutative(v@.subrange(0, write as int), dropped@);
                lemma_callable_perm(compare, v0, live);
                assert forall|p: int| 0 <= p < dropped@.len() implies live.contains(
                    #[trigger] dropped@[p],
                ) by {
                    assert(live[write + p] == dropped@[p]);
                }
                lemma_callable_within(compare, live, dropped@);
            }
            sort_from(&mut dropped, 0, &compare);
            proof {
                assert(dropped@.subrange(0, num_dropped as int) == dropped@);
                assert forall|i: int, j: int| 0 <= i < j < dropped@.len() implies #[trigger] not_after(
                    compare,
                    dropped@[i],
                    dropped@[j],
                ) by {
                    assert(dropped@.subrange(0, num_dropped as int)[i] == dropped@[i]);
                    assert(dropped@.subrange(0, num_dropped as int)[j] == dropped@[j]);
                }
            }
            proof {
                vstd::seq_lib::lemma_multiset_commutative(v@.subrange(0, write as int), dropped@);
                assert(dropped@.to_multiset() == unsorted.to_multiset());
                lemma_callable_perm(compare, live, v@.subrange(0, write as int) + dropped@);
            }
            copy_merge(v, &mut dropped, write, &compare);
            proof {
                if num_dropped == 0 {
                    let lt = choose|lt: spec_fn(T, T) -> bool| #[trigger] implements(compare, lt);
                    assert forall|i: int, j: int| 0 <= i < j < v@.len() implies !#[trigger] lt(
                        v@[j],
                        v@[i],
                    ) by {
                        assert(not_after(compare, v@[i], v@[j]));
                    }
                    assert(sorted_under(lt, old(v)@));
                }
            }
            num_dropped
        },
    }
}

/// Sorts `v` by the natural order of `T`, which must be a lawful total order, by copying
/// elements; returns what `sort_copy_by` does.
///
/// Afterwards `v` holds the same elements, none comparing greater than a later one. A `v` that is
/// already in order is left as it is, with no drops.
pub fn sort_copy<T: Copy + Ord>(v: &mut Vec<T>) -> (num_dropped: usize)
    requires
        obeys_cmp::<T>(),
    ensures
        final(v)@.to_multiset() == old(v)@.to_multiset(),
        ascending(final(v)@),
        old(v)@.len() < 2 ==> num_dropped == 0,
        old(v)@.len() >= 2 ==> num_dropped < old(v)@.len(),
        num_dropped == 0 ==> final(v)@ == old(v)@,
        num_dropped == 0 <==> ascending(old(v)@),
        (exists|idx: Seq<int>, run: Seq<T>|
            #[trigger] picked(old(v)@, idx, run) && ascending(run) && run.len() + num_dropped
                == old(v)@.len()) || (num_dropped > 0 && num_dropped % EARLY_OUT_TEST_AT == 0),
{
    let compare = |a: &T, b: &T| -> (o: Ordering)
        ensures
            T::obeys_cmp_spec() ==> o == a.cmp_spec(b),
        { a.cmp(b) };
    proof {
        reveal(obeys_cmp_ord);
        lemma_natural_order::<T>();
        let lt = natural_lt::<T>();
        assert(implements(compare, lt));
        if ascending(old(v)@) {
            assert forall|i: int, j: int| 0 <= i < j < old(v)@.len() implies !#[trigger] lt(
                old(v)@[j],
                old(v)@[i],
            ) by {
                assert(old(v)@[i].cmp_spec(&old(v)@[j]) != Ordering::Greater);
            }
            assert(sorted_under(lt, old(v)@));
        }
    }
    let num_dropped = sort_copy_by(v, compare);
    proof {
        let lt = natural_lt::<T>();
        assert forall|i: int, j: int| 0 <= i < j < v@.len() implies #[trigger] v@[i].cmp_spec(
            &v@[j],
        ) != Ordering::Greater by {
            assert(not_after(compare, v@[i], v@[j]));
            assert(implements(compare, lt));
            assert(!lt(v@[j], v@[i]));
        }
        if num_dropped == 0 {
            assert(v@ == old(v)@);
        }
        if !(num_dropped > 0 && num_dropped % EARLY_OUT_TEST_AT == 0) {
            let (idx, run) = choose|idx: Seq<int>, run: Seq<T>|
                #[trigger] picked(old(v)@, idx, run) && sorted_by(compare, run) && run.len()
                    + num_dropped == old(v)@.len();
            assert forall|i: int, j: int| 0 <= i < j < run.len() implies #[trigger] run[i].cmp_spec(
                &run[j],
            ) != Ordering::Greater by {
                assert(not_after(compare, run[i], run[j]));
                assert(!lt(run[j], run[i]));
            }
            assert(picked(old(v)@, idx, run) && ascending(run));
        }
    }
    num_dropped
}

} // verus!
