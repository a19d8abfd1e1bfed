//! Drop-merge sort, moving elements without copying them.
//!
//! A single pass keeps a heuristically long non-decreasing run at the front of the sequence and
//! drops the elements that do not fit it; the dropped elements are then sorted and merged back
//! from the back. Until the very last step elements move only by swaps inside the sequence, so
//! the sequence holds every one of its elements whenever the comparator runs.
use vstd::prelude::*;
use core::cmp::Ordering;
use vstd::laws_cmp::{obeys_cmp, obeys_cmp_ord};
use vstd::std_specs::cmp::OrdSpec;
use crate::order::{
    already_sorted, ascending, implements, key_lt, key_of, lemma_answer, lemma_key_order,
    lemma_natural_order, lemma_not_after_refl, lemma_not_after_trans, natural_lt, not_after,
    ordering_of, sorted_by, sorted_under, valid_comparator, valid_key, orders, callable_on,
    lemma_within_perm, lemma_callable_within, lemma_callable_perm,
};
use crate::policy::{
    DOUBLE_COMPARISONS, EARLY_OUT, EARLY_OUT_DISORDER_DEN, EARLY_OUT_DISORDER_NUM,
    EARLY_OUT_TEST_AT, FAST_BACKTRACKING, RECENCY,
};
use crate::runs::{lemma_extend_sorted_range, lemma_swap_to_multiset, sorted_range};
use crate::merge::{apply_merge, plan_merge};
use crate::slice_ops::{sort_from, swap_at};

verus! {

/// The position of a largest element of `v[start..end)`, the last one among equals.
pub(crate) fn position_of_max<T, F: Fn(&T, &T) -> Ordering>(
    v: &Vec<T>,
    start: usize,
    end: usize,
    compare: &F,
) -> (m: usize)
    requires
        start < end <= v@.len(),
        orders(*compare),
        callable_on(*compare, v@),
    ensures
        start <= m < end,
        forall|i: int| start <= i < end ==> #[trigger] not_after(*compare, v@[i], v@[m as int]),
{
    let mut best: usize = start;
    let mut i: usize = start + 1;
    proof {
        lemma_not_after_refl(*compare, v@[start as int]);
    }
    while i < end
        invariant
            start <= best < i <= end <= v@.len(),
            orders(*compare),
            callable_on(*compare, v@),
            forall|k: int| start <= k < i ==> #[trigger] not_after(*compare, v@[k], v@[best as int]),
        decreases end - i,
    {
        let c = compare(&v[best], &v[i]);
        proof {
            lemma_answer(*compare, v@[best as int], v@[i as int], c);
        }
        if !matches!(c, Ordering::Greater) {
            proof {
                assert forall|k: int| start <= k < i + 1 implies #[trigger] not_after(
                    *compare,
                    v@[k],
                    v@[i as int],
                ) by {
                    if k < i {
                        lemma_not_after_trans(*compare, v@[k], v@[best as int], v@[i as int]);
                    } else {
                        lemma_not_after_refl(*compare, v@[k]);
                    }
                }
            }
            best = i;
        }
        i = i + 1;
    }
    best
}

/// The scan of drop-merge sort, moving elements by swaps only.
///
/// On `Some(write)`, `v[..write]` is the kept run, in order, and `v[write..]` holds the dropped
/// elements. On `None` the input looked too disordered and all of `v` was sorted instead.
/// Every element stays in `v` throughout, also across each call of `compare`.
fn keep_run<T, F: Fn(&T, &T) -> Ordering>(v: &mut Vec<T>, compare: &F) -> (r: Option<usize>)
    requires
        valid_comparator(*compare, old(v)@),
    ensures
        final(v)@.to_multiset() == old(v)@.to_multiset(),
        final(v)@.len() == old(v)@.len(),
        match r {
            Some(write) => write <= final(v)@.len() && sorted_range(
                *compare,
                final(v)@,
                0,
                write as int,
            ),
            None => sorted_by(*compare, final(v)@),
        },
        already_sorted(*compare, old(v)@) ==> r == Some(old(v)@.len() as usize) && final(v)@ == old(v)@,
{
    let n = v.len();
    let ghost v0 = v@;
    let mut num_dropped_in_row: usize = 0;
    let mut write: usize = 0;
    let mut read: usize = 0;
    let mut iteration: usize = 0;
    let early_out_stop: usize = n / EARLY_OUT_TEST_AT;
    while read < n
        invariant
            v@.len() == n,
            v0.len() == n,
            v0 == old(v)@,
            v@.to_multiset() == v0.to_multiset(),
            write <= read <= n,
            num_dropped_in_row <= RECENCY,
            num_dropped_in_row <= read - write,
            num_dropped_in_row > 0 ==> write > 0,
            early_out_stop == n / EARLY_OUT_TEST_AT,
            iteration <= early_out_stop + 1,
            iteration <= early_out_stop ==> read <= iteration,
            orders(*compare),
            callable_on(*compare, v0),
            sorted_range(*compare, v@, 0, write as int),
            already_sorted(*compare, v0) ==> write == read && v@ == v0,
        decreases n - (read - write - num_dropped_in_row), n - read,
    {
        proof {
            lemma_within_perm(v@, v0);
            lemma_callable_within(*compare, v0, v@);
        }
        if iteration <= early_out_stop {
            iteration = iteration + 1;
        }
        if EARLY_OUT && iteration == early_out_stop && read - write > read
            * EARLY_OUT_DISORDER_NUM / EARLY_OUT_DISORDER_DEN {
            // The dropped elements already sit in v[write..read): sort all of v.
            proof {
                assert(v@.subrange(0, n as int) == v@);
            }
            sort_from(v, 0, compare);
            proof {
                assert(v@.subrange(0, n as int) == v@);
            }
            return None;
        }
        let keep = if write == 0 {
            true
        } else {
            let c = compare(&v[read], &v[write - 1]);
            proof {
                lemma_answer(*compare, v@[read as int], v@[write - 1], c);
            }
            !matches!(c, Ordering::Less)
        };
        proof {
            if !keep && already_sorted(*compare, v0) {
                let lt = choose|lt: spec_fn(T, T) -> bool|
                    #[trigger] implements(*compare, lt) && sorted_under(lt, v0);
                assert(lt(v0[read as int], v0[write - 1]));
            }
        }
        if keep {
            // In order: keep it.
            let ghost before = v@;
            proof {
                lemma_swap_to_multiset(v@, read as int, write as int);
            }
            if read != write {
                swap_at(v, read, write);
            }
            proof {
                lemma_extend_sorted_range(*compare, before, v@, write as int);
            }
            read = read + 1;
            write = write + 1;
            num_dropped_in_row = 0;
        } else {
            let quick = if DOUBLE_COMPARISONS && num_dropped_in_row == 0 && 2 <= write {
                let c = compare(&v[read], &v[write - 2]);
                proof {
                    lemma_answer(*compare, v@[read as int], v@[write - 2], c);
                }
                !matches!(c, Ordering::Less)
            } else {
                false
            };
            if quick {
                // Only the last kept element was out of place: drop it and keep this one instead.
                let ghost before = v@;
                proof {
                    lemma_swap_to_multiset(v@, write - 1, read as int);
                }
                swap_at(v, write - 1, read);
                proof {
                    lemma_extend_sorted_range(*compare, before, v@, write - 1);
                }
                read = read + 1;
            } else if num_dropped_in_row < RECENCY {
                // Drop it: it stays where it is, inside v[write..read).
                read = read + 1;
                num_dropped_in_row = num_dropped_in_row + 1;
            } else {
                // RECENCY drops in a row: keeping the last kept element was a mistake. Read the
                // dropped elements again, and give up kept elements until one of them fits.
                read = read - num_dropped_in_row;
                write = write - 1;
                let ghost first_given_up = write;
                if FAST_BACKTRACKING {
                    let max_pos = position_of_max(v, read, read + num_dropped_in_row + 1, compare);
                    while 1 <= write && matches!(compare(&v[max_pos], &v[write - 1]), Ordering::Less)
                        invariant
                            write <= first_given_up,
                            write <= read <= n,
                            max_pos < n,
                            v@.len() == n,
                            orders(*compare),
                            callable_on(*compare, v@),
                            sorted_range(*compare, v@, 0, write as int),
                        decreases write,
                    {
                        write = write - 1;
                    }
                }
                num_dropped_in_row = 0;
            }
        }
    }
    Some(write)
}

/// Drop-merge sort that moves elements only by swapping them, so that `v` holds all of its
/// elements whenever `compare` is called: should `compare` panic, nothing is lost or duplicated.
/// Elements are moved out of `v` only in the last step, which makes no comparisons.
fn sort_move_by<T, F: Fn(&T, &T) -> Ordering>(v: &mut Vec<T>, compare: &F)
    requires
        valid_comparator(*compare, old(v)@),
    ensures
        final(v)@.to_multiset() == old(v)@.to_multiset(),
        sorted_by(*compare, final(v)@),
        already_sorted(*compare, old(v)@) ==> final(v)@ == old(v)@,
        old(v)@.len() < 2 ==> final(v)@ == old(v)@,
{
    if v.len() < 2 {
        return;
    }
    match keep_run(v, compare) {
        None => {},
        Some(write) => {
            let ghost scanned = v@;
            proof {
                lemma_callable_perm(*compare, old(v)@, v@);
            }
            sort_from(v, write, compare);
            proof {
                let n = v@.len() as int;
                let w = write as int;
                assert(scanned =~= scanned.subrange(0, w) + scanned.subrange(w, n));
                assert(v@ =~= v@.subrange(0, w) + v@.subrange(w, n));
                vstd::seq_lib::lemma_multiset_commutative(scanned.subrange(0, w), scanned.subrange(w, n));
                vstd::seq_lib::lemma_multiset_commutative(v@.subrange(0, w), v@.subrange(w, n));
                assert forall|i: int, j: int| 0 <= i < j < w implies #[trigger] not_after(
                    *compare,
                    v@[i],
                    v@[j],
                ) by {
                    assert(v@[i] == v@.subrange(0, w)[i] && v@[j] == v@.subrange(0, w)[j]);
                    assert(scanned[i] == scanned.subrange(0, w)[i]);
                    assert(scanned[j] == scanned.subrange(0, w)[j]);
                }
                assert forall|i: int, j: int| w <= i < j < n implies #[trigger] not_after(
                    *compare,
                    v@[i],
                    v@[j],
                ) by {
                    assert(v@[i] == v@.subrange(w, n)[i - w] && v@[j] == v@.subrange(w, n)[j - w]);
                }
                if w == n {
                    assert(v@ =~= scanned);
                }
            }
            proof {
                lemma_callable_perm(*compare, scanned, v@);
            }
            let cuts = plan_merge(v, write, compare);
            apply_merge(v, write, &cuts, compare);
        },
    }
}

/// Sorts `v` with the comparator `compare`, which need only accept the elements of `v`.
///
/// Afterwards `v` holds the same elements, in an order that every strict weak order `compare`
/// implements accepts; equal elements may change places. A `v` that is already in order is left
/// as it is. Should `compare` panic, `v` still holds every one of its elements, in some order.
pub fn sort_by<T, F: Fn(&T, &T) -> Ordering>(v: &mut Vec<T>, compare: F)
    requires
        valid_comparator(compare, old(v)@),
    ensures
        final(v)@.to_multiset() == old(v)@.to_multiset(),
        sorted_by(compare, final(v)@),
        already_sorted(compare, old(v)@) ==> final(v)@ == old(v)@,
        old(v)@.len() < 2 ==> final(v)@ == old(v)@,
{
    sort_move_by(v, &compare);
}

/// Sorts `v` by the natural order of `T`, which must be a lawful total order.
///
/// Afterwards `v` holds the same elements, none comparing greater than a later one; equal
/// elements may change places. A `v` that is already in order is left as it is.
pub fn sort<T: Ord>(v: &mut Vec<T>)
    requires
        obeys_cmp::<T>(),
    ensures
        final(v)@.to_multiset() == old(v)@.to_multiset(),
        ascending(final(v)@),
        ascending(old(v)@) ==> final(v)@ == old(v)@,
        old(v)@.len() < 2 ==> final(v)@ == old(v)@,
{
    let compare = |a: &T, b: &T| -> (o: Ordering)
        ensures
            T::obeys_cmp_spec() ==> o == a.cmp_spec(b),
        { a.cmp(b) };
    proof {
        reveal(obeys_cmp_ord);
        lemma_natural_order::<T>();
        let lt = natural_lt::<T>();
        assert(implements(compare, lt));
        if ascending(old(v)@) {
            assert forall|i: int, j: int| 0 <= i < j < old(v)@.len() implies !#[trigger] lt(
                old(v)@[j],
                old(v)@[i],
            ) by {
                assert(old(v)@[i].cmp_spec(&old(v)@[j]) != Ordering::Greater);
            }
            assert(sorted_under(lt, old(v)@));
        }
    }
    sort_move_by(v, &compare);
    proof {
        let lt = natural_lt::<T>();
        assert forall|i: int, j: int| 0 <= i < j < v@.len() implies #[trigger] v@[i].cmp_spec(
            &v@[j],
        ) != Ordering::Greater by {
            assert(not_after(compare, v@[i], v@[j]));
            assert(implements(compare, lt));
            assert(!lt(v@[j], v@[i]));
        }
    }
}

/// Sorts `v` by the keys that `key` gives, compared by their natural order, which must be a
/// lawful total order. `key` need only accept the elements of `v`, and must give an element the
/// same key every time; the key of an element is computed again at every comparison.
///
/// Afterwards `v` holds the same elements, none with a key greater than that of a later one;
/// elements with equal keys may change places. A `v` already in order by key is left as it is.
pub fn sort_by_key<T, K: Ord, F: Fn(&T) -> K>(v: &mut Vec<T>, key: F)
    requires
        valid_key(key, old(v)@),
        obeys_cmp::<K>(),
    ensures
        final(v)@.to_multiset() == old(v)@.to_multiset(),
        forall|i: int, j: int, ki: K, kj: K|
            0 <= i < j < final(v)@.len() && #[trigger] key.ensures((&final(v)@[i],), ki)
                && #[trigger] key.ensures((&final(v)@[j],), kj) ==> ki.cmp_spec(&kj)
                != Ordering::Greater,
        old(v)@.len() < 2 ==> final(v)@ == old(v)@,
        (forall|i: int, j: int|
            0 <= i < j < old(v)@.len() ==> #[trigger] key_of(key, old(v)@[i]).cmp_spec(
                &key_of(key, old(v)@[j]),
            ) != Ordering::Greater) ==> final(v)@ == old(v)@,
{
    let key_fn = &key;
    let compare = |a: &T, b: &T| -> (o: Ordering)
        requires
            key_fn.requires((a,)) && key_fn.requires((b,)),
        ensures
            exists|ka: K, kb: K|
                #![trigger key_fn.ensures((a,), ka), key_fn.ensures((b,), kb)]
                key_fn.ensures((a,), ka) && key_fn.ensures((b,), kb) && (K::obeys_cmp_spec() ==> o
                    == ka.cmp_spec(&kb)),
        {
            let ka = key_fn(a);
            let kb = key_fn(b);
            let o = ka.cmp(&kb);
            proof {
                assert(key_fn.ensures((a,), ka) && key_fn.ensures((b,), kb) && (K::obeys_cmp_spec()
                    ==> o == ka.cmp_spec(&kb)));
            }
            o
        };
    proof {
        reveal(obeys_cmp_ord);
        lemma_natural_order::<K>();
        lemma_key_order(key);
        let lt = key_lt(key);
        assert forall|a: T, b: T, o: Ordering| #[trigger]
            compare.ensures((&a, &b), o) implies o == ordering_of(lt, a, b) by {
            let (ka, kb) = choose|ka: K, kb: K|
                key.ensures((&a,), ka) && key.ensures((&b,), kb) && (K::obeys_cmp_spec() ==> o
                    == ka.cmp_spec(&kb));
            assert(key.ensures((&a,), key_of(key, a)));
            assert(key.ensures((&b,), key_of(key, b)));
            assert(ka == key_of(key, a));
            assert(kb == key_of(key, b));
            assert(ka.cmp_spec(&kb) == ordering_of(natural_lt::<K>(), ka, kb));
        }
        assert(implements(compare, lt));
        if forall|i: int, j: int|
            0 <= i < j < old(v)@.len() ==> #[trigger] key_of(key, old(v)@[i]).cmp_spec(
                &key_of(key, old(v)@[j]),
            ) != Ordering::Greater {
            assert forall|i: int, j: int| 0 <= i < j < old(v)@.len() implies !#[trigger] lt(
                old(v)@[j],
                old(v)@[i],
            ) by {
                assert(key_of(key, old(v)@[i]).cmp_spec(&key_of(key, old(v)@[j]))
                    != Ordering::Greater);
            }
            assert(sorted_under(lt, old(v)@));
        }
    }
    sort_move_by(v, &compare);
    proof {
        let lt = key_lt(key);
        assert forall|i: int, j: int, ki: K, kj: K|
            0 <= i < j < v@.len() && #[trigger] key.ensures((&v@[i],), ki)
                && #[trigger] key.ensures((&v@[j],), kj) implies ki.cmp_spec(&kj)
            != Ordering::Greater by {
            assert(not_after(compare, v@[i], v@[j]));
            assert(implements(compare, lt));
            assert(!lt(v@[j], v@[i]));
            assert(key.ensures((&v@[i],), key_of(key, v@[i])));
            assert(key.ensures((&v@[j],), key_of(key, v@[j])));
            assert(ki == key_of(key, v@[i]));
            assert(kj == key_of(key, v@[j]));
        }
    }
}

} // verus!
