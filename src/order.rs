//! What it means for a comparator to order elements, and for a sequence to be sorted by it.
//!
//! A comparator is an executable closure `Fn(&T, &T) -> Ordering`. Verus only knows of it what
//! its `ensures` allow it to return, so the order it stands for is described from outside: a
//! strict weak order `lt` is *implemented* by the comparator when every answer the comparator can
//! give agrees with `lt`. Sortedness is then stated against every order the comparator implements.
use vstd::prelude::*;
use vstd::laws_cmp::{obeys_cmp, obeys_cmp_ord, obeys_cmp_partial_ord, obeys_partial_cmp_spec_properties};
use vstd::laws_eq::obeys_eq_spec_properties;
use vstd::std_specs::cmp::{OrdSpec, PartialEqSpec, PartialOrdSpec};
use core::cmp::Ordering;

verus! {

/// `lt` is a strict weak order: irreflexive, transitive, and with transitive incomparability.
pub open spec fn strict_weak_order<T>(lt: spec_fn(T, T) -> bool) -> bool {
    &&& forall|a: T| !#[trigger] lt(a, a)
    &&& forall|a: T, b: T, c: T| #[trigger] lt(a, b) && #[trigger] lt(b, c) ==> lt(a, c)
    &&& forall|a: T, b: T, c: T|
        #![trigger lt(a, c), lt(a, b)]
        #![trigger lt(a, c), lt(b, c)]
        lt(a, c) ==> lt(a, b) || lt(b, c)
}

/// The answer a three-way comparison gives under the strict order `lt`.
pub open spec fn ordering_of<T>(lt: spec_fn(T, T) -> bool, a: T, b: T) -> Ordering {
    if lt(a, b) {
        Ordering::Less
    } else if lt(b, a) {
        Ordering::Greater
    } else {
        Ordering::Equal
    }
}

/// Every answer `compare` can give agrees with the strict weak order `lt`.
pub open spec fn implements<T, F: Fn(&T, &T) -> Ordering>(
    compare: F,
    lt: spec_fn(T, T) -> bool,
) -> bool {
    &&& strict_weak_order(lt)
    &&& forall|a: T, b: T, o: Ordering| #[trigger]
        compare.ensures((&a, &b), o) ==> o == ordering_of(lt, a, b)
}

/// `compare` implements some strict weak order.
pub open spec fn orders<T, F: Fn(&T, &T) -> Ordering>(compare: F) -> bool {
    exists|lt: spec_fn(T, T) -> bool| #[trigger] implements(compare, lt)
}

/// `compare` may be called on any two elements of `s`.
pub open spec fn callable_on<T, F: Fn(&T, &T) -> Ordering>(compare: F, s: Seq<T>) -> bool {
    forall|a: T, b: T| s.contains(a) && s.contains(b) ==> #[trigger] compare.requires((&a, &b))
}

/// `compare` may be called on any two elements of `s` and implements some strict weak order.
pub open spec fn valid_comparator<T, F: Fn(&T, &T) -> Ordering>(compare: F, s: Seq<T>) -> bool {
    &&& callable_on(compare, s)
    &&& orders(compare)
}

/// Every element of `s` is an element of `dom`.
pub open spec fn within<T>(s: Seq<T>, dom: Seq<T>) -> bool {
    forall|p: int| 0 <= p < s.len() ==> dom.contains(#[trigger] s[p])
}

/// A comparator that may be called on the elements of `dom` may be called on those of `s`.
pub proof fn lemma_callable_within<T, F: Fn(&T, &T) -> Ordering>(compare: F, dom: Seq<T>, s: Seq<T>)
    requires
        callable_on(compare, dom),
        within(s, dom),
    ensures
        callable_on(compare, s),
{
    assert forall|a: T, b: T| s.contains(a) && s.contains(b) implies #[trigger] compare.requires(
        (&a, &b),
    ) by {
        let i = choose|i: int| 0 <= i < s.len() && s[i] == a;
        let j = choose|j: int| 0 <= j < s.len() && s[j] == b;
        assert(dom.contains(s[i]) && dom.contains(s[j]));
    }
}

/// A sequence lies within any sequence with the same elements.
pub proof fn lemma_within_perm<T>(s: Seq<T>, t: Seq<T>)
    requires
        s.to_multiset() == t.to_multiset(),
    ensures
        within(s, t),
        within(t, s),
{
    broadcast use vstd::seq_lib::group_to_multiset_ensures;

    assert forall|p: int| 0 <= p < s.len() implies t.contains(#[trigger] s[p]) by {
        assert(s.contains(s[p]));
        assert(s.to_multiset().count(s[p]) > 0);
        assert(t.to_multiset().count(s[p]) > 0);
    }
    assert forall|p: int| 0 <= p < t.len() implies s.contains(#[trigger] t[p]) by {
        assert(t.contains(t[p]));
        assert(t.to_multiset().count(t[p]) > 0);
        assert(s.to_multiset().count(t[p]) > 0);
    }
}

/// A comparator that may be called on the elements of `s` may be called on those of any
/// sequence with the same elements.
pub proof fn lemma_callable_perm<T, F: Fn(&T, &T) -> Ordering>(compare: F, s: Seq<T>, t: Seq<T>)
    requires
        callable_on(compare, s),
        s.to_multiset() == t.to_multiset(),
    ensures
        callable_on(compare, t),
{
    lemma_within_perm(s, t);
    lemma_callable_within(compare, s, t);
}

/// `a` may stand before `b`: no order that `compare` implements puts `b` strictly before `a`.
pub open spec fn not_after<T, F: Fn(&T, &T) -> Ordering>(compare: F, a: T, b: T) -> bool {
    forall|lt: spec_fn(T, T) -> bool| #[trigger] implements(compare, lt) ==> !lt(b, a)
}

/// No order that `compare` implements puts an element of `s` strictly below an earlier one.
pub open spec fn sorted_by<T, F: Fn(&T, &T) -> Ordering>(compare: F, s: Seq<T>) -> bool {
    forall|i: int, j: int| 0 <= i < j < s.len() ==> #[trigger] not_after(compare, s[i], s[j])
}

/// `lt` puts no element of `s` strictly below an earlier one.
pub open spec fn sorted_under<T>(lt: spec_fn(T, T) -> bool, s: Seq<T>) -> bool {
    forall|i: int, j: int| 0 <= i < j < s.len() ==> !#[trigger] lt(s[j], s[i])
}

/// `s` is in order under some strict weak order that `compare` implements.
pub open spec fn already_sorted<T, F: Fn(&T, &T) -> Ordering>(compare: F, s: Seq<T>) -> bool {
    exists|lt: spec_fn(T, T) -> bool| #[trigger] implements(compare, lt) && sorted_under(lt, s)
}

/// What a single call of `compare` shows about the two elements it was given.
pub proof fn lemma_answer<T, F: Fn(&T, &T) -> Ordering>(compare: F, a: T, b: T, o: Ordering)
    requires
        orders(compare),
        compare.ensures((&a, &b), o),
    ensures
        o != Ordering::Less ==> not_after(compare, b, a),
        o != Ordering::Greater ==> not_after(compare, a, b),
        o == Ordering::Less ==> !not_after(compare, b, a),
        o == Ordering::Less ==> forall|lt: spec_fn(T, T) -> bool| #[trigger]
            implements(compare, lt) ==> lt(a, b),
{
    assert forall|lt: spec_fn(T, T) -> bool| #[trigger] implements(compare, lt) implies (o
        == Ordering::Less <==> lt(a, b)) && (o != Ordering::Greater ==> !lt(b, a)) by {
        assert(o == ordering_of(lt, a, b));
        if lt(a, b) && lt(b, a) {
            assert(lt(a, a));
        }
    }
    if o == Ordering::Less {
        let lt = choose|lt: spec_fn(T, T) -> bool| #[trigger] implements(compare, lt);
        assert(lt(a, b));
    }
}

/// `not_after` is reflexive.
pub proof fn lemma_not_after_refl<T, F: Fn(&T, &T) -> Ordering>(compare: F, a: T)
    ensures
        not_after(compare, a, a),
{
    assert forall|lt: spec_fn(T, T) -> bool| #[trigger] implements(compare, lt) implies !lt(
        a,
        a,
    ) by {}
}

/// `not_after` is transitive.
pub proof fn lemma_not_after_trans<T, F: Fn(&T, &T) -> Ordering>(compare: F, a: T, b: T, c: T)
    requires
        not_after(compare, a, b),
        not_after(compare, b, c),
    ensures
        not_after(compare, a, c),
{
    assert forall|lt: spec_fn(T, T) -> bool| #[trigger] implements(compare, lt) implies !lt(
        c,
        a,
    ) by {
        assert(!lt(b, a));
        assert(!lt(c, b));
        if lt(c, a) {
            assert(lt(c, b) || lt(b, a));
        }
    }
}

/// The strict order of `Ord::cmp`: `a` is below `b` when it compares `Less`.
pub open spec fn natural_lt<T: Ord>() -> spec_fn(T, T) -> bool {
    |a: T, b: T| a.cmp_spec(&b) == Ordering::Less
}

/// No element of `s` compares greater than a later one under `Ord::cmp`.
pub open spec fn ascending<T: Ord>(s: Seq<T>) -> bool {
    forall|i: int, j: int|
        0 <= i < j < s.len() ==> #[trigger] s[i].cmp_spec(&s[j]) != Ordering::Greater
}

/// A lawful `Ord` orders strictly weakly, and `cmp` answers as that order does.
pub proof fn lemma_natural_order<T: Ord>()
    requires
        obeys_cmp::<T>(),
    ensures
        strict_weak_order(natural_lt::<T>()),
        forall|a: T, b: T| #[trigger] a.cmp_spec(&b) == ordering_of(natural_lt::<T>(), a, b),
        forall|a: T, b: T|
            a.cmp_spec(&b) == Ordering::Less <==> #[trigger] b.cmp_spec(&a) == Ordering::Greater,
{
    reveal(obeys_eq_spec_properties);
    reveal(obeys_partial_cmp_spec_properties);
    reveal(obeys_cmp_partial_ord);
    reveal(obeys_cmp_ord);
    let lt = natural_lt::<T>();
    assert forall|a: T, b: T|
        a.cmp_spec(&b) == Ordering::Less <==> #[trigger] b.cmp_spec(&a) == Ordering::Greater by {
        assert(a.partial_cmp_spec(&b) == Some(a.cmp_spec(&b)));
        assert(b.partial_cmp_spec(&a) == Some(b.cmp_spec(&a)));
    }
    assert forall|a: T| !#[trigger] lt(a, a) by {
        assert(a.partial_cmp_spec(&a) == Some(a.cmp_spec(&a)));
    }
    assert forall|a: T, b: T, c: T| #[trigger] lt(a, b) && #[trigger] lt(b, c) implies lt(a, c) by {
        assert(a.partial_cmp_spec(&b) == Some(a.cmp_spec(&b)));
        assert(b.partial_cmp_spec(&c) == Some(b.cmp_spec(&c)));
        assert(a.partial_cmp_spec(&c) == Some(a.cmp_spec(&c)));
    }
    assert forall|a: T, b: T, c: T| lt(a, c) implies #[trigger] lt(a, b) || #[trigger] lt(b, c) by {
        assert(a.partial_cmp_spec(&b) == Some(a.cmp_spec(&b)));
        assert(b.partial_cmp_spec(&c) == Some(b.cmp_spec(&c)));
        assert(a.partial_cmp_spec(&c) == Some(a.cmp_spec(&c)));
        assert(b.partial_cmp_spec(&a) == Some(b.cmp_spec(&a)));
        assert(c.partial_cmp_spec(&b) == Some(c.cmp_spec(&b)));
        assert(c.partial_cmp_spec(&a) == Some(c.cmp_spec(&a)));
        if a.cmp_spec(&b) == Ordering::Equal && b.cmp_spec(&c) == Ordering::Equal {
            assert(a.eq_spec(&b) && b.eq_spec(&c));
            assert(a.eq_spec(&c));
        }
    }
    assert forall|a: T, b: T| #[trigger] a.cmp_spec(&b) == ordering_of(lt, a, b) by {
        assert(a.partial_cmp_spec(&b) == Some(a.cmp_spec(&b)));
        assert(b.partial_cmp_spec(&a) == Some(b.cmp_spec(&a)));
    }
}

/// The key that `key` gives for `a`, when it gives one.
pub open spec fn key_of<T, K, F: Fn(&T) -> K>(key: F, a: T) -> K {
    choose|k: K| key.ensures((&a,), k)
}

/// The strict order that compares elements by their keys under `Ord::cmp`.
pub open spec fn key_lt<T, K: Ord, F: Fn(&T) -> K>(key: F) -> spec_fn(T, T) -> bool {
    |a: T, b: T| key_of(key, a).cmp_spec(&key_of(key, b)) == Ordering::Less
}

/// `key` may be called on any element of `s`, and gives the same key whenever it is called on
/// the same value.
pub open spec fn valid_key<T, K, F: Fn(&T) -> K>(key: F, s: Seq<T>) -> bool {
    &&& forall|a: T| s.contains(a) ==> #[trigger] key.requires((&a,))
    &&& forall|a: T, k1: K, k2: K|
        #[trigger] key.ensures((&a,), k1) && #[trigger] key.ensures((&a,), k2) ==> k1 == k2
}

/// Comparing by keys orders strictly weakly.
pub proof fn lemma_key_order<T, K: Ord, F: Fn(&T) -> K>(key: F)
    requires
        obeys_cmp::<K>(),
    ensures
        strict_weak_order(key_lt(key)),
{
    lemma_natural_order::<K>();
    let lt = key_lt(key);
    let nl = natural_lt::<K>();
    assert forall|a: T| !#[trigger] lt(a, a) by {
        assert(!nl(key_of(key, a), key_of(key, a)));
    }
    assert forall|a: T, b: T, c: T| #[trigger] lt(a, b) && #[trigger] lt(b, c) implies lt(a, c) by {
        assert(nl(key_of(key, a), key_of(key, b)) && nl(key_of(key, b), key_of(key, c)));
    }
    assert forall|a: T, b: T, c: T| lt(a, c) implies #[trigger] lt(a, b) || #[trigger] lt(b, c) by {
        let (ka, kb, kc) = (key_of(key, a), key_of(key, b), key_of(key, c));
        assert(nl(ka, kc));
        assert(nl(ka, kb) || nl(kb, kc));
    }
}

} // verus!
