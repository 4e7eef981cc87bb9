//! The order of the keys.

use core::cmp::Ordering;
use vstd::laws_cmp::{obeys_cmp, obeys_cmp_ord, obeys_cmp_partial_ord, obeys_partial_cmp_spec_properties};
use vstd::laws_eq::obeys_eq_spec_properties;
use vstd::prelude::*;
use vstd::std_specs::cmp::{OrdSpec, PartialEqSpec, PartialOrdSpec};

verus! {

/// Key `a` comes strictly before key `b`.
pub open spec fn before<K: Ord>(a: K, b: K) -> bool {
    a.cmp_spec(&b) == Ordering::Less
}

/// The key type's comparison operators agree on one total order, and a clone of a key has the
/// rank of the key itself.
pub open spec fn lawful<K: Ord + Clone>() -> bool {
    &&& obeys_cmp::<K>()
    &&& forall|a: K, b: K| #[trigger] cloned(a, b) ==> a.cmp_spec(&b) == Ordering::Equal
}

/// Neither of two keys comes before the other: they have the same rank.
pub open spec fn same<K: Ord>(a: K, b: K) -> bool {
    !before(a, b) && !before(b, a)
}

/// `a <= b <= c` gives `a <= c`, and `a < c` if one of the two steps is strict.
proof fn lemma_not_before_chain<K: Ord + Clone>(a: K, b: K, c: K)
    requires
        lawful::<K>(),
        !before(b, a),
        !before(c, b),
    ensures
        !before(c, a),
        before(a, b) || before(b, c) ==> before(a, c),
{
    reveal(obeys_partial_cmp_spec_properties);
    reveal(obeys_eq_spec_properties);
    reveal(obeys_cmp_ord);
    assert(a.partial_cmp_spec(&b) == Some(a.cmp_spec(&b)));
    assert(b.partial_cmp_spec(&a) == Some(b.cmp_spec(&a)));
    assert(b.partial_cmp_spec(&c) == Some(b.cmp_spec(&c)));
    assert(c.partial_cmp_spec(&b) == Some(c.cmp_spec(&b)));
    assert(a.partial_cmp_spec(&c) == Some(a.cmp_spec(&c)));
    assert(c.partial_cmp_spec(&a) == Some(c.cmp_spec(&a)));
    assert(a.eq_spec(&b) <==> b.eq_spec(&a));
    assert(b.eq_spec(&c) <==> c.eq_spec(&b));
    assert(a.eq_spec(&c) <==> c.eq_spec(&a));
}

/// No two keys come before each other.
pub broadcast proof fn lemma_before_asymmetric<K: Ord + Clone>(a: K, b: K)
    requires
        lawful::<K>(),
        #[trigger] before(a, b),
    ensures
        !before(b, a),
{
    reveal(obeys_partial_cmp_spec_properties);
    reveal(obeys_cmp_ord);
    assert(a.partial_cmp_spec(&b) == Some(a.cmp_spec(&b)));
    assert(b.partial_cmp_spec(&a) == Some(b.cmp_spec(&a)));
}

/// `a < b < c` gives `a < c`.
pub broadcast proof fn lemma_before_transitive<K: Ord + Clone>(a: K, b: K, c: K)
    requires
        lawful::<K>(),
        #[trigger] before(a, b),
        #[trigger] before(b, c),
    ensures
        before(a, c),
{
    lemma_before_asymmetric(a, b);
    lemma_before_asymmetric(b, c);
    lemma_not_before_chain(a, b, c);
}

/// `a <= b < c` gives `a < c`.
pub broadcast proof fn lemma_floor_then_before<K: Ord + Clone>(a: K, b: K, c: K)
    requires
        lawful::<K>(),
        !#[trigger] before(b, a),
        #[trigger] before(b, c),
    ensures
        before(a, c),
{
    lemma_before_asymmetric(b, c);
    lemma_not_before_chain(a, b, c);
}

/// `a < b <= c` gives `a < c`.
pub broadcast proof fn lemma_before_then_floor<K: Ord + Clone>(a: K, b: K, c: K)
    requires
        lawful::<K>(),
        #[trigger] before(a, b),
        !#[trigger] before(c, b),
    ensures
        before(a, c),
{
    lemma_before_asymmetric(a, b);
    lemma_not_before_chain(a, b, c);
}

/// `a <= b <= c` gives `a <= c`.
pub broadcast proof fn lemma_floor_transitive<K: Ord + Clone>(a: K, b: K, c: K)
    requires
        lawful::<K>(),
        !#[trigger] before(b, a),
        !#[trigger] before(c, b),
    ensures
        !before(c, a),
{
    lemma_not_before_chain(a, b, c);
}

/// A clone of a key has the key's rank.
pub proof fn lemma_clone_same<K: Ord + Clone>(a: K, b: K)
    requires
        lawful::<K>(),
        cloned(a, b),
    ensures
        same(a, b),
{
    reveal(obeys_partial_cmp_spec_properties);
    reveal(obeys_cmp_ord);
    assert(a.partial_cmp_spec(&b) == Some(a.cmp_spec(&b)));
    assert(b.partial_cmp_spec(&a) == Some(b.cmp_spec(&a)));
}

/// The keys of a lawful type are totally ordered.
pub broadcast group group_order {
    lemma_before_asymmetric,
    lemma_before_transitive,
    lemma_floor_then_before,
    lemma_before_then_floor,
    lemma_floor_transitive,
}

/// True when `a` comes strictly before `b`.
pub fn is_before<K: Ord + Clone>(a: &K, b: &K) -> (r: bool)
    requires
        lawful::<K>(),
    ensures
        r == before(*a, *b),
{
    proof {
        reveal(obeys_cmp_partial_ord);
        reveal(obeys_cmp_ord);
        assert(a.partial_cmp_spec(b) == Some(a.cmp_spec(b)));
    }
    *a < *b
}

/// One key comes before another if comparing them says that it is less. A type is lawful if its
/// comparisons agree on one order, and clones of keys compare as equal to them.
pub proof fn law_comparison<K: Ord + Clone>(a: K, b: K)
    ensures
        before(a, b) <==> a.cmp_spec(&b) == Ordering::Less,
        lawful::<K>() && a.cmp_spec(&b) == Ordering::Equal ==> same(a, b),
        obeys_cmp::<K>() && (forall|x: K, y: K| #[trigger]
            cloned(x, y) ==> x.cmp_spec(&y) == Ordering::Equal) ==> lawful::<K>(),
{
    if lawful::<K>() && a.cmp_spec(&b) == Ordering::Equal {
        reveal(obeys_partial_cmp_spec_properties);
        reveal(obeys_cmp_ord);
        assert(a.partial_cmp_spec(&b) == Some(a.cmp_spec(&b)));
        assert(b.partial_cmp_spec(&a) == Some(b.cmp_spec(&a)));
    }
}

/// Of two keys one comes before the other, or they have the same rank: one of these, and only one.
pub proof fn law_trichotomy<K: Ord + Clone>(a: K, b: K)
    requires
        lawful::<K>(),
    ensures
        before(a, b) || before(b, a) || same(a, b),
        !(before(a, b) && before(b, a)),
        same(a, b) ==> !before(a, b) && !before(b, a),
        same(a, b) <==> same(b, a),
        same(a, a),
{
    broadcast use group_order;

    if before(a, a) {
        lemma_before_asymmetric(a, a);
    }
}

/// Keys of the same rank stand to every other key alike.
pub proof fn law_same_rank<K: Ord + Clone>(a: K, b: K, c: K)
    requires
        lawful::<K>(),
        same(a, b),
    ensures
        before(a, c) <==> before(b, c),
        before(c, a) <==> before(c, b),
        same(a, c) <==> same(b, c),
{
    broadcast use group_order;

}

/// Numbers of type `u64` are keys of a lawful type, in the order of their size.
pub proof fn law_order_u64(a: u64, b: u64)
    ensures
        lawful::<u64>(),
        before(a, b) <==> a < b,
        same(a, b) <==> a == b,
{
    broadcast use vstd::laws_cmp::group_laws_cmp;

}

/// Numbers of type `i64` are keys of a lawful type, in the order of their size.
pub proof fn law_order_i64(a: i64, b: i64)
    ensures
        lawful::<i64>(),
        before(a, b) <==> a < b,
        same(a, b) <==> a == b,
{
    broadcast use vstd::laws_cmp::group_laws_cmp;

}

/// Numbers of type `u32` are keys of a lawful type, in the order of their size.
pub proof fn law_order_u32(a: u32, b: u32)
    ensures
        lawful::<u32>(),
        before(a, b) <==> a < b,
        same(a, b) <==> a == b,
{
    broadcast use vstd::laws_cmp::group_laws_cmp;

}

/// Numbers of type `i32` are keys of a lawful type, in the order of their size.
pub proof fn law_order_i32(a: i32, b: i32)
    ensures
        lawful::<i32>(),
        before(a, b) <==> a < b,
        same(a, b) <==> a == b,
{
    broadcast use vstd::laws_cmp::group_laws_cmp;

}

/// Numbers of type `usize` are keys of a lawful type, in the order of their size.
pub proof fn law_order_usize(a: usize, b: usize)
    ensures
        lawful::<usize>(),
        before(a, b) <==> a < b,
        same(a, b) <==> a == b,
{
    broadcast use vstd::laws_cmp::group_laws_cmp;

}

/// The test for which of two keys comes first gives their order, and that of two numbers which is the
/// smaller one.
pub proof fn law_is_before<K: Ord + Clone>(a: &K, b: &K, m: &u64, n: &u64, r: bool)
    ensures
        call_ensures(is_before::<K>, (a, b), r) ==> r == before(*a, *b),
        call_ensures(is_before::<u64>, (m, n), r) ==> r == (*m < *n),
{
    law_order_u64(*m, *n);
}

} // verus!
