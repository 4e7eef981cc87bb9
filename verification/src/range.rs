//! Ranges of keys, in the forms that Rust's range syntax gives.

use crate::order::{before, group_order, lawful};
use core::ops::{
    Bound, Range, RangeFrom, RangeFull, RangeInclusive, RangeTo, RangeToInclusive,
};
use vstd::prelude::*;
use vstd::laws_cmp::{obeys_cmp_ord, obeys_cmp_partial_ord, obeys_partial_cmp_spec_properties};
use vstd::std_specs::cmp::{OrdSpec, PartialOrdIs, PartialOrdSpec};

verus! {

/// `Bound` of the standard library, with its variants.
#[verifier::external_type_specification]
#[verifier::reject_recursive_types(T)]
pub struct ExBound<T>(Bound<T>);

/// `RangeFrom` of the standard library, with its field.
#[verifier::external_type_specification]
#[verifier::reject_recursive_types(Idx)]
pub struct ExRangeFrom<Idx>(RangeFrom<Idx>);

/// `RangeTo` of the standard library, with its field.
#[verifier::external_type_specification]
#[verifier::reject_recursive_types(Idx)]
pub struct ExRangeTo<Idx>(RangeTo<Idx>);

/// `RangeToInclusive` of the standard library, with its field.
#[verifier::external_type_specification]
#[verifier::reject_recursive_types(Idx)]
pub struct ExRangeToInclusive<Idx>(RangeToInclusive<Idx>);

/// `RangeFull` of the standard library.
#[verifier::external_type_specification]
pub struct ExRangeFull(RangeFull);

/// `RangeInclusive::start` gives the lower bound. Nothing is claimed of a range that was iterated
/// to its end.
pub assume_specification<Idx>[ RangeInclusive::<Idx>::start ](r: &RangeInclusive<Idx>) -> (start:
    &Idx)
    ensures
        !r@.exhausted ==> *start == r@.start,
;

/// `RangeInclusive::end` gives the upper bound. Nothing is claimed of a range that was iterated to
/// its end.
pub assume_specification<Idx>[ RangeInclusive::<Idx>::end ](r: &RangeInclusive<Idx>) -> (end: &Idx)
    ensures
        !r@.exhausted ==> *end == r@.end,
;

/// `RangeInclusive::is_empty` tells whether the range contains nothing: it was iterated to its
/// end, or its lower bound is not at or before its upper bound.
pub assume_specification<Idx: PartialOrd<Idx>>[ RangeInclusive::<Idx>::is_empty ](
    r: &RangeInclusive<Idx>,
) -> (empty: bool) where Idx: PartialOrd
    ensures
        Idx::obeys_partial_cmp_spec() ==> empty == (r@.exhausted || !r@.start.is_le(&r@.end)),
;

/// `key` is not cut off by the lower bound `start`.
pub open spec fn reaches<K: Ord>(start: Bound<K>, key: K) -> bool {
    match start {
        Bound::Included(s) => !before(key, s),
        Bound::Excluded(s) => before(s, key),
        Bound::Unbounded => true,
    }
}

/// `key` is cut off by the upper bound `end`.
pub open spec fn exceeds<K: Ord>(key: K, end: Bound<K>) -> bool {
    match end {
        Bound::Included(e) => before(e, key),
        Bound::Excluded(e) => !before(key, e),
        Bound::Unbounded => false,
    }
}

/// The bound that `b` borrows.
pub open spec fn owned<K>(b: Bound<&K>) -> Bound<K> {
    match b {
        Bound::Included(k) => Bound::Included(*k),
        Bound::Excluded(k) => Bound::Excluded(*k),
        Bound::Unbounded => Bound::Unbounded,
    }
}

/// A range that `RangeInclusive::is_empty` finds empty has no key between its bounds, and one that
/// it does not was not iterated to its end.
proof fn lemma_empty_inclusive<K: Ord + Clone>(exhausted: bool, start: K, end: K, empty: bool)
    requires
        lawful::<K>(),
        K::obeys_partial_cmp_spec() ==> empty == (exhausted || !start.is_le(&end)),
    ensures
        empty && !exhausted ==> forall|key: K| before(key, start) || #[trigger] before(end, key),
        !empty ==> !exhausted,
{
    broadcast use group_order;

    reveal(obeys_cmp_partial_ord);
    reveal(obeys_partial_cmp_spec_properties);
    reveal(obeys_cmp_ord);
    assert(start.partial_cmp_spec(&end) == Some(start.cmp_spec(&end)));
    assert(end.partial_cmp_spec(&start) == Some(end.cmp_spec(&start)));
}

/// No key is both after and before `k`.
proof fn lemma_nothing_between<K: Ord + Clone>(k: K)
    requires
        lawful::<K>(),
    ensures
        forall|key: K| !(#[trigger] before(k, key) && before(key, k)),
{
    broadcast use group_order;

}

/// A range of keys.
pub trait KeyRange<K: Ord + Clone> {
    /// `key` is in the range.
    spec fn covers(&self, key: K) -> bool;

    /// The lower and the upper bound of the range.
    fn ends(&self) -> (ends: (Bound<&K>, Bound<&K>))
        requires
            lawful::<K>(),
        ensures
            forall|key: K| #[trigger]
                self.covers(key) <==> reaches(owned(ends.0), key) && !exceeds(key, owned(ends.1)),
    ;
}

impl<K: Ord + Clone> KeyRange<K> for Range<K> {
    open spec fn covers(&self, key: K) -> bool {
        !before(key, self.start) && before(key, self.end)
    }

    fn ends(&self) -> (ends: (Bound<&K>, Bound<&K>)) {
        (Bound::Included(&self.start), Bound::Excluded(&self.end))
    }
}

impl<K: Ord + Clone> KeyRange<K> for RangeInclusive<K> {
    open spec fn covers(&self, key: K) -> bool {
        !self@.exhausted && !before(key, self@.start) && !before(self@.end, key)
    }

    fn ends(&self) -> (ends: (Bound<&K>, Bound<&K>)) {
        let empty = self.is_empty();
        let (start, end) = (self.start(), self.end());
        proof {
            lemma_empty_inclusive(self@.exhausted, self@.start, self@.end, empty);
            lemma_nothing_between(*end);
        }
        if empty {
            (Bound::Excluded(end), Bound::Excluded(end))
        } else {
            (Bound::Included(start), Bound::Included(end))
        }
    }
}

impl<K: Ord + Clone> KeyRange<K> for RangeFrom<K> {
    open spec fn covers(&self, key: K) -> bool {
        !before(key, self.start)
    }

    fn ends(&self) -> (ends: (Bound<&K>, Bound<&K>)) {
        (Bound::Included(&self.start), Bound::Unbounded)
    }
}

impl<K: Ord + Clone> KeyRange<K> for RangeTo<K> {
    open spec fn covers(&self, key: K) -> bool {
        before(key, self.end)
    }

    fn ends(&self) -> (ends: (Bound<&K>, Bound<&K>)) {
        (Bound::Unbounded, Bound::Excluded(&self.end))
    }
}

impl<K: Ord + Clone> KeyRange<K> for RangeToInclusive<K> {
    open spec fn covers(&self, key: K) -> bool {
        !before(self.end, key)
    }

    fn ends(&self) -> (ends: (Bound<&K>, Bound<&K>)) {
        (Bound::Unbounded, Bound::Included(&self.end))
    }
}

impl<K: Ord + Clone> KeyRange<K> for RangeFull {
    open spec fn covers(&self, key: K) -> bool {
        true
    }

    fn ends(&self) -> (ends: (Bound<&K>, Bound<&K>)) {
        (Bound::Unbounded, Bound::Unbounded)
    }
}

impl<K: Ord + Clone> KeyRange<K> for (Bound<K>, Bound<K>) {
    open spec fn covers(&self, key: K) -> bool {
        reaches(self.0, key) && !exceeds(key, self.1)
    }

    fn ends(&self) -> (ends: (Bound<&K>, Bound<&K>)) {
        (borrowed(&self.0), borrowed(&self.1))
    }
}

impl<'a, K: Ord + Clone> KeyRange<K> for Range<&'a K> {
    open spec fn covers(&self, key: K) -> bool {
        !before(key, *self.start) && before(key, *self.end)
    }

    fn ends(&self) -> (ends: (Bound<&K>, Bound<&K>)) {
        (Bound::Included(self.start), Bound::Excluded(self.end))
    }
}

impl<'a, K: Ord + Clone> KeyRange<K> for RangeInclusive<&'a K> {
    open spec fn covers(&self, key: K) -> bool {
        !self@.exhausted && !before(key, *self@.start) && !before(*self@.end, key)
    }

    fn ends(&self) -> (ends: (Bound<&K>, Bound<&K>)) {
        let empty = self.is_empty();
        let (start, end) = (*self.start(), *self.end());
        proof {
            lemma_empty_inclusive(self@.exhausted, *self@.start, *self@.end, empty);
            lemma_nothing_between(*end);
        }
        if empty {
            (Bound::Excluded(end), Bound::Excluded(end))
        } else {
            (Bound::Included(start), Bound::Included(end))
        }
    }
}

impl<'a, K: Ord + Clone> KeyRange<K> for RangeFrom<&'a K> {
    open spec fn covers(&self, key: K) -> bool {
        !before(key, *self.start)
    }

    fn ends(&self) -> (ends: (Bound<&K>, Bound<&K>)) {
        (Bound::Included(self.start), Bound::Unbounded)
    }
}

impl<'a, K: Ord + Clone> KeyRange<K> for RangeTo<&'a K> {
    open spec fn covers(&self, key: K) -> bool {
        before(key, *self.end)
    }

    fn ends(&self) -> (ends: (Bound<&K>, Bound<&K>)) {
        (Bound::Unbounded, Bound::Excluded(self.end))
    }
}

impl<'a, K: Ord + Clone> KeyRange<K> for RangeToInclusive<&'a K> {
    open spec fn covers(&self, key: K) -> bool {
        !before(*self.end, key)
    }

    fn ends(&self) -> (ends: (Bound<&K>, Bound<&K>)) {
        (Bound::Unbounded, Bound::Included(self.end))
    }
}

impl<'a, K: Ord + Clone> KeyRange<K> for (Bound<&'a K>, Bound<&'a K>) {
    open spec fn covers(&self, key: K) -> bool {
        reaches(owned(self.0), key) && !exceeds(key, owned(self.1))
    }

    fn ends(&self) -> (ends: (Bound<&K>, Bound<&K>)) {
        (*self)
    }
}

/// Borrow the key of a bound.
fn borrowed<K>(b: &Bound<K>) -> (r: Bound<&K>)
    ensures
        owned(r) == *b,
{
    match b {
        Bound::Included(k) => Bound::Included(k),
        Bound::Excluded(k) => Bound::Excluded(k),
        Bound::Unbounded => Bound::Unbounded,
    }
}

/// A pair of bounds covers a key if and only if neither bound cuts it off: one that is included lets
/// its own key through, one that is excluded does not, and where there is none nothing is cut off.
pub proof fn law_pair<K: Ord + Clone>(range: (Bound<K>, Bound<K>), key: K)
    ensures
        range.covers(key) <==> {
            &&& match range.0 {
                Bound::Included(a) => !before(key, a),
                Bound::Excluded(a) => before(a, key),
                Bound::Unbounded => true,
            }
            &&& match range.1 {
                Bound::Included(b) => !before(b, key),
                Bound::Excluded(b) => before(key, b),
                Bound::Unbounded => true,
            }
        },
{
}

/// A pair of bounds by reference covers a key if and only if neither bound cuts it off.
pub proof fn law_pair_by_reference<'a, K: Ord + Clone>(range: (Bound<&'a K>, Bound<&'a K>), key: K)
    ensures
        range.covers(key) <==> {
            &&& match range.0 {
                Bound::Included(a) => !before(key, *a),
                Bound::Excluded(a) => before(*a, key),
                Bound::Unbounded => true,
            }
            &&& match range.1 {
                Bound::Included(b) => !before(*b, key),
                Bound::Excluded(b) => before(key, *b),
                Bound::Unbounded => true,
            }
        },
{
}

/// `a..b` covers what is at or after `a` and before `b`.
pub proof fn law_half_open<'a, K: Ord + Clone>(range: Range<K>, borrowed: Range<&'a K>, key: K)
    ensures
        range.covers(key) <==> !before(key, range.start) && before(key, range.end),
        borrowed.covers(key) <==> !before(key, *borrowed.start) && before(key, *borrowed.end),
{
}

/// `a..=b` covers what is at or after `a` and at or before `b`, unless it was iterated to its end.
pub proof fn law_inclusive<'a, K: Ord + Clone>(
    range: RangeInclusive<K>,
    borrowed: RangeInclusive<&'a K>,
    key: K,
)
    ensures
        range.covers(key) <==> !range@.exhausted && !before(key, range@.start) && !before(
            range@.end,
            key,
        ),
        borrowed.covers(key) <==> !borrowed@.exhausted && !before(key, *borrowed@.start) && !before(
            *borrowed@.end,
            key,
        ),
{
}

/// `a..` covers what is at or after `a`.
pub proof fn law_from<'a, K: Ord + Clone>(range: RangeFrom<K>, borrowed: RangeFrom<&'a K>, key: K)
    ensures
        range.covers(key) <==> !before(key, range.start),
        borrowed.covers(key) <==> !before(key, *borrowed.start),
{
}

/// `..b` covers what is before `b`, and `..=b` what is at or before it.
pub proof fn law_up_to<'a, K: Ord + Clone>(
    range: RangeTo<K>,
    borrowed: RangeTo<&'a K>,
    closed_range: RangeToInclusive<K>,
    closed_borrowed: RangeToInclusive<&'a K>,
    key: K,
)
    ensures
        range.covers(key) <==> before(key, range.end),
        borrowed.covers(key) <==> before(key, *borrowed.end),
        closed_range.covers(key) <==> !before(closed_range.end, key),
        closed_borrowed.covers(key) <==> !before(*closed_borrowed.end, key),
{
}

/// `..` covers every key.
pub proof fn law_full<K: Ord + Clone>(range: RangeFull, key: K)
    ensures
        range.covers(key),
{
}

} // verus!
