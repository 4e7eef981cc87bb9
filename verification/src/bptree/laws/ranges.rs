//! What the ranges yield.

use super::super::entries::{
    ascending, chosen, lemma_chosen_all, lemma_chosen_none, lemma_chosen_same, lemma_rank_bounds,
    rank, stored,
};
use super::{law_chosen, law_order_kept};
use crate::order::{before, group_order, lawful, same};
use crate::range::KeyRange;
use core::ops::{
    Bound, Range, RangeFrom, RangeFull, RangeInclusive, RangeTo, RangeToInclusive,
};
use vstd::prelude::*;

verus! {

/// Two ranges that cover the same keys yield the same entries.
pub proof fn law_same_cover<K: Ord + Clone, V, R: KeyRange<K>, S: KeyRange<K>>(
    entries: Seq<(K, V)>,
    one: R,
    other: S,
)
    requires
        forall|k: K| #[trigger] one.covers(k) <==> other.covers(k),
    ensures
        chosen(entries, |k: K| one.covers(k)) == chosen(entries, |k: K| other.covers(k)),
{
    lemma_chosen_same(entries, |k: K| one.covers(k), |k: K| other.covers(k));
}

/// A pair of bounds yields what the range syntax with these bounds yields.
pub proof fn law_bounds_as_ranges<K: Ord + Clone, V>(
    entries: Seq<(K, V)>,
    half: Range<K>,
    whole: RangeInclusive<K>,
    from: RangeFrom<K>,
    to: RangeTo<K>,
    through: RangeToInclusive<K>,
    full: RangeFull,
    pair: (Bound<K>, Bound<K>),
)
    ensures
        pair == (Bound::Included(half.start), Bound::Excluded(half.end)) ==> chosen(
            entries,
            |k: K| pair.covers(k),
        ) == chosen(entries, |k: K| half.covers(k)),
        !whole@.exhausted && pair == (Bound::Included(whole@.start), Bound::Included(whole@.end))
            ==> chosen(entries, |k: K| pair.covers(k)) == chosen(entries, |k: K| whole.covers(k)),
        pair == (Bound::Included(from.start), Bound::<K>::Unbounded) ==> chosen(
            entries,
            |k: K| pair.covers(k),
        ) == chosen(entries, |k: K| from.covers(k)),
        pair == (Bound::<K>::Unbounded, Bound::Excluded(to.end)) ==> chosen(
            entries,
            |k: K| pair.covers(k),
        ) == chosen(entries, |k: K| to.covers(k)),
        pair == (Bound::<K>::Unbounded, Bound::Included(through.end)) ==> chosen(
            entries,
            |k: K| pair.covers(k),
        ) == chosen(entries, |k: K| through.covers(k)),
        pair == (Bound::<K>::Unbounded, Bound::<K>::Unbounded) ==> chosen(
            entries,
            |k: K| pair.covers(k),
        ) == entries,
        chosen(entries, |k: K| full.covers(k)) == entries,
{
    if pair == (Bound::Included(half.start), Bound::Excluded(half.end)) {
        law_same_cover(entries, pair, half);
    }
    if !whole@.exhausted && pair == (Bound::Included(whole@.start), Bound::Included(whole@.end)) {
        law_same_cover(entries, pair, whole);
    }
    if pair == (Bound::Included(from.start), Bound::<K>::Unbounded) {
        law_same_cover(entries, pair, from);
    }
    if pair == (Bound::<K>::Unbounded, Bound::Excluded(to.end)) {
        law_same_cover(entries, pair, to);
    }
    if pair == (Bound::<K>::Unbounded, Bound::Included(through.end)) {
        law_same_cover(entries, pair, through);
    }
    if pair == (Bound::<K>::Unbounded, Bound::<K>::Unbounded) {
        lemma_chosen_all(entries, |k: K| pair.covers(k));
    }
    lemma_chosen_all(entries, |k: K| full.covers(k));
}

/// A range whose bounds are borrowed yields what the same range with its own bounds yields.
pub proof fn law_borrowed_ranges<'a, K: Ord + Clone, V>(
    entries: Seq<(K, V)>,
    half: (Range<K>, Range<&'a K>),
    whole: (RangeInclusive<K>, RangeInclusive<&'a K>),
    from: (RangeFrom<K>, RangeFrom<&'a K>),
    to: (RangeTo<K>, RangeTo<&'a K>),
    through: (RangeToInclusive<K>, RangeToInclusive<&'a K>),
)
    requires
        half.0.start == *half.1.start,
        half.0.end == *half.1.end,
        whole.0@.start == *whole.1@.start,
        whole.0@.end == *whole.1@.end,
        whole.0@.exhausted == whole.1@.exhausted,
        from.0.start == *from.1.start,
        to.0.end == *to.1.end,
        through.0.end == *through.1.end,
    ensures
        chosen(entries, |k: K| half.0.covers(k)) == chosen(entries, |k: K| half.1.covers(k)),
        chosen(entries, |k: K| whole.0.covers(k)) == chosen(entries, |k: K| whole.1.covers(k)),
        chosen(entries, |k: K| from.0.covers(k)) == chosen(entries, |k: K| from.1.covers(k)),
        chosen(entries, |k: K| to.0.covers(k)) == chosen(entries, |k: K| to.1.covers(k)),
        chosen(entries, |k: K| through.0.covers(k)) == chosen(entries, |k: K| through.1.covers(k)),
{
    lemma_chosen_same(entries, |k: K| half.0.covers(k), |k: K| half.1.covers(k));
    lemma_chosen_same(entries, |k: K| whole.0.covers(k), |k: K| whole.1.covers(k));
    lemma_chosen_same(entries, |k: K| from.0.covers(k), |k: K| from.1.covers(k));
    lemma_chosen_same(entries, |k: K| to.0.covers(k), |k: K| to.1.covers(k));
    lemma_chosen_same(entries, |k: K| through.0.covers(k), |k: K| through.1.covers(k));
}

/// An entry is yielded by a pair of bounds if and only if it is there and neither bound cuts it off.
pub proof fn law_yielded<K: Ord + Clone, V>(
    entries: Seq<(K, V)>,
    pair: (Bound<K>, Bound<K>),
    e: (K, V),
)
    requires
        ascending(entries),
    ensures
        chosen(entries, |k: K| pair.covers(k)).contains(e) <==> {
            &&& entries.contains(e)
            &&& match pair.0 {
                Bound::Included(a) => !before(e.0, a),
                Bound::Excluded(a) => before(a, e.0),
                Bound::Unbounded => true,
            }
            &&& match pair.1 {
                Bound::Included(b) => !before(b, e.0),
                Bound::Excluded(b) => before(e.0, b),
                Bound::Unbounded => true,
            }
        },
{
    law_chosen(entries, |k: K| pair.covers(k));
}

/// What was stored under `a` comes first from every range that starts at `a` with `a` included and
/// whose end does not cut it off.
pub proof fn law_start_included<K: Ord + Clone, V>(
    entries: Seq<(K, V)>,
    a: K,
    value: V,
    pair: (Bound<K>, Bound<K>),
)
    requires
        lawful::<K>(),
        ascending(entries),
        pair.0 == Bound::Included(a),
        match pair.1 {
            Bound::Included(b) => !before(b, a),
            Bound::Excluded(b) => before(a, b),
            Bound::Unbounded => true,
        },
    ensures
        ({
            let found = chosen(stored(entries, a, value), |k: K| pair.covers(k));
            &&& found.len() > 0
            &&& same(found[0].0, a)
            &&& found[0].1 == value
        }),
{
    broadcast use group_order;

    let all = stored(entries, a, value);
    let found = chosen(all, |k: K| pair.covers(k));
    law_order_kept(entries, a, value);
    lemma_rank_bounds(entries, a);
    let e = all[rank(entries, a) as int];
    if before(a, a) {
        assert(!before(a, a));
    }
    assert(same(e.0, a) && e.1 == value);
    assert(all.contains(e));
    law_chosen(all, |k: K| pair.covers(k));
    law_yielded(all, pair, e);
    assert(found.contains(e));
    let i = found.index_of(e);
    if i > 0 {
        assert(before(found[0].0, found[i].0));
        assert(found.contains(found[0]));
        law_yielded(all, pair, found[0]);
    }
}

/// What was stored under `b` comes last from every range that ends at `b` with `b` included and whose
/// start does not cut it off.
pub proof fn law_end_included<K: Ord + Clone, V>(
    entries: Seq<(K, V)>,
    b: K,
    value: V,
    pair: (Bound<K>, Bound<K>),
)
    requires
        lawful::<K>(),
        ascending(entries),
        pair.1 == Bound::Included(b),
        match pair.0 {
            Bound::Included(a) => !before(b, a),
            Bound::Excluded(a) => before(a, b),
            Bound::Unbounded => true,
        },
    ensures
        ({
            let found = chosen(stored(entries, b, value), |k: K| pair.covers(k));
            &&& found.len() > 0
            &&& same(found.last().0, b)
            &&& found.last().1 == value
        }),
{
    broadcast use group_order;

    let all = stored(entries, b, value);
    let found = chosen(all, |k: K| pair.covers(k));
    law_order_kept(entries, b, value);
    lemma_rank_bounds(entries, b);
    let e = all[rank(entries, b) as int];
    if before(b, b) {
        assert(!before(b, b));
    }
    assert(same(e.0, b) && e.1 == value);
    assert(all.contains(e));
    law_chosen(all, |k: K| pair.covers(k));
    law_yielded(all, pair, e);
    assert(found.contains(e));
    let i = found.index_of(e);
    let n = found.len() - 1;
    if i < n {
        assert(before(found[i].0, found[n].0));
        assert(found.contains(found[n]));
        law_yielded(all, pair, found[n]);
    }
}

/// A key that a range starts at, or ends at, with the key excluded is not yielded.
pub proof fn law_excluded<K: Ord + Clone, V>(
    entries: Seq<(K, V)>,
    key: K,
    pair: (Bound<K>, Bound<K>),
    i: int,
)
    requires
        lawful::<K>(),
        ascending(entries),
        pair.0 == Bound::Excluded(key) || pair.1 == Bound::Excluded(key),
        0 <= i < chosen(entries, |k: K| pair.covers(k)).len(),
    ensures
        !same(chosen(entries, |k: K| pair.covers(k))[i].0, key),
{
    let found = chosen(entries, |k: K| pair.covers(k));
    assert(found.contains(found[i]));
    law_yielded(entries, pair, found[i]);
}

/// A range up to a key and the one that goes on from there make up everything, in this order, whether
/// the key belongs to the one or to the other.
pub proof fn law_bounds_meet<K: Ord + Clone, V>(
    entries: Seq<(K, V)>,
    key: K,
    low: (Bound<K>, Bound<K>),
    high: (Bound<K>, Bound<K>),
)
    requires
        lawful::<K>(),
        ascending(entries),
        low.0 == Bound::<K>::Unbounded,
        high.1 == Bound::<K>::Unbounded,
        low.1 == Bound::Excluded(key) && high.0 == Bound::Included(key) || low.1 == Bound::Included(
            key,
        ) && high.0 == Bound::Excluded(key),
    ensures
        chosen(entries, |k: K| low.covers(k)) + chosen(entries, |k: K| high.covers(k)) == entries,
{
    broadcast use group_order;

    let f = |k: K| low.covers(k);
    let g = |k: K| high.covers(k);
    lemma_rank_bounds(entries, key);
    let first = rank(entries, key) as int;
    let at = if low.1 == Bound::Included(key) && first < entries.len() && !before(
        key,
        entries[first].0,
    ) {
        first + 1
    } else {
        first
    };
    let pre = entries.take(at);
    let post = entries.skip(at);
    assert(entries =~= pre + post);
    assert forall|i: int| 0 <= i < pre.len() implies f((#[trigger] pre[i]).0) && !g(pre[i].0) by {
        assert(pre[i] == entries[i]);
    }
    assert forall|i: int| 0 <= i < post.len() implies !f((#[trigger] post[i]).0) && g(
        post[i].0,
    ) by {
        assert(post[i] == entries[at + i]);
        if first < at + i {
            assert(before(entries[first].0, entries[at + i].0));
        }
    }
    Seq::filter_distributes_over_add(pre, post, |e: (K, V)| f(e.0));
    Seq::filter_distributes_over_add(pre, post, |e: (K, V)| g(e.0));
    lemma_chosen_all(pre, f);
    lemma_chosen_none(post, f);
    lemma_chosen_none(pre, g);
    lemma_chosen_all(post, g);
    assert(chosen(entries, f) =~= pre);
    assert(chosen(entries, g) =~= post);
}

} // verus!
