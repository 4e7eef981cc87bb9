//! What the calls of a tree return, and what they leave behind.

use super::super::entries::{ascending, holds, lookup, recloned, removed, stored};
use super::super::{AsKey, BPlusTree, Iter, PageId, Probe, Sought, TreeError};
use super::keys::{law_alike, law_slices_apart};
use super::nodes::{law_fewest, law_lookup, law_stored, law_taken_out};
use super::ranges::{law_same_cover, law_yielded};
use super::{
    law_chosen, law_entries_ascending, law_exact_clones, law_growth, law_height_of_empty, law_no_stray_way,
    law_occupancy, law_one_error, law_read_after_delete, law_read_your_write,
    law_sizes, law_store_elsewhere,
};
use crate::order::{before, lawful, same};
use crate::range::KeyRange;
use core::ops::{Bound, Range, RangeFrom, RangeInclusive, RangeTo, RangeToInclusive};
use std::rc::Rc;
use std::sync::Arc;
use vstd::prelude::*;

verus! {

/// A new tree is empty, has no pages, and allows as many keys per node as it was asked to.
pub proof fn law_new<K: Ord + Clone, V>(max_keys: usize, tree: BPlusTree<K, V>)
    requires
        max_keys >= 2,
        call_ensures(BPlusTree::<K, V>::new, (max_keys,), tree),
    ensures
        tree.wf(),
        tree.aligned(),
        tree.entries().len() == 0,
        tree.max_keys() == max_keys,
        tree.root_page() is None,
        tree.height() == 0,
        tree.pages_issued() == 0,
        tree.nodes().dom().len() == 0,
{
    law_height_of_empty(tree);
}

/// A tree is empty if and only if it has no entries, and no pages.
pub proof fn law_is_empty<K: Ord + Clone, V>(tree: &BPlusTree<K, V>, empty: bool)
    requires
        tree.wf(),
        call_ensures(BPlusTree::<K, V>::is_empty, (tree,), empty),
    ensures
        empty <==> tree.entries().len() == 0,
        empty <==> tree.root_page() is None,
        empty <==> tree.height() == 0,
{
    law_height_of_empty(*tree);
}

/// The fewest keys are half of the most, rounded down, and every node but the root holds as many.
pub proof fn law_min_keys<K: Ord + Clone, V>(tree: &BPlusTree<K, V>, n: usize, id: PageId)
    requires
        tree.wf(),
        call_ensures(BPlusTree::<K, V>::min_keys, (tree,), n),
    ensures
        2 * n <= tree.max_keys() <= 2 * n + 1,
        n >= 1,
        tree.nodes().contains_key(id) && tree.root_page() != Some(id)
            ==> tree.nodes()[id].key_seq().len() >= n,
{
    law_fewest(tree.max_keys(), 0);
    if tree.nodes().contains_key(id) {
        law_occupancy(*tree, id);
    }
}

/// A lookup gives the value of the entry with the rank of the key, or nothing if there is none.
pub proof fn law_get<K: Ord + Clone, V>(
    tree: &BPlusTree<K, V>,
    key: &K,
    value: Result<Option<&V>, TreeError>,
)
    requires
        lawful::<K>(),
        tree.wf(),
        call_ensures(BPlusTree::<K, V>::get::<K>, (tree, key), value),
    ensures
        match value {
            Ok(Some(v)) => exists|i: int|
                0 <= i < tree.entries().len() && same((#[trigger] tree.entries()[i]).0, *key)
                    && tree.entries()[i].1 == *v,
            Ok(None) => forall|i: int|
                0 <= i < tree.entries().len() ==> !same((#[trigger] tree.entries()[i]).0, *key),
            Err(_) => false,
        },
        value == Ok::<Option<&V>, TreeError>(
            match lookup(tree.entries(), *key) {
                Some(v) => Some(&v),
                None => None,
            },
        ),
{
    law_entries_ascending(*tree);
    let k = choose|k: K| #[trigger]
        Probe::<K>::stands_for(key, k) && match value->Ok_0 {
            Some(v) => lookup(tree.entries(), k) == Some(*v),
            None => lookup(tree.entries(), k) is None,
        };
    assert(k == *key);
    match value->Ok_0 {
        Some(v) => law_lookup(tree.entries(), *key, *v),
        None => law_lookup(tree.entries(), *key, arbitrary()),
    }
}

/// To look up a text gives what to look up a string with exactly its characters gives, as far as the
/// order of the strings goes by their characters.
pub proof fn law_get_text<V>(
    tree: &BPlusTree<String, V>,
    text: &str,
    key: String,
    by_text: Result<Option<&V>, TreeError>,
    by_key: Result<Option<&V>, TreeError>,
)
    requires
        lawful::<String>(),
        forall|a: String, b: String| #![trigger a@, b@] a@ == b@ ==> same(a, b),
        tree.wf(),
        key@ == text@,
        call_ensures(BPlusTree::<String, V>::get::<str>, (tree, text), by_text),
        call_ensures(BPlusTree::<String, V>::get::<String>, (tree, &key), by_key),
    ensures
        by_text == by_key,
{
    let k = choose|k: String| #[trigger]
        Probe::<String>::stands_for(text, k) && match by_text->Ok_0 {
            Some(v) => lookup(tree.entries(), k) == Some(*v),
            None => lookup(tree.entries(), k) is None,
        };
    assert(k@ == key@);
    law_alike(tree.entries(), k, key);
    law_get(tree, &key, by_key);
}

/// To look up a slice gives what to look up a vector with exactly its elements gives, as far as clones
/// of the elements are exact and the order of the vectors goes by their elements.
pub proof fn law_get_slice<T: Ord + Clone, V>(
    tree: &BPlusTree<Vec<T>, V>,
    slice: &[T],
    key: Vec<T>,
    by_slice: Result<Option<&V>, TreeError>,
    by_key: Result<Option<&V>, TreeError>,
)
    requires
        lawful::<Vec<T>>(),
        forall|x: T, y: T| #[trigger] cloned(x, y) ==> x == y,
        forall|a: Vec<T>, b: Vec<T>| #![trigger a@, b@] a@ == b@ ==> same(a, b),
        tree.wf(),
        key@ == slice@,
        call_ensures(BPlusTree::<Vec<T>, V>::get::<[T]>, (tree, slice), by_slice),
        call_ensures(BPlusTree::<Vec<T>, V>::get::<Vec<T>>, (tree, &key), by_key),
    ensures
        by_slice == by_key,
{
    let k = choose|k: Vec<T>| #[trigger]
        Probe::<Vec<T>>::stands_for(slice, k) && match by_slice->Ok_0 {
            Some(v) => lookup(tree.entries(), k) == Some(*v),
            None => lookup(tree.entries(), k) is None,
        };
    law_slices_apart(slice, slice, k);
    assert(k@ == key@);
    law_alike(tree.entries(), k, key);
    law_get(tree, &key, by_key);
}

/// After an insert the tree holds the value under the key, under the key that was there if there was
/// one of this rank, and every other entry as before; there is one entry more if the key is new.
pub proof fn law_insert<K: Ord + Clone, V>(
    tree: &mut BPlusTree<K, V>,
    key: K,
    value: V,
    done: Result<(), TreeError>,
)
    requires
        lawful::<K>(),
        old(tree).wf(),
        call_ensures(BPlusTree::<K, V>::insert, (tree, key, value), done),
    ensures
        done is Ok,
        final(tree).wf(),
        ascending(final(tree).entries()),
        old(tree).aligned() ==> final(tree).aligned(),
        final(tree).max_keys() == old(tree).max_keys(),
        final(tree).entries() == stored(old(tree).entries(), key, value),
        final(tree).entries().len() == old(tree).entries().len() + (if holds(
            old(tree).entries(),
            key,
        ) {
            0int
        } else {
            1
        }),
        forall|e: (K, V)|
            !same(e.0, key) ==> (#[trigger] final(tree).entries().contains(e) <==> old(
                tree,
            ).entries().contains(e)),
        forall|e: (K, V)| #[trigger]
            final(tree).entries().contains(e) && same(e.0, key) ==> e.1 == value && (if holds(
                old(tree).entries(),
                key,
            ) {
                exists|i: int|
                    0 <= i < old(tree).entries().len() && (#[trigger] old(tree).entries()[i]).0
                        == e.0
            } else {
                e.0 == key
            }),
        final(tree).pages_issued() - old(tree).pages_issued() == final(tree).pages_held() - old(
            tree,
        ).pages_held(),
        final(tree).pages_issued() == old(tree).pages_issued() + old(tree).pages_needed(key),
        old(tree).grew(final(tree), key, value),
        final(tree).height() == old(tree).height() + (if old(tree).root_page() is None || !holds(
            old(tree).entries(),
            key,
        ) && (forall|i: int|
            0 <= i < old(tree).way(key).len() ==> old(tree).nodes()[#[trigger] old(tree).way(
                key,
            )[i]].key_seq().len() == old(tree).max_keys()) {
            1int
        } else {
            0
        }),
{
    law_growth(*old(tree), key);
    let es = old(tree).entries();
    law_entries_ascending(*old(tree));
    law_entries_ascending(*final(tree));
    law_sizes(es, key, value);
    assert forall|e: (K, V)|
        !same(e.0, key) implies (#[trigger] final(tree).entries().contains(e) <==> es.contains(
        e,
    )) by {
        law_stored(es, key, value, e);
    }
    assert forall|e: (K, V)| #[trigger]
        final(tree).entries().contains(e) && same(e.0, key) implies e.1 == value && (if holds(
        es,
        key,
    ) {
        exists|i: int| 0 <= i < es.len() && (#[trigger] es[i]).0 == e.0
    } else {
        e.0 == key
    }) by {
        law_stored(es, key, value, e);
    }
}

/// A lookup after an insert finds the value that was put in, and under every other key what it found
/// before.
pub proof fn law_insert_then_get<K: Ord + Clone, V>(
    tree: &mut BPlusTree<K, V>,
    key: K,
    value: V,
    done: Result<(), TreeError>,
    was: &BPlusTree<K, V>,
    is: &BPlusTree<K, V>,
    sought: &K,
    earlier: Result<Option<&V>, TreeError>,
    later: Result<Option<&V>, TreeError>,
)
    requires
        lawful::<K>(),
        old(tree).wf(),
        call_ensures(BPlusTree::<K, V>::insert, (tree, key, value), done),
        *was == *old(tree),
        *is == *final(tree),
        call_ensures(BPlusTree::<K, V>::get::<K>, (was, sought), earlier),
        call_ensures(BPlusTree::<K, V>::get::<K>, (is, sought), later),
    ensures
        same(*sought, key) ==> later == Ok::<Option<&V>, TreeError>(Some(&value)),
        !same(*sought, key) ==> later == earlier,
{
    let es = old(tree).entries();
    law_entries_ascending(*was);
    law_get(was, sought, earlier);
    law_get(is, sought, later);
    if same(*sought, key) {
        law_read_your_write(es, key, value);
        law_alike(is.entries(), *sought, key);
    } else {
        law_store_elsewhere(es, key, value, *sought);
    }
}

/// A text finds what was put in under a string with exactly its characters.
pub proof fn law_insert_then_get_text<V>(
    tree: &mut BPlusTree<String, V>,
    key: String,
    value: V,
    done: Result<(), TreeError>,
    is: &BPlusTree<String, V>,
    text: &str,
    found: Result<Option<&V>, TreeError>,
)
    requires
        lawful::<String>(),
        forall|a: String, b: String| #![trigger a@, b@] a@ == b@ ==> same(a, b),
        old(tree).wf(),
        call_ensures(BPlusTree::<String, V>::insert, (tree, key, value), done),
        *is == *final(tree),
        key@ == text@,
        call_ensures(BPlusTree::<String, V>::get::<str>, (is, text), found),
    ensures
        found == Ok::<Option<&V>, TreeError>(Some(&value)),
{
    let k = choose|k: String| #[trigger]
        Probe::<String>::stands_for(text, k) && match found->Ok_0 {
            Some(v) => lookup(is.entries(), k) == Some(*v),
            None => lookup(is.entries(), k) is None,
        };
    assert(k@ == key@);
    law_entries_ascending(*old(tree));
    law_read_your_write(old(tree).entries(), key, value);
    law_alike(is.entries(), k, key);
}

/// A slice finds what was put in under a vector with exactly its elements, where clones of these are
/// exact.
pub proof fn law_insert_then_get_slice<T: Ord + Clone, V>(
    tree: &mut BPlusTree<Vec<T>, V>,
    key: Vec<T>,
    value: V,
    done: Result<(), TreeError>,
    is: &BPlusTree<Vec<T>, V>,
    slice: &[T],
    found: Result<Option<&V>, TreeError>,
)
    requires
        lawful::<Vec<T>>(),
        forall|x: T, y: T| #[trigger] cloned(x, y) ==> x == y,
        forall|a: Vec<T>, b: Vec<T>| #![trigger a@, b@] a@ == b@ ==> same(a, b),
        old(tree).wf(),
        call_ensures(BPlusTree::<Vec<T>, V>::insert, (tree, key, value), done),
        *is == *final(tree),
        key@ == slice@,
        call_ensures(BPlusTree::<Vec<T>, V>::get::<[T]>, (is, slice), found),
    ensures
        found == Ok::<Option<&V>, TreeError>(Some(&value)),
{
    let k = choose|k: Vec<T>| #[trigger]
        Probe::<Vec<T>>::stands_for(slice, k) && match found->Ok_0 {
            Some(v) => lookup(is.entries(), k) == Some(*v),
            None => lookup(is.entries(), k) is None,
        };
    law_slices_apart(slice, slice, k);
    assert(k@ == key@);
    law_entries_ascending(*old(tree));
    law_read_your_write(old(tree).entries(), key, value);
    law_alike(is.entries(), k, key);
}

/// A delete says whether the key was there. The entry with its rank is gone then, and nothing else: the
/// others come in the same order with the same values, each under its key or a clone of it. No page
/// number is handed out.
pub proof fn law_delete<K: Ord + Clone, V>(
    tree: &mut BPlusTree<K, V>,
    key: K,
    deleted: Result<bool, TreeError>,
)
    requires
        lawful::<K>(),
        old(tree).wf(),
        call_ensures(BPlusTree::<K, V>::delete::<K>, (tree, key), deleted),
    ensures
        deleted == Ok::<bool, TreeError>(
            exists|i: int|
                0 <= i < old(tree).entries().len() && same((#[trigger] old(tree).entries()[i]).0, key),
        ),
        final(tree).wf(),
        ascending(final(tree).entries()),
        final(tree).max_keys() == old(tree).max_keys(),
        final(tree).entries().len() == old(tree).entries().len() - (if holds(
            old(tree).entries(),
            key,
        ) {
            1int
        } else {
            0
        }),
        recloned(removed(old(tree).entries(), key), final(tree).entries()),
        (forall|x: K, y: K| #[trigger] cloned(x, y) ==> x == y) ==> forall|e: (K, V)| #[trigger]
            final(tree).entries().contains(e) <==> old(tree).entries().contains(e) && !same(e.0, key),
        deleted == Ok::<bool, TreeError>(false) ==> final(tree).entries() == old(tree).entries(),
        final(tree).pages_issued() == old(tree).pages_issued(),
        final(tree).pages_held() + old(tree).pages_freed(key) == old(tree).pages_held(),
        old(tree).shrank(final(tree), key),
        final(tree).height() == old(tree).height() - (if 0 < old(tree).height() == old(
            tree,
        ).pages_freed(key) {
            1int
        } else {
            0
        }),
        old(tree).aligned() && !old(tree).uncovers(key) ==> final(tree).aligned(),
{
    let es = old(tree).entries();
    law_entries_ascending(*old(tree));
    law_entries_ascending(*final(tree));
    super::law_holds(es, key);
    law_sizes(es, key, arbitrary());
    if forall|x: K, y: K| #[trigger] cloned(x, y) ==> x == y {
        law_exact_clones(removed(es, key), final(tree).entries());
        assert forall|e: (K, V)| #[trigger]
            final(tree).entries().contains(e) <==> es.contains(e) && !same(e.0, key) by {
            law_taken_out(es, key, e);
        }
    }
}

/// A lookup after a delete finds nothing under the key, and under every other key what it found before.
pub proof fn law_delete_then_get<K: Ord + Clone, V>(
    tree: &mut BPlusTree<K, V>,
    key: K,
    deleted: Result<bool, TreeError>,
    was: &BPlusTree<K, V>,
    is: &BPlusTree<K, V>,
    sought: &K,
    earlier: Result<Option<&V>, TreeError>,
    later: Result<Option<&V>, TreeError>,
)
    requires
        lawful::<K>(),
        old(tree).wf(),
        call_ensures(BPlusTree::<K, V>::delete::<K>, (tree, key), deleted),
        *was == *old(tree),
        *is == *final(tree),
        call_ensures(BPlusTree::<K, V>::get::<K>, (was, sought), earlier),
        call_ensures(BPlusTree::<K, V>::get::<K>, (is, sought), later),
    ensures
        same(*sought, key) ==> later == Ok::<Option<&V>, TreeError>(None),
        !same(*sought, key) ==> later == earlier,
        same(*sought, key) ==> (deleted == Ok::<bool, TreeError>(true) <==> earlier
            != Ok::<Option<&V>, TreeError>(None)),
{
    let es = old(tree).entries();
    law_entries_ascending(*was);
    law_entries_ascending(*is);
    law_get(was, sought, earlier);
    law_get(is, sought, later);
    if same(*sought, key) {
        law_alike(is.entries(), *sought, key);
        law_alike(was.entries(), *sought, key);
        law_read_after_delete(es, is.entries(), key, key);
    } else {
        law_read_after_delete(es, is.entries(), key, *sought);
    }
}

/// To delete by a reference or by a pointer does what to delete by the key does.
pub proof fn law_delete_by<'a, K: Ord + Clone, V>(
    tree: &mut BPlusTree<K, V>,
    key: &'a K,
    boxed: Box<K>,
    rc: Rc<K>,
    arc: Arc<K>,
    deleted: Result<bool, TreeError>,
)
    requires
        lawful::<K>(),
        old(tree).wf(),
        *boxed == *key,
        *rc == *key,
        *arc == *key,
        ({
            ||| call_ensures(BPlusTree::<K, V>::delete::<&'a K>, (tree, key), deleted)
            ||| call_ensures(BPlusTree::<K, V>::delete::<Box<K>>, (tree, boxed), deleted)
            ||| call_ensures(BPlusTree::<K, V>::delete::<Rc<K>>, (tree, rc), deleted)
            ||| call_ensures(BPlusTree::<K, V>::delete::<Arc<K>>, (tree, arc), deleted)
        }),
    ensures
        deleted == Ok::<bool, TreeError>(holds(old(tree).entries(), *key)),
        recloned(removed(old(tree).entries(), *key), final(tree).entries()),
        old(tree).shrank(final(tree), *key),
{
}

/// In a tree in which the way down goes astray, a lookup, an insert and a delete fail with the error that
/// says where, and leave the tree as it is.
pub proof fn law_astray<K: Ord + Clone, V>(
    tree: &mut BPlusTree<K, V>,
    was: &BPlusTree<K, V>,
    key: K,
    value: V,
    error: TreeError,
    found: Result<Option<&V>, TreeError>,
    done: Result<(), TreeError>,
    deleted: Result<bool, TreeError>,
)
    requires
        *was == *old(tree),
        old(tree).misleads(key, error),
    ensures
        call_ensures(BPlusTree::<K, V>::get::<K>, (was, &key), found) ==> found == Err::<
            Option<&V>,
            TreeError,
        >(error),
        call_ensures(BPlusTree::<K, V>::insert, (tree, key, value), done) ==> done == Err::<
            (),
            TreeError,
        >(error) && *final(tree) == *old(tree),
        call_ensures(BPlusTree::<K, V>::delete::<K>, (tree, key), deleted) ==> deleted == Err::<
            bool,
            TreeError,
        >(error) && *final(tree) == *old(tree),
{
    assert(!old(tree).wf()) by {
        assert(old(tree).misled(key));
        if old(tree).wf() {
            law_no_stray_way(*old(tree), key);
        }
    }
    if call_ensures(BPlusTree::<K, V>::get::<K>, (was, &key), found) {
        let k = choose|k: K| #[trigger]
            Probe::<K>::stands_for(&key, k) && was.misleads(k, found->Err_0);
        assert(k == key);
        law_one_error(*was, key, error, found->Err_0);
    }
    if call_ensures(BPlusTree::<K, V>::insert, (tree, key, value), done) {
        law_one_error(*old(tree), key, error, done->Err_0);
    }
    if call_ensures(BPlusTree::<K, V>::delete::<K>, (tree, key), deleted) {
        law_one_error(*old(tree), key, error, deleted->Err_0);
    }
}

/// In a tree in which the way along first children goes astray, a scan yields nothing, nor does a range.
pub proof fn law_scan_astray<'a, K: Ord + Clone, V, R: KeyRange<K>>(
    tree: &'a BPlusTree<K, V>,
    bounds: R,
    iter: Iter<'a, K, V>,
)
    requires
        tree.astray(),
    ensures
        call_ensures(BPlusTree::<K, V>::iter, (tree,), iter) ==> iter.remaining().len() == 0,
        call_ensures(BPlusTree::<K, V>::range::<R>, (tree, bounds), iter) ==> iter.remaining().len()
            == 0,
{
    if tree.wf() {
        law_no_stray_way(*tree, arbitrary());
    }
}

/// A scan yields all entries, and the first call of `next` the first of them: each call yields what comes
/// next, until nothing is left.
pub proof fn law_iter<'a, K: Ord + Clone, V>(
    tree: &'a BPlusTree<K, V>,
    start: Iter<'a, K, V>,
    iter: &mut Iter<'a, K, V>,
    entry: Option<(&'a K, &'a V)>,
)
    requires
        tree.wf(),
        call_ensures(BPlusTree::<K, V>::iter, (tree,), start),
        call_ensures(Iter::<'a, K, V>::next, (iter,), entry),
    ensures
        start.remaining() == tree.entries(),
        match entry {
            Some((k, v)) => old(iter).remaining() == seq![(*k, *v)] + final(iter).remaining(),
            None => old(iter).remaining().len() == 0 && final(iter).remaining().len() == 0,
        },
        *old(iter) == start ==> (entry is None <==> tree.entries().len() == 0),
{
    if let Some((k, v)) = entry {
        assert(old(iter).remaining() =~= seq![(*k, *v)] + final(iter).remaining());
    }
}

/// What a pair of bounds yields: an entry comes if and only if it is in the tree and neither bound cuts
/// it off, and they come in ascending key order.
pub proof fn law_range<'a, K: Ord + Clone, V>(
    tree: &'a BPlusTree<K, V>,
    pair: (Bound<K>, Bound<K>),
    iter: Iter<'a, K, V>,
)
    requires
        lawful::<K>(),
        tree.wf(),
        call_ensures(BPlusTree::<K, V>::range::<(Bound<K>, Bound<K>)>, (tree, pair), iter),
    ensures
        ascending(iter.remaining()),
        forall|e: (K, V)| #[trigger]
            iter.remaining().contains(e) <==> {
                &&& tree.entries().contains(e)
                &&& match pair.0 {
                    Bound::Included(a) => !before(e.0, a),
                    Bound::Excluded(a) => before(a, e.0),
                    Bound::Unbounded => true,
                }
                &&& match pair.1 {
                    Bound::Included(b) => !before(b, e.0),
                    Bound::Excluded(b) => before(e.0, b),
                    Bound::Unbounded => true,
                }
            },
{
    law_entries_ascending(*tree);
    law_chosen(tree.entries(), |k: K| pair.covers(k));
    assert forall|e: (K, V)| #[trigger]
        iter.remaining().contains(e) <==> {
            &&& tree.entries().contains(e)
            &&& match pair.0 {
                Bound::Included(a) => !before(e.0, a),
                Bound::Excluded(a) => before(a, e.0),
                Bound::Unbounded => true,
            }
            &&& match pair.1 {
                Bound::Included(b) => !before(b, e.0),
                Bound::Excluded(b) => before(e.0, b),
                Bound::Unbounded => true,
            }
        } by {
        law_yielded(tree.entries(), pair, e);
    }
}

/// The range syntax yields what the pair of its bounds yields.
pub proof fn law_range_syntax<'a, K: Ord + Clone, V>(
    tree: &'a BPlusTree<K, V>,
    pair: (Bound<K>, Bound<K>),
    half: Range<K>,
    whole: RangeInclusive<K>,
    from: RangeFrom<K>,
    to: RangeTo<K>,
    through: RangeToInclusive<K>,
    one: Iter<'a, K, V>,
    other: Iter<'a, K, V>,
)
    requires
        lawful::<K>(),
        tree.wf(),
        call_ensures(BPlusTree::<K, V>::range::<(Bound<K>, Bound<K>)>, (tree, pair), one),
        ({
            ||| pair == (Bound::Included(half.start), Bound::Excluded(half.end)) && call_ensures(
                BPlusTree::<K, V>::range::<Range<K>>,
                (tree, half),
                other,
            )
            ||| pair == (Bound::Included(whole@.start), Bound::Included(whole@.end))
                && !whole@.exhausted && call_ensures(
                BPlusTree::<K, V>::range::<RangeInclusive<K>>,
                (tree, whole),
                other,
            )
            ||| pair == (Bound::Included(from.start), Bound::<K>::Unbounded) && call_ensures(
                BPlusTree::<K, V>::range::<RangeFrom<K>>,
                (tree, from),
                other,
            )
            ||| pair == (Bound::<K>::Unbounded, Bound::Excluded(to.end)) && call_ensures(
                BPlusTree::<K, V>::range::<RangeTo<K>>,
                (tree, to),
                other,
            )
            ||| pair == (Bound::<K>::Unbounded, Bound::Included(through.end)) && call_ensures(
                BPlusTree::<K, V>::range::<RangeToInclusive<K>>,
                (tree, through),
                other,
            )
        }),
    ensures
        one.remaining() == other.remaining(),
{
    let es = tree.entries();
    if pair == (Bound::Included(half.start), Bound::Excluded(half.end)) {
        law_same_cover(es, pair, half);
    }
    if pair == (Bound::Included(whole@.start), Bound::Included(whole@.end)) && !whole@.exhausted {
        law_same_cover(es, pair, whole);
    }
    if pair == (Bound::Included(from.start), Bound::<K>::Unbounded) {
        law_same_cover(es, pair, from);
    }
    if pair == (Bound::<K>::Unbounded, Bound::Excluded(to.end)) {
        law_same_cover(es, pair, to);
    }
    if pair == (Bound::<K>::Unbounded, Bound::Included(through.end)) {
        law_same_cover(es, pair, through);
    }
}

/// What is sought for a text has its characters, what is sought for a slice as many elements, each a
/// clone, and what is sought for a key is the key.
pub proof fn law_sought_for<'a, K, T: Clone>(
    text: &'a str,
    string: Sought<'a, String>,
    slice: &'a [T],
    vector: Sought<'a, Vec<T>>,
    key: &'a K,
    held: Sought<'a, K>,
)
    requires
        call_ensures(<str as Probe<String>>::sought, (text,), string),
        call_ensures(<[T] as Probe<Vec<T>>>::sought, (slice,), vector),
        call_ensures(<K as Probe<K>>::sought, (key,), held),
    ensures
        string.key()@ == text@,
        vector.key()@.len() == slice@.len(),
        forall|i: int| 0 <= i < slice@.len() ==> cloned(slice@[i], #[trigger] vector.key()@[i]),
        held.key() == *key,
{
}

/// The key of a reference, or of a pointer, is what it leads to.
pub proof fn law_keys_borrowed<'a, K>(
    key: &'a K,
    reference: &'a &'a K,
    boxed: &'a Box<K>,
    rc: &'a Rc<K>,
    arc: &'a Arc<K>,
    found: &'a K,
)
    ensures
        call_ensures(<K as AsKey<K>>::as_key, (key,), found) ==> *found == *key,
        call_ensures(<&'a K as AsKey<K>>::as_key, (reference,), found) ==> *found == **reference,
        call_ensures(<Box<K> as AsKey<K>>::as_key, (boxed,), found) ==> *found == **boxed,
        call_ensures(<Rc<K> as AsKey<K>>::as_key, (rc,), found) ==> *found == **rc,
        call_ensures(<Arc<K> as AsKey<K>>::as_key, (arc,), found) ==> *found == **arc,
{
}

} // verus!
