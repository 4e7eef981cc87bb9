//! What a key can be looked up, and deleted, by.

use super::super::entries::{
    ascending, holds, lemma_rank, lemma_rank_bounds, lookup, rank, removed, stored,
};
use super::super::{AsKey, Probe, Sought};
use super::{law_order_kept, law_read_your_write};
use crate::order::{before, group_order, lawful, same};
use std::rc::Rc;
use std::sync::Arc;
use vstd::prelude::*;

verus! {

/// Keys of the same rank are there together, at one position and with one value, and what one of
/// them does to the entries the other does too.
pub proof fn law_alike<K: Ord + Clone, V>(entries: Seq<(K, V)>, a: K, b: K)
    requires
        lawful::<K>(),
        same(a, b),
    ensures
        rank(entries, a) == rank(entries, b),
        holds(entries, a) == holds(entries, b),
        lookup(entries, a) == lookup(entries, b),
        removed(entries, a) == removed(entries, b),
{
    broadcast use group_order;

    lemma_rank_bounds(entries, a);
    let at = rank(entries, a) as int;
    assert forall|i: int| 0 <= i < at implies before((#[trigger] entries[i]).0, b) by {
        assert(before(entries[i].0, a));
    }
    lemma_rank(entries, b, at);
}

/// A key is looked up by the key that it is.
pub proof fn law_probe_key<K>(probe: K, key: K)
    ensures
        Probe::<K>::stands_for(&probe, key) <==> key == probe,
{
}

/// A text stands for the key with exactly its characters.
pub proof fn law_probe_text(text: &str, key: String)
    ensures
        Probe::<String>::stands_for(text, key) <==> {
            &&& key@.len() == text@.len()
            &&& forall|i: int| 0 <= i < text@.len() ==> #[trigger] key@[i] == text@[i]
        },
{
    if key@.len() == text@.len() && forall|i: int|
        0 <= i < text@.len() ==> #[trigger] key@[i] == text@[i] {
        assert(key@ =~= text@);
    }
}

/// Two different texts never stand for the same key.
pub proof fn law_texts_apart(one: &str, other: &str, key: String)
    requires
        Probe::<String>::stands_for(one, key),
        Probe::<String>::stands_for(other, key),
    ensures
        one@ == other@,
{
}

/// To look up a text gives what to look up a string with its characters gives, and finds what was
/// stored under such a string; this rests on the order of the strings going by their characters.
pub proof fn law_get_by_text<V>(
    entries: Seq<(String, V)>,
    text: &str,
    sought: String,
    key: String,
    value: V,
)
    requires
        lawful::<String>(),
        forall|a: String, b: String| #![trigger a@, b@] a@ == b@ ==> same(a, b),
        ascending(entries),
        Probe::<String>::stands_for(text, sought),
        key@ == text@,
    ensures
        lookup(entries, sought) == lookup(entries, key),
        lookup(stored(entries, key, value), sought) == Some(value),
{
    assert(sought@ == key@);
    law_alike(entries, sought, key);
    law_order_kept(entries, key, value);
    law_alike(stored(entries, key, value), sought, key);
    law_read_your_write(entries, key, value);
}

/// A slice stands for a vector as long as it is, whose elements are clones of its own, one by one.
pub proof fn law_probe_slice<T: Clone>(slice: &[T], key: Vec<T>)
    ensures
        Probe::<Vec<T>>::stands_for(slice, key) <==> {
            &&& key@.len() == slice@.len()
            &&& forall|i: int| 0 <= i < slice@.len() ==> cloned(slice@[i], #[trigger] key@[i])
        },
{
}

/// Where a clone of an element is the element, a slice stands for the vector with its elements, and
/// two different slices never stand for the same key.
pub proof fn law_slices_apart<T: Clone>(one: &[T], other: &[T], key: Vec<T>)
    requires
        forall|x: T, y: T| #[trigger] cloned(x, y) ==> x == y,
        Probe::<Vec<T>>::stands_for(one, key),
    ensures
        key@ == one@,
        Probe::<Vec<T>>::stands_for(other, key) ==> one@ == other@,
{
    assert forall|i: int| 0 <= i < one@.len() implies one@[i] == key@[i] by {
        assert(cloned(one@[i], key@[i]));
    }
    assert(key@ =~= one@);
    if Probe::<Vec<T>>::stands_for(other, key) {
        assert forall|i: int| 0 <= i < other@.len() implies other@[i] == key@[i] by {
            assert(cloned(other@[i], key@[i]));
        }
        assert(key@ =~= other@);
    }
}

/// To look up a slice gives what to look up a vector with its elements gives, and finds what was
/// stored under such a vector, where clones are exact and the order goes by the elements.
pub proof fn law_get_by_slice<T: Clone + Ord, V>(
    entries: Seq<(Vec<T>, V)>,
    slice: &[T],
    sought: Vec<T>,
    key: Vec<T>,
    value: V,
)
    requires
        lawful::<Vec<T>>(),
        forall|x: T, y: T| #[trigger] cloned(x, y) ==> x == y,
        forall|a: Vec<T>, b: Vec<T>| #![trigger a@, b@] a@ == b@ ==> same(a, b),
        ascending(entries),
        Probe::<Vec<T>>::stands_for(slice, sought),
        key@ == slice@,
    ensures
        lookup(entries, sought) == lookup(entries, key),
        lookup(stored(entries, key, value), sought) == Some(value),
{
    law_slices_apart(slice, slice, sought);
    assert(sought@ == key@);
    law_alike(entries, sought, key);
    law_order_kept(entries, key, value);
    law_alike(stored(entries, key, value), sought, key);
    law_read_your_write(entries, key, value);
}

/// A value stands for a pointer to a clone of it.
pub proof fn law_probe_pointer<T: Clone>(value: T, boxed: Box<T>, rc: Rc<T>, arc: Arc<T>)
    ensures
        Probe::<Box<T>>::stands_for(&value, boxed) <==> cloned(value, *boxed),
        Probe::<Rc<T>>::stands_for(&value, rc) <==> cloned(value, *rc),
        Probe::<Arc<T>>::stands_for(&value, arc) <==> cloned(value, *arc),
{
}

/// A key is what it is, whether it is handed over, borrowed, or pointed to.
pub proof fn law_as_key<'a, K>(key: K, borrowed: &'a K, boxed: Box<K>, rc: Rc<K>, arc: Arc<K>)
    ensures
        AsKey::<K>::key(&key) == key,
        AsKey::<K>::key(&borrowed) == *borrowed,
        AsKey::<K>::key(&boxed) == *boxed,
        AsKey::<K>::key(&rc) == *rc,
        AsKey::<K>::key(&arc) == *arc,
{
}

/// A key to look for is the one at hand, or the one that was made.
pub proof fn law_sought<'a, K>(held: &'a K, made: K)
    ensures
        Sought::Held(held).key() == *held,
        Sought::<'a, K>::Made(made).key() == made,
{
}

} // verus!
