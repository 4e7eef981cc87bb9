//! What the operations mean on the sorted sequence of a tree's entries.

use crate::order::before;
use vstd::prelude::*;

verus! {

/// The keys are strictly ascending.
pub open spec fn sorted<K: Ord>(keys: Seq<K>) -> bool {
    forall|i: int, j: int| 0 <= i < j < keys.len() ==> before(#[trigger] keys[i], #[trigger] keys[j])
}

/// How many of the separators at the front a key at `key` passes: the child that it belongs to.
pub open spec fn turn<K: Ord>(keys: Seq<K>, key: K) -> nat
    decreases keys.len(),
{
    if keys.len() > 0 && !before(key, keys[0]) {
        1 + turn(keys.drop_first(), key)
    } else {
        0
    }
}

/// `turn` is the position that parts the separators that a key passes from the others.
pub proof fn lemma_turn<K: Ord>(keys: Seq<K>, key: K, at: int)
    requires
        0 <= at <= keys.len(),
        forall|i: int| 0 <= i < at ==> !before(key, #[trigger] keys[i]),
        at < keys.len() ==> before(key, keys[at]),
    ensures
        turn(keys, key) == at,
    decreases at,
{
    if at > 0 {
        let rest = keys.drop_first();
        assert forall|i: int| 0 <= i < at - 1 implies !before(key, #[trigger] rest[i]) by {
            assert(rest[i] == keys[i + 1]);
        }
        assert(!before(key, keys[0]));
        lemma_turn(rest, key, at - 1);
    }
}

/// The entries are in strictly ascending key order.
pub open spec fn ascending<K: Ord, V>(entries: Seq<(K, V)>) -> bool {
    forall|i: int, j: int|
        0 <= i < j < entries.len() ==> before((#[trigger] entries[i]).0, (#[trigger] entries[j]).0)
}

/// How many entries at the front have a key before `key`.
pub open spec fn rank<K: Ord, V>(entries: Seq<(K, V)>, key: K) -> nat
    decreases entries.len(),
{
    if entries.len() > 0 && before(entries[0].0, key) {
        1 + rank(entries.drop_first(), key)
    } else {
        0
    }
}

/// One of the entries has the rank of `key`.
pub open spec fn holds<K: Ord, V>(entries: Seq<(K, V)>, key: K) -> bool {
    let at = rank(entries, key) as int;
    at < entries.len() && !before(key, entries[at].0)
}

/// The value stored under `key`.
pub open spec fn lookup<K: Ord, V>(entries: Seq<(K, V)>, key: K) -> Option<V> {
    if holds(entries, key) {
        Some(entries[rank(entries, key) as int].1)
    } else {
        None
    }
}

/// The entries after `value` was stored under `key`. A key that is there already stays, and only
/// its value is replaced.
pub open spec fn stored<K: Ord, V>(entries: Seq<(K, V)>, key: K, value: V) -> Seq<(K, V)> {
    let at = rank(entries, key) as int;
    if holds(entries, key) {
        entries.update(at, (entries[at].0, value))
    } else {
        entries.insert(at, (key, value))
    }
}

/// The entries after the entry of `key` was taken out.
pub open spec fn removed<K: Ord, V>(entries: Seq<(K, V)>, key: K) -> Seq<(K, V)> {
    if holds(entries, key) {
        entries.remove(rank(entries, key) as int)
    } else {
        entries
    }
}

/// The same entries, where each key is the one that was there or a clone of it.
pub open spec fn recloned<K: Clone, V>(before: Seq<(K, V)>, after: Seq<(K, V)>) -> bool {
    &&& after.len() == before.len()
    &&& forall|i: int|
        0 <= i < after.len() ==> {
            &&& (#[trigger] after[i]).1 == before[i].1
            &&& cloned(before[i].0, after[i].0)
        }
}

/// The entries whose key `keep` lets through, in the same order.
pub open spec fn chosen<K, V>(entries: Seq<(K, V)>, keep: spec_fn(K) -> bool) -> Seq<(K, V)> {
    entries.filter(|e: (K, V)| keep(e.0))
}

/// Where `keep` lets no key through, nothing is chosen.
pub proof fn lemma_chosen_none<K, V>(entries: Seq<(K, V)>, keep: spec_fn(K) -> bool)
    requires
        forall|i: int| 0 <= i < entries.len() ==> !keep((#[trigger] entries[i]).0),
    ensures
        chosen(entries, keep) == Seq::<(K, V)>::empty(),
    decreases entries.len(),
{
    if entries.len() > 0 {
        let rest = entries.drop_last();
        assert forall|i: int| 0 <= i < rest.len() implies !keep((#[trigger] rest[i]).0) by {
            assert(rest[i] == entries[i]);
        }
        lemma_chosen_none(rest, keep);
        assert(!keep(entries[entries.len() - 1].0));
    }
    reveal(Seq::filter);
}

/// Where `keep` lets every key through, everything is chosen.
pub proof fn lemma_chosen_all<K, V>(entries: Seq<(K, V)>, keep: spec_fn(K) -> bool)
    requires
        forall|i: int| 0 <= i < entries.len() ==> keep((#[trigger] entries[i]).0),
    ensures
        chosen(entries, keep) == entries,
    decreases entries.len(),
{
    reveal(Seq::filter);
    if entries.len() > 0 {
        let rest = entries.drop_last();
        assert forall|i: int| 0 <= i < rest.len() implies keep((#[trigger] rest[i]).0) by {
            assert(rest[i] == entries[i]);
        }
        lemma_chosen_all(rest, keep);
        assert(keep(entries[entries.len() - 1].0));
        assert(chosen(entries, keep) =~= entries);
    }
}

/// Two predicates that agree on the keys choose the same entries.
pub proof fn lemma_chosen_same<K, V>(
    entries: Seq<(K, V)>,
    keep: spec_fn(K) -> bool,
    other: spec_fn(K) -> bool,
)
    requires
        forall|i: int|
            0 <= i < entries.len() ==> keep((#[trigger] entries[i]).0) == other(entries[i].0),
    ensures
        chosen(entries, keep) == chosen(entries, other),
    decreases entries.len(),
{
    reveal(Seq::filter);
    if entries.len() > 0 {
        let rest = entries.drop_last();
        assert forall|i: int| 0 <= i < rest.len() implies keep((#[trigger] rest[i]).0) == other(
            rest[i].0,
        ) by {
            assert(rest[i] == entries[i]);
        }
        lemma_chosen_same(rest, keep, other);
        assert(keep(entries[entries.len() - 1].0) == other(entries[entries.len() - 1].0));
    }
}

/// An entry at the front that `keep` lets through is chosen first.
pub proof fn lemma_chosen_first<K, V>(entries: Seq<(K, V)>, keep: spec_fn(K) -> bool)
    requires
        entries.len() > 0,
        keep(entries[0].0),
    ensures
        chosen(entries, keep).len() > 0,
        chosen(entries, keep)[0] == entries[0],
        chosen(entries, keep).drop_first() == chosen(entries.drop_first(), keep),
{
    reveal(Seq::filter);
    let f = |e: (K, V)| keep(e.0);
    let one = seq![entries[0]];
    Seq::filter_distributes_over_add(one, entries.drop_first(), f);
    assert(one + entries.drop_first() =~= entries);
    assert(one.drop_last() =~= Seq::<(K, V)>::empty());
    assert(one.drop_last().filter(f) =~= Seq::<(K, V)>::empty());
    assert(one.filter(f) =~= one);
    assert(chosen(entries, keep).drop_first() =~= chosen(entries.drop_first(), keep));
}

/// `rank` is the position that parts the smaller keys from the others.
pub proof fn lemma_rank<K: Ord, V>(entries: Seq<(K, V)>, key: K, at: int)
    requires
        0 <= at <= entries.len(),
        forall|i: int| 0 <= i < at ==> before((#[trigger] entries[i]).0, key),
        at < entries.len() ==> !before(entries[at].0, key),
    ensures
        rank(entries, key) == at,
    decreases at,
{
    if at > 0 {
        let rest = entries.drop_first();
        assert forall|i: int| 0 <= i < at - 1 implies before((#[trigger] rest[i]).0, key) by {
            assert(rest[i] == entries[i + 1]);
        }
        assert(before(entries[0].0, key));
        lemma_rank(rest, key, at - 1);
    }
}

/// `rank` parts the entries before `key` from the first one that is not.
pub proof fn lemma_rank_bounds<K: Ord, V>(entries: Seq<(K, V)>, key: K)
    ensures
        0 <= rank(entries, key) <= entries.len(),
        forall|i: int| 0 <= i < rank(entries, key) ==> before((#[trigger] entries[i]).0, key),
        rank(entries, key) < entries.len() ==> !before(entries[rank(entries, key) as int].0, key),
    decreases entries.len(),
{
    if entries.len() > 0 && before(entries[0].0, key) {
        let rest = entries.drop_first();
        lemma_rank_bounds(rest, key);
        assert forall|i: int| 0 <= i < rank(entries, key) implies before(
            (#[trigger] entries[i]).0,
            key,
        ) by {
            if i > 0 {
                assert(entries[i] == rest[i - 1]);
            }
        }
    }
}

} // verus!
