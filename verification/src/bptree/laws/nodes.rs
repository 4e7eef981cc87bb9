//! What holds of the nodes and the pages, and of the entries that they make up.

use super::super::entries::{
    ascending, holds, lemma_rank_bounds, lookup, rank, recloned, removed, sorted, stored, turn,
};
use super::super::{fewest, leads_left, points, BPlusTree, BPlusTreeNode, PageId, TreeError};
use super::{law_holds, law_order_kept, lemma_found, lemma_turn_parts};
use crate::order::{before, group_order, lawful, same};
use vstd::prelude::*;

verus! {

/// The fewest keys of a node are half of the most, rounded down: the largest number that twice does
/// not exceed it.
pub proof fn law_fewest(max: nat, n: nat)
    requires
        max >= 2,
    ensures
        2 * fewest(max) <= max,
        max <= 2 * fewest(max) + 1,
        fewest(max) >= 1,
        n <= fewest(max) <==> 2 * n <= max,
{
}

/// With every two keys more that a node may hold, the fewest keys of a node are one more.
pub proof fn law_fewest_grows(max: nat)
    requires
        max >= 2,
    ensures
        fewest(max + 2) == fewest(max) + 1,
        fewest(max) <= fewest(max + 1) <= fewest(max) + 1,
        fewest(2) == 1,
        fewest(3) == 1,
{
}

/// A node other than the root is at least half full, up to the key that is odd; the root holds a key;
/// and no node holds more than the most.
pub proof fn law_half_full<K: Ord + Clone, V>(tree: BPlusTree<K, V>, id: PageId)
    requires
        tree.wf(),
        tree.nodes().contains_key(id),
    ensures
        tree.max_keys() >= 2,
        tree.root_page() != Some(id) ==> 2 * tree.nodes()[id].key_seq().len() + 1 >= tree.max_keys(),
        tree.nodes()[id].key_seq().len() >= 1,
        tree.nodes()[id].key_seq().len() <= tree.max_keys(),
{
    assert(tree.shape().pages.contains_key(id));
}

/// The pages that a tree takes up are those of its nodes, and each has a number that was handed out.
pub proof fn law_page_numbers<K: Ord + Clone, V>(tree: BPlusTree<K, V>, id: PageId)
    requires
        tree.wf(),
    ensures
        tree.pages_held() == tree.nodes().dom().len(),
        tree.nodes().dom().finite(),
        tree.nodes().contains_key(id) ==> id < tree.pages_issued(),
{
}

/// The nodes say what is in them: a leaf its keys with their values, an internal node its separators
/// and its children.
pub proof fn law_node_parts<K, V>(node: BPlusTreeNode<K, V>, i: int)
    ensures
        match node {
            BPlusTreeNode::Leaf { keys, values, .. } => {
                &&& node.key_seq() == keys@
                &&& node.value_seq() == values@
                &&& node.child_seq().len() == 0
                &&& node.entry_seq().len() == keys@.len()
                &&& 0 <= i < keys@.len() ==> node.entry_seq()[i] == (keys@[i], values@[i])
            },
            BPlusTreeNode::Internal { keys, children } => {
                &&& node.key_seq() == keys@
                &&& node.child_seq() == children@
                &&& node.value_seq().len() == 0
            },
        },
{
}

/// The entries start with those of the leaf that the way along first children leads to.
pub proof fn law_first_leaf<K: Ord + Clone, V>(tree: BPlusTree<K, V>, path: Seq<PageId>)
    requires
        lawful::<K>(),
        tree.wf(),
        leads_left(tree.nodes(), path),
        tree.root_page() == Some(path[0]),
        tree.nodes()[path.last()] is Leaf,
    ensures
        ({
            let here = tree.nodes()[path.last()].entry_seq();
            &&& here.len() <= tree.entries().len()
            &&& tree.entries().take(here.len() as int) == here
        }),
{
    let s = tree.shape();
    let id = path.last();
    s.lemma_root(None);
    s.lemma_left_way(path);
    s.lemma_page(None, path[0]);
    s.lemma_leftmost(id);
    s.lemma_start_of(id);
    let here = s.pages[id].entry_seq();
    assert forall|j: int| 0 <= j < here.len() implies tree.entries()[j] == here[j] by {
        assert(s.entries()[s.start_of(id) + j] == here[j]);
    }
    assert(tree.entries().take(here.len() as int) =~= here);
}

/// A value is found under a key if and only if an entry with the rank of the key holds it.
pub proof fn law_lookup<K: Ord + Clone, V>(entries: Seq<(K, V)>, key: K, value: V)
    requires
        lawful::<K>(),
        ascending(entries),
    ensures
        lookup(entries, key) == Some(value) <==> exists|i: int|
            0 <= i < entries.len() && same((#[trigger] entries[i]).0, key) && entries[i].1 == value,
        lookup(entries, key) is None <==> forall|i: int|
            0 <= i < entries.len() ==> !same((#[trigger] entries[i]).0, key),
        lookup(entries, key) is Some <==> holds(entries, key),
{
    law_holds(entries, key);
    lemma_rank_bounds(entries, key);
    if exists|i: int|
        0 <= i < entries.len() && same((#[trigger] entries[i]).0, key) && entries[i].1 == value {
        let i = choose|i: int|
            0 <= i < entries.len() && same((#[trigger] entries[i]).0, key) && entries[i].1 == value;
        lemma_found(entries, key, i);
    }
    if lookup(entries, key) == Some(value) {
        let i = rank(entries, key) as int;
        assert(same(entries[i].0, key) && entries[i].1 == value);
    }
}

/// After a store there is one entry with the rank of the key: it holds the value, under the key that was
/// there or else under the new one. Every other entry is there if and only if it was.
pub proof fn law_stored<K: Ord + Clone, V>(entries: Seq<(K, V)>, key: K, value: V, e: (K, V))
    requires
        lawful::<K>(),
        ascending(entries),
    ensures
        !same(e.0, key) ==> (stored(entries, key, value).contains(e) <==> entries.contains(e)),
        same(e.0, key) ==> (stored(entries, key, value).contains(e) <==> {
            &&& e.1 == value
            &&& if holds(entries, key) {
                exists|i: int| 0 <= i < entries.len() && (#[trigger] entries[i]).0 == e.0
            } else {
                e.0 == key
            }
        }),
{
    broadcast use group_order;

    lemma_rank_bounds(entries, key);
    let at = rank(entries, key) as int;
    let more = stored(entries, key, value);
    let old = holds(entries, key);
    law_order_kept(entries, key, value);
    if more.contains(e) {
        let i = more.index_of(e);
        let j = if old || i < at {
            i
        } else {
            i - 1
        };
        if i != at {
            assert(more[i] == entries[j]);
            if same(e.0, key) {
                lemma_found(entries, key, j);
            }
        } else {
            if before(key, key) {
                assert(!before(key, key));
            }
            if old {
                assert(entries[at].0 == e.0);
                assert(same(entries[at].0, key));
            }
        }
    }
    if !same(e.0, key) && entries.contains(e) {
        let i = entries.index_of(e);
        if i == at && old {
            assert(same(entries[at].0, key));
        }
        assert(more[if old || i < at {
            i
        } else {
            i + 1
        }] == e);
    }
    if same(e.0, key) && e.1 == value {
        if old && exists|i: int| 0 <= i < entries.len() && (#[trigger] entries[i]).0 == e.0 {
            let i = choose|i: int| 0 <= i < entries.len() && (#[trigger] entries[i]).0 == e.0;
            lemma_found(entries, key, i);
            assert(more[at] == e);
        }
        if !old && e.0 == key {
            assert(more[at] == e);
        }
    }
}

/// After a removal an entry is there if and only if it was and does not have the rank of the key.
pub proof fn law_taken_out<K: Ord + Clone, V>(entries: Seq<(K, V)>, key: K, e: (K, V))
    requires
        lawful::<K>(),
        ascending(entries),
    ensures
        removed(entries, key).contains(e) <==> entries.contains(e) && !same(e.0, key),
{
    broadcast use group_order;

    lemma_rank_bounds(entries, key);
    let at = rank(entries, key) as int;
    let less = removed(entries, key);
    let old = holds(entries, key);
    if less.contains(e) {
        let i = less.index_of(e);
        let j = if !old || i < at {
            i
        } else {
            i + 1
        };
        assert(less[i] == entries[j]);
        if same(e.0, key) {
            lemma_found(entries, key, j);
        }
    }
    if entries.contains(e) && !same(e.0, key) {
        let i = entries.index_of(e);
        if old && i == at {
            assert(same(entries[at].0, key));
        }
        assert(less[if !old || i < at {
            i
        } else {
            i - 1
        }] == e);
    }
}

/// Entries with cloned keys are as many, with the same values, each under a clone of its key.
pub proof fn law_clones<K: Clone, V>(a: Seq<(K, V)>, b: Seq<(K, V)>, i: int)
    requires
        recloned(a, b),
    ensures
        a.len() == b.len(),
        0 <= i < a.len() ==> b[i].1 == a[i].1 && cloned(a[i].0, b[i].0),
{
}

/// `turn` counts the separators that a key passes: those at or before it, as they are in order.
pub proof fn law_turn<K: Ord + Clone>(keys: Seq<K>, key: K, i: int)
    requires
        lawful::<K>(),
        sorted(keys),
        0 <= i < keys.len(),
    ensures
        turn(keys, key) <= keys.len(),
        i < turn(keys, key) <==> !before(key, keys[i]),
{
    broadcast use group_order;

    lemma_turn_parts(keys, key);
    let t = turn(keys, key) as int;
    if t < i {
        assert(before(keys[t], keys[i]));
    }
}

/// A way down that comes to a page that is unknown, or to an internal node that has no child for the
/// key, ends there with the error that says so.
pub proof fn law_lost_way<K: Ord + Clone, V>(tree: BPlusTree<K, V>, key: K, path: Seq<PageId>)
    requires
        path.len() > 0,
        tree.root_page() == Some(path[0]),
        forall|i: int, j: int|
            0 <= i && j == i + 1 && j < path.len() ==> points(
                tree.nodes(),
                #[trigger] path[i],
                key,
                #[trigger] path[j],
            ),
    ensures
        !tree.nodes().contains_key(path.last()) ==> tree.misleads(key, TreeError::UnknownPage),
        tree.nodes().contains_key(path.last()) && tree.nodes()[path.last()] is Internal && sorted(
            tree.nodes()[path.last()].key_seq(),
        ) && turn(tree.nodes()[path.last()].key_seq(), key)
            >= tree.nodes()[path.last()].child_seq().len() ==> tree.misleads(
            key,
            TreeError::CorruptInternal(path.last()),
        ),
{
    if !tree.nodes().contains_key(path.last()) {
        assert(tree.strays(key, path, TreeError::UnknownPage));
    } else if tree.nodes()[path.last()] is Internal && sorted(
        tree.nodes()[path.last()].key_seq(),
    ) && turn(tree.nodes()[path.last()].key_seq(), key)
        >= tree.nodes()[path.last()].child_seq().len() {
        assert(tree.strays(key, path, TreeError::CorruptInternal(path.last())));
    }
}

/// A way down ends with no other error than that of an unknown page, or of an internal node among the
/// pages that has too few children.
pub proof fn law_lost_way_errors<K: Ord + Clone, V>(tree: BPlusTree<K, V>, key: K, e: TreeError)
    requires
        tree.misleads(key, e),
    ensures
        match e {
            TreeError::UnknownPage => true,
            TreeError::CorruptInternal(id) => {
                &&& tree.nodes().contains_key(id)
                &&& tree.nodes()[id] is Internal
                &&& tree.nodes()[id].child_seq().len() <= tree.nodes()[id].key_seq().len()
            },
            _ => false,
        },
        tree.root_page() is Some,
        !tree.wf(),
{
    let path = choose|path: Seq<PageId>| #[trigger] tree.strays(key, path, e);
    let id = path.last();
    if tree.nodes().contains_key(id) {
        lemma_turn_parts(tree.nodes()[id].key_seq(), key);
    }
    if tree.wf() {
        super::law_no_stray_way(tree, key);
    }
}

/// `rank` counts the entries before a key, as they are in order.
pub proof fn law_rank<K: Ord + Clone, V>(entries: Seq<(K, V)>, key: K, i: int)
    requires
        lawful::<K>(),
        ascending(entries),
        0 <= i < entries.len(),
    ensures
        rank(entries, key) <= entries.len(),
        i < rank(entries, key) <==> before(entries[i].0, key),
{
    broadcast use group_order;

    lemma_rank_bounds(entries, key);
    let at = rank(entries, key) as int;
    if at < i {
        assert(before(entries[at].0, entries[i].0));
    }
}

/// A way along first children that comes to an unknown page, or to an internal node without children, goes
/// astray.
pub proof fn law_lost_left<K: Ord + Clone, V>(tree: BPlusTree<K, V>, path: Seq<PageId>)
    requires
        leads_left(tree.nodes(), path),
        tree.root_page() == Some(path[0]),
        forall|i: int|
            0 <= i < path.len() - 1 ==> tree.nodes().contains_key(#[trigger] path[i])
                && tree.nodes()[path[i]] is Internal,
        tree.nodes().contains_key(path.last()) ==> tree.nodes()[path.last()] is Internal
            && tree.nodes()[path.last()].child_seq().len() == 0,
    ensures
        tree.astray(),
        !tree.wf(),
{
    assert(tree.strays_left(path));
    if tree.wf() {
        super::law_no_stray_way(tree, arbitrary());
    }
}

/// A leaf is slender if it and half of what a node may hold fit into one node, and an internal node if
/// there is room for the separator too.
pub proof fn law_slender<K: Ord + Clone, V>(tree: BPlusTree<K, V>, id: PageId)
    requires
        tree.wf(),
    ensures
        tree.nodes()[id] is Leaf ==> (tree.slender(id) <==> tree.nodes()[id].key_seq().len()
            + tree.max_keys() / 2 <= tree.max_keys()),
        tree.nodes()[id] is Internal ==> (tree.slender(id) <==> tree.nodes()[id].key_seq().len()
            + tree.max_keys() / 2 + 1 <= tree.max_keys()),
{
}

} // verus!
