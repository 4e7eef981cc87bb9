//! What holds of the tree as a whole.

pub mod calls;
pub mod deletes;
pub mod inserts;
pub mod keys;
pub mod mends;
pub mod nodes;
pub mod ranges;

use super::entries::{
    ascending, chosen, holds, lemma_chosen_all, lemma_chosen_none, lemma_rank, lemma_rank_bounds,
    lookup, rank, recloned, removed, sorted, stored, turn,
};
use super::shape::{capped, floored, raised, Shape};
use super::{fewest, heads, leads_left, points, BPlusTree, BPlusTreeNode, PageId, TreeError};
use crate::order::{before, group_order, lawful, lemma_clone_same, same};
use crate::range::KeyRange;
use core::ops::{Range, RangeFrom, RangeFull, RangeTo};
use vstd::prelude::*;

verus! {

/// The position of a key with the rank of `key` is its rank.
proof fn lemma_found<K: Ord + Clone, V>(entries: Seq<(K, V)>, key: K, at: int)
    requires
        lawful::<K>(),
        ascending(entries),
        0 <= at < entries.len(),
        same(entries[at].0, key),
    ensures
        holds(entries, key),
        rank(entries, key) == at,
        lookup(entries, key) == Some(entries[at].1),
{
    broadcast use group_order;

    assert forall|i: int| 0 <= i < at implies before((#[trigger] entries[i]).0, key) by {
        assert(before(entries[i].0, entries[at].0));
    }
    lemma_rank(entries, key, at);
}

/// `key` is not there if no entry has its rank.
proof fn lemma_missing<K: Ord + Clone, V>(entries: Seq<(K, V)>, key: K)
    requires
        lawful::<K>(),
        forall|i: int| 0 <= i < entries.len() ==> !same((#[trigger] entries[i]).0, key),
    ensures
        !holds(entries, key),
        lookup(entries, key) is None,
{
    lemma_rank_bounds(entries, key);
}

/// A key is there if and only if an entry has its rank.
pub proof fn law_holds<K: Ord + Clone, V>(entries: Seq<(K, V)>, key: K)
    requires
        lawful::<K>(),
        ascending(entries),
    ensures
        holds(entries, key) <==> exists|i: int|
            0 <= i < entries.len() && same((#[trigger] entries[i]).0, key),
{
    lemma_rank_bounds(entries, key);
    if exists|i: int| 0 <= i < entries.len() && same((#[trigger] entries[i]).0, key) {
        let i = choose|i: int| 0 <= i < entries.len() && same((#[trigger] entries[i]).0, key);
        lemma_found(entries, key, i);
    }
    if holds(entries, key) {
        let at = rank(entries, key) as int;
        assert(same(entries[at].0, key));
    }
}

/// Entries in key order stay in key order when one is stored, or taken out.
pub proof fn law_order_kept<K: Ord + Clone, V>(entries: Seq<(K, V)>, key: K, value: V)
    requires
        lawful::<K>(),
        ascending(entries),
    ensures
        ascending(stored(entries, key, value)),
        ascending(removed(entries, key)),
{
    broadcast use group_order;

    lemma_rank_bounds(entries, key);
    let at = rank(entries, key) as int;
    let more = stored(entries, key, value);
    assert forall|i: int, j: int| 0 <= i < j < more.len() implies before(
        (#[trigger] more[i]).0,
        (#[trigger] more[j]).0,
    ) by {
        if holds(entries, key) {
            assert(before(entries[i].0, entries[j].0));
        } else {
            let a = if i < at { i } else { i - 1 };
            let b = if j < at { j } else { j - 1 };
            if i != at && j != at {
                assert(before(entries[a].0, entries[b].0));
            } else if i == at {
                assert(before(key, entries[at].0));
                if b > at {
                    assert(before(entries[at].0, entries[b].0));
                }
            } else {
                assert(before(entries[i].0, key));
            }
        }
    }
    let less = removed(entries, key);
    assert forall|i: int, j: int| 0 <= i < j < less.len() implies before(
        (#[trigger] less[i]).0,
        (#[trigger] less[j]).0,
    ) by {
        if holds(entries, key) {
            let a = if i < at { i } else { i + 1 };
            let b = if j < at { j } else { j + 1 };
            assert(before(entries[a].0, entries[b].0));
        }
    }
}

/// What was stored under a key is found under it.
pub proof fn law_read_your_write<K: Ord + Clone, V>(entries: Seq<(K, V)>, key: K, value: V)
    requires
        lawful::<K>(),
        ascending(entries),
    ensures
        lookup(stored(entries, key, value), key) == Some(value),
{
    broadcast use group_order;

    law_order_kept(entries, key, value);
    lemma_rank_bounds(entries, key);
    let at = rank(entries, key) as int;
    if before(key, key) {
        assert(!before(key, key));
    }
    lemma_found(stored(entries, key, value), key, at);
}

/// To store something under one key changes nothing under another.
pub proof fn law_store_elsewhere<K: Ord + Clone, V>(
    entries: Seq<(K, V)>,
    key: K,
    value: V,
    other: K,
)
    requires
        lawful::<K>(),
        ascending(entries),
        !same(key, other),
    ensures
        lookup(stored(entries, key, value), other) == lookup(entries, other),
{
    broadcast use group_order;

    law_order_kept(entries, key, value);
    lemma_rank_bounds(entries, key);
    lemma_rank_bounds(entries, other);
    let at = rank(entries, key) as int;
    let more = stored(entries, key, value);
    if holds(entries, other) {
        let i = rank(entries, other) as int;
        if holds(entries, key) {
            lemma_found(more, other, i);
        } else if i < at {
            assert(more[i] == entries[i]);
            lemma_found(more, other, i);
        } else {
            assert(more[i + 1] == entries[i]);
            lemma_found(more, other, i + 1);
        }
    } else {
        assert forall|i: int| 0 <= i < more.len() implies !same((#[trigger] more[i]).0, other) by {
            if same(more[i].0, other) {
                let j = if holds(entries, key) || i < at { i } else { i - 1 };
                if holds(entries, key) || i != at {
                    assert(more[i].0 == entries[j].0);
                    lemma_found(entries, other, j);
                }
            }
        }
        lemma_missing(more, other);
    }
}

/// A key that was taken out is gone, and every other key keeps its value.
pub proof fn law_removed<K: Ord + Clone, V>(entries: Seq<(K, V)>, key: K, other: K)
    requires
        lawful::<K>(),
        ascending(entries),
    ensures
        lookup(removed(entries, key), key) is None,
        !same(key, other) ==> lookup(removed(entries, key), other) == lookup(entries, other),
{
    broadcast use group_order;

    lemma_rank_bounds(entries, key);
    let at = rank(entries, key) as int;
    let less = removed(entries, key);
    if holds(entries, key) {
        law_order_kept(entries, key, entries[at].1);
        assert forall|i: int| 0 <= i < less.len() implies !same((#[trigger] less[i]).0, key) by {
            if i < at {
                assert(before(entries[i].0, entries[at].0));
            } else {
                assert(less[i] == entries[i + 1]);
                assert(before(entries[at].0, entries[i + 1].0));
            }
        }
        lemma_missing(less, key);
        if !same(key, other) {
            lemma_rank_bounds(entries, other);
            if holds(entries, other) {
                let i = rank(entries, other) as int;
                if i < at {
                    assert(less[i] == entries[i]);
                    lemma_found(less, other, i);
                } else {
                    assert(i != at);
                    assert(less[i - 1] == entries[i]);
                    lemma_found(less, other, i - 1);
                }
            } else {
                assert forall|i: int| 0 <= i < less.len() implies !same(
                    (#[trigger] less[i]).0,
                    other,
                ) by {
                    if same(less[i].0, other) {
                        let j = if i < at { i } else { i + 1 };
                        assert(less[i] == entries[j]);
                        lemma_found(entries, other, j);
                    }
                }
                lemma_missing(less, other);
            }
        }
    }
}

/// A key that was not there is gone without a trace once it was stored and taken out again.
pub proof fn law_store_then_remove<K: Ord + Clone, V>(entries: Seq<(K, V)>, key: K, value: V)
    requires
        lawful::<K>(),
        ascending(entries),
        !holds(entries, key),
    ensures
        removed(stored(entries, key, value), key) == entries,
{
    broadcast use group_order;

    law_order_kept(entries, key, value);
    lemma_rank_bounds(entries, key);
    let at = rank(entries, key) as int;
    lemma_found(stored(entries, key, value), key, at);
    assert(removed(stored(entries, key, value), key) =~= entries);
}

/// To store under a key twice leaves what the second time stored: the keys stay as the first time
/// left them.
pub proof fn law_overwrite<K: Ord + Clone, V>(entries: Seq<(K, V)>, key: K, first: V, second: V)
    requires
        lawful::<K>(),
        ascending(entries),
    ensures
        stored(stored(entries, key, first), key, second) == stored(entries, key, second),
        holds(stored(entries, key, first), key),
{
    broadcast use group_order;

    law_order_kept(entries, key, first);
    lemma_rank_bounds(entries, key);
    let at = rank(entries, key) as int;
    lemma_found(stored(entries, key, first), key, at);
    assert(stored(stored(entries, key, first), key, second) =~= stored(entries, key, second));
}

/// A new key makes one entry more, an old one none; a key that is there takes one entry with it, and
/// one that is not takes none.
pub proof fn law_sizes<K: Ord + Clone, V>(entries: Seq<(K, V)>, key: K, value: V)
    ensures
        stored(entries, key, value).len() == entries.len() + (if holds(entries, key) {
            0int
        } else {
            1
        }),
        removed(entries, key).len() == entries.len() - (if holds(entries, key) {
            1int
        } else {
            0
        }),
{
    lemma_rank_bounds(entries, key);
}

/// Entries whose keys were replaced by clones are in key order and give the same answers.
pub proof fn law_recloned<K: Ord + Clone, V>(a: Seq<(K, V)>, b: Seq<(K, V)>, key: K)
    requires
        lawful::<K>(),
        ascending(a),
        recloned(a, b),
    ensures
        ascending(b),
        holds(b, key) == holds(a, key),
        rank(b, key) == rank(a, key),
        lookup(b, key) == lookup(a, key),
{
    broadcast use group_order;

    assert forall|i: int| 0 <= i < b.len() implies same(a[i].0, (#[trigger] b[i]).0) by {
        lemma_clone_same(a[i].0, b[i].0);
    }
    assert forall|i: int, j: int| 0 <= i < j < b.len() implies before(
        (#[trigger] b[i]).0,
        (#[trigger] b[j]).0,
    ) by {
        assert(before(a[i].0, a[j].0));
        assert(before(b[i].0, a[j].0));
    }
    lemma_rank_bounds(a, key);
    let at = rank(a, key) as int;
    assert forall|i: int| 0 <= i < at implies before((#[trigger] b[i]).0, key) by {
        assert(before(a[i].0, key));
    }
    if at < b.len() {
        assert(same(a[at].0, b[at].0));
    }
    lemma_rank(b, key, at);
}

/// After a delete the key is gone, and every other key keeps its value.
pub proof fn law_read_after_delete<K: Ord + Clone, V>(
    old_entries: Seq<(K, V)>,
    new_entries: Seq<(K, V)>,
    key: K,
    other: K,
)
    requires
        lawful::<K>(),
        ascending(old_entries),
        recloned(removed(old_entries, key), new_entries),
    ensures
        lookup(new_entries, key) is None,
        !same(key, other) ==> lookup(new_entries, other) == lookup(old_entries, other),
{
    let less = removed(old_entries, key);
    law_removed(old_entries, key, other);
    assert(ascending(less)) by {
        if holds(old_entries, key) {
            law_order_kept(old_entries, key, old_entries[rank(old_entries, key) as int].1);
        }
    }
    law_recloned(less, new_entries, key);
    law_recloned(less, new_entries, other);
}

/// Where a clone of a key is the key, replacing keys by clones changes nothing.
pub proof fn law_exact_clones<K: Ord + Clone, V>(a: Seq<(K, V)>, b: Seq<(K, V)>)
    requires
        forall|x: K, y: K| #[trigger] cloned(x, y) ==> x == y,
        recloned(a, b),
    ensures
        a == b,
{
    assert forall|i: int| 0 <= i < a.len() implies a[i] == b[i] by {
        assert(cloned(a[i].0, b[i].0));
    }
    assert(a =~= b);
}

/// The pages lead down the tree, each one a child of the one before it.
pub open spec fn leads_down<K, V>(
    nodes: Map<PageId, BPlusTreeNode<K, V>>,
    path: Seq<PageId>,
) -> bool {
    &&& path.len() > 0
    &&& forall|i: int, j: int|
        0 <= i && j == i + 1 && j < path.len() ==> nodes[#[trigger] path[i]].child_seq().contains(
            #[trigger] path[j],
        )
}

impl<K: Ord + Clone, V> Shape<K, V> {
    /// The way from the root down to a page.
    proof fn lemma_from_root(self, id: PageId) -> (path: Seq<PageId>)
        requires
            self.tree_ok(None),
            self.pages.contains_key(id),
        ensures
            self.root is Some,
            self.place[id].level <= self.place[self.root->0].level,
            leads_down(self.pages, path),
            path[0] == self.root->0,
            path.last() == id,
            path.len() == self.place[self.root->0].level - self.place[id].level + 1,
        decreases self.place[self.root->0].level - self.place[id].level,
    {
        self.lemma_page(None, id);
        if self.root == Some(id) {
            seq![id]
        } else {
            let q = self.place[id].up->0;
            self.lemma_page(None, q);
            let i = self.kids(q).index_of(id);
            assert(self.kids(q)[i] == id);
            assert(self.link_ok(None, q, i));
            let above = self.lemma_from_root(q);
            let path = above.push(id);
            assert forall|i: int, j: int| 0 <= i && j == i + 1 && j < path.len() implies self.pages[
            #[trigger] path[i]].child_seq().contains(#[trigger] path[j]) by {
                assert(path[i] == above[i]);
                if j < above.len() {
                    assert(path[j] == above[j]);
                }
            }
            path
        }
    }

    /// The last page of a way is as many levels below the first as there are steps, and its bounds
    /// are within those of the first.
    proof fn lemma_way(self, path: Seq<PageId>)
        requires
            lawful::<K>(),
            self.tree_ok(None),
            leads_down(self.pages, path),
            self.pages.contains_key(path[0]),
        ensures
            self.pages.contains_key(path.last()),
            self.place[path[0]].level + 1 == self.place[path.last()].level + path.len(),
            forall|k: K| #[trigger]
                floored(self.place[path.last()].lo, k) ==> floored(self.place[path[0]].lo, k),
            forall|k: K| #[trigger]
                capped(k, self.place[path.last()].hi) ==> capped(k, self.place[path[0]].hi),
        decreases path.len(),
    {
        if path.len() > 1 {
            broadcast use group_order;

            let above = path.drop_last();
            assert forall|i: int, j: int|
                0 <= i && j == i + 1 && j < above.len() implies self.pages[
            #[trigger] above[i]].child_seq().contains(#[trigger] above[j]) by {
                assert(above[i] == path[i] && above[j] == path[j]);
            }
            self.lemma_way(above);
            let q = above.last();
            let c = path.last();
            assert(path[path.len() - 2] == q && path[path.len() - 1] == c);
            assert(self.kids(q).contains(c));
            let i = self.kids(q).index_of(c);
            self.lemma_page(None, q);
            assert(self.link_ok(None, q, i));
            if i > 0 {
                assert(raised(self.place[q].lo, self.keys(q)[i - 1]));
            }
            if i < self.keys(q).len() {
                assert(capped(self.keys(q)[i], self.place[q].hi));
            }
            assert forall|k: K| #[trigger] floored(self.place[c].lo, k) implies floored(
                self.place[path[0]].lo,
                k,
            ) by {
                assert(floored(self.place[q].lo, k));
            }
            assert forall|k: K| #[trigger] capped(k, self.place[c].hi) implies capped(
                k,
                self.place[path[0]].hi,
            ) by {
                assert(capped(k, self.place[q].hi));
            }
        }
    }

    /// The pages of a way down from the root stand above each other.
    proof fn lemma_way_stack(self, path: Seq<PageId>)
        requires
            lawful::<K>(),
            self.tree_ok(None),
            leads_down(self.pages, path),
            self.root == Some(path[0]),
        ensures
            self.stack_ok(path.drop_last(), path.last()),
        decreases path.len(),
    {
        self.lemma_root(None);
        self.lemma_way(path);
        let above = path.drop_last();
        if path.len() > 1 {
            assert forall|i: int, j: int| 0 <= i && j == i + 1 && j < above.len() implies self.pages[
            #[trigger] above[i]].child_seq().contains(#[trigger] above[j]) by {
                assert(above[i] == path[i] && above[j] == path[j]);
            }
            self.lemma_way_stack(above);
            self.lemma_way(above);
            let q = above.last();
            let c = path.last();
            assert(path[path.len() - 2] == q && path[path.len() - 1] == c);
            assert(self.kids(q).contains(c));
            self.lemma_page(None, q);
            assert(self.link_ok(None, q, self.kids(q).index_of(c)));
            self.lemma_stack_down(above, c);
        } else {
            assert(above.push(path.last()) =~= path);
        }
    }
}

/// The entries of a tree are in strictly ascending key order.
pub proof fn law_entries_ascending<K: Ord + Clone, V>(tree: BPlusTree<K, V>)
    requires
        lawful::<K>(),
        tree.wf(),
    ensures
        ascending(tree.entries()),
{
    tree.shape().lemma_ascending();
}

/// No node holds more than the most keys allowed, and none but the root fewer than the fewest.
/// The root holds a key.
pub proof fn law_occupancy<K: Ord + Clone, V>(tree: BPlusTree<K, V>, id: PageId)
    requires
        tree.wf(),
        tree.nodes().contains_key(id),
    ensures
        tree.nodes()[id].key_seq().len() <= tree.max_keys(),
        tree.root_page() != Some(id) ==> tree.nodes()[id].key_seq().len() >= fewest(
            tree.max_keys(),
        ),
        tree.nodes()[id].key_seq().len() >= 1,
{
    assert(tree.shape().pages.contains_key(id));
}

/// A node that is one key short of the fewest, a neighbour that holds the fewest, and the separator
/// between them fit into one node.
pub proof fn law_merge_fits<K: Ord + Clone, V>(tree: BPlusTree<K, V>)
    requires
        tree.wf(),
    ensures
        (fewest(tree.max_keys()) - 1) + fewest(tree.max_keys()) + 1 <= tree.max_keys(),
        1 <= fewest(tree.max_keys()),
{
}

/// The keys of a node are in ascending order; a leaf has one value for each key, and an internal
/// node one child more than keys.
pub proof fn law_nodes<K: Ord + Clone, V>(tree: BPlusTree<K, V>, id: PageId)
    requires
        tree.wf(),
        tree.nodes().contains_key(id),
    ensures
        sorted(tree.nodes()[id].key_seq()),
        match tree.nodes()[id] {
            BPlusTreeNode::Leaf { keys, values, .. } => values@.len() == keys@.len(),
            BPlusTreeNode::Internal { keys, children } => children@.len() == keys@.len() + 1,
        },
{
    tree.shape().lemma_page(None, id);
}

/// Every page belongs to the tree: a way leads down to it from the root. So no page is left behind.
pub proof fn law_no_stray_pages<K: Ord + Clone, V>(tree: BPlusTree<K, V>, id: PageId) -> (path: Seq<
    PageId,
>)
    requires
        tree.wf(),
        tree.nodes().contains_key(id),
    ensures
        leads_down(tree.nodes(), path),
        tree.root_page() == Some(path[0]),
        path.last() == id,
{
    tree.shape().lemma_from_root(id)
}

/// The tree is balanced: every way from the root down to a leaf has as many pages as the tree has
/// levels.
pub proof fn law_balanced<K: Ord + Clone, V>(tree: BPlusTree<K, V>, path: Seq<PageId>)
    requires
        lawful::<K>(),
        tree.wf(),
        leads_down(tree.nodes(), path),
        tree.root_page() == Some(path[0]),
    ensures
        tree.nodes().contains_key(path.last()),
        tree.nodes()[path.last()] is Leaf <==> path.len() == tree.height(),
{
    let s = tree.shape();
    s.lemma_root(None);
    s.lemma_way(path);
    s.lemma_page(None, path.last());
}

/// Every node of a well-formed tree may be rebalanced: the pages above it are those on the way down
/// to it from the root.
pub proof fn law_may_rebalance<K: Ord + Clone, V>(tree: BPlusTree<K, V>, path: Seq<PageId>)
    requires
        lawful::<K>(),
        tree.wf(),
        leads_down(tree.nodes(), path),
        tree.root_page() == Some(path[0]),
    ensures
        tree.wanting(path.last(), path.drop_last()),
        path.len() > 1 ==> tree.hangs(path.last(), path.drop_last()),
{
    let s = tree.shape();
    s.lemma_root(None);
    s.lemma_way(path);
    s.lemma_way_stack(path);
    assert(s.pages.contains_key(path.last()));
    if path.len() > 1 {
        let up = path.drop_last();
        s.lemma_stack_up(up, path.last());
        s.lemma_page(None, path.last());
        s.lemma_page(None, up.last());
        assert(path[path.len() - 2] == up.last() && path[path.len() - 1] == path.last());
    }
}

/// The separators of a node part what is below it: every key under child `i`, at the end of
/// whatever way down, is at or after separator `i - 1` and before separator `i`.
pub proof fn law_separators<K: Ord + Clone, V>(
    tree: BPlusTree<K, V>,
    id: PageId,
    i: int,
    path: Seq<PageId>,
    j: int,
)
    requires
        lawful::<K>(),
        tree.wf(),
        tree.nodes().contains_key(id),
        0 <= i < tree.nodes()[id].child_seq().len(),
        leads_down(tree.nodes(), path),
        path[0] == tree.nodes()[id].child_seq()[i],
        0 <= j < tree.nodes()[path.last()].key_seq().len(),
    ensures
        i > 0 ==> !before(
            tree.nodes()[path.last()].key_seq()[j],
            tree.nodes()[id].key_seq()[i - 1],
        ),
        i < tree.nodes()[id].key_seq().len() ==> before(
            tree.nodes()[path.last()].key_seq()[j],
            tree.nodes()[id].key_seq()[i],
        ),
{
    broadcast use group_order;

    let s = tree.shape();
    let c = s.kids(id)[i];
    s.lemma_page(None, id);
    assert(s.link_ok(None, id, i));
    s.lemma_way(path);
    let below = path.last();
    s.lemma_page(None, below);
    let k = s.keys(below)[j];
    assert(floored(s.place[below].lo, k));
    assert(capped(k, s.place[below].hi));
    assert(floored(s.place[c].lo, k));
    assert(capped(k, s.place[c].hi));
}

/// The leaves hang together in key order: the entries of a leaf stand together among the entries of
/// the tree, and the leaf that it names as next holds those that follow; the last leaf names none.
pub proof fn law_leaf_chain<K: Ord + Clone, V>(tree: BPlusTree<K, V>, leaf: PageId) -> (at: int)
    requires
        tree.wf(),
        tree.nodes().contains_key(leaf),
        tree.nodes()[leaf] is Leaf,
    ensures
        ({
            let here = tree.nodes()[leaf].entry_seq();
            let end = at + here.len();
            &&& 0 <= at
            &&& end <= tree.entries().len()
            &&& tree.entries().subrange(at, end) == here
            &&& match tree.nodes()[leaf]->next {
                None => end == tree.entries().len(),
                Some(next) => {
                    let there = tree.nodes()[next].entry_seq();
                    &&& tree.nodes().contains_key(next)
                    &&& tree.nodes()[next] is Leaf
                    &&& end + there.len() <= tree.entries().len()
                    &&& tree.entries().subrange(end, end + there.len()) == there
                },
            }
        }),
{
    let s = tree.shape();
    s.lemma_start_of(leaf);
    let at = s.start_of(leaf);
    let here = s.pages[leaf].entry_seq();
    assert(tree.entries().subrange(at, at + here.len()) =~= here) by {
        assert forall|j: int| 0 <= j < here.len() implies tree.entries().subrange(
            at,
            at + here.len(),
        )[j] == here[j] by {
            assert(s.entries()[at + j] == here[j]);
        }
    }
    if let Some(next) = s.pages[leaf]->next {
        s.lemma_start_of(next);
        let end = at + here.len();
        let there = s.pages[next].entry_seq();
        assert(tree.entries().subrange(end, end + there.len()) =~= there) by {
            assert forall|j: int| 0 <= j < there.len() implies tree.entries().subrange(
                end,
                end + there.len(),
            )[j] == there[j] by {
                assert(s.entries()[s.start_of(next) + j] == there[j]);
            }
        }
    }
    at
}

/// A tree has no levels if and only if it has no entries.
pub proof fn law_height_of_empty<K: Ord + Clone, V>(tree: BPlusTree<K, V>)
    requires
        tree.wf(),
    ensures
        tree.height() == 0 <==> tree.entries().len() == 0,
        tree.height() == 0 <==> tree.root_page() is None,
{
    let s = tree.shape();
    if s.root is Some {
        s.lemma_root(None);
        let leaf = s.lemma_leaf_below(s.root->0);
        s.lemma_start_of(leaf);
    } else {
        s.lemma_empty();
    }
}

/// The child of `node` that `key` belongs to is `child`: the separators to the left of it are not
/// after the key, and those to the right of it are.
pub open spec fn steers<K: Ord, V>(node: BPlusTreeNode<K, V>, key: K, child: PageId) -> bool {
    exists|i: int|
        {
            &&& 0 <= i < node.child_seq().len()
            &&& #[trigger] node.child_seq()[i] == child
            &&& i > 0 ==> !before(key, node.key_seq()[i - 1])
            &&& i < node.key_seq().len() ==> before(key, node.key_seq()[i])
        }
}

/// `one` and `other` stand side by side in `kids`.
pub open spec fn beside(kids: Seq<PageId>, one: PageId, other: PageId) -> bool {
    exists|i: int, j: int|
        {
            &&& 0 <= i < j == i + 1 < kids.len()
            &&& #[trigger] kids[i] == one && #[trigger] kids[j] == other || kids[i] == other
                && kids[j] == one
        }
}

/// Each separator above the leaves has the rank of the first key of the leaf to its right.
pub open spec fn mirrored<K: Ord, V>(nodes: Map<PageId, BPlusTreeNode<K, V>>) -> bool {
    forall|q: PageId, i: int|
        #![trigger nodes[q].child_seq()[i]]
        nodes.contains_key(q) && 0 < i < nodes[q].child_seq().len()
            && nodes[nodes[q].child_seq()[i]] is Leaf ==> same(
            nodes[q].key_seq()[i - 1],
            nodes[nodes[q].child_seq()[i]].key_seq()[0],
        )
}

impl<K: Ord + Clone, V> Shape<K, V> {
    /// Where the way down to a key leads.
    proof fn lemma_route(self, id: PageId, key: K)
        requires
            lawful::<K>(),
            self.tree_ok(None),
            self.pages.contains_key(id),
            floored(self.place[id].lo, key),
            capped(key, self.place[id].hi),
        ensures
            ({
                let path = self.route(id, key);
                let leaf = path.last();
                &&& path.len() == self.place[id].level + 1
                &&& path[0] == id
                &&& self.held_leaf(leaf)
                &&& floored(self.place[leaf].lo, key)
                &&& capped(key, self.place[leaf].hi)
                &&& forall|i: int|
                    0 <= i < path.len() ==> self.pages.contains_key(#[trigger] path[i])
                        && self.place[path[i]].level + i == self.place[id].level
                &&& forall|i: int, j: int|
                    0 <= i && j == i + 1 && j < path.len() ==> {
                        &&& steers(self.pages[#[trigger] path[i]], key, #[trigger] path[j])
                        &&& self.kids(path[i]).contains(path[j])
                    }
            }),
        decreases self.place[id].level,
    {
        self.lemma_page(None, id);
        let path = self.route(id, key);
        if !self.is_leaf(id) {
            let t = turn(self.keys(id), key) as int;
            lemma_turn_parts(self.keys(id), key);
            assert(self.link_ok(None, id, t));
            let c = self.kids(id)[t];
            if t > 0 {
                assert(!before(key, self.keys(id)[t - 1]));
            }
            self.lemma_route(c, key);
            let rest = self.route(c, key);
            assert(path == seq![id] + rest);
            assert forall|i: int| 0 <= i < path.len() implies self.pages.contains_key(
                #[trigger] path[i],
            ) && self.place[path[i]].level + i == self.place[id].level by {
                if i > 0 {
                    assert(path[i] == rest[i - 1]);
                }
            }
            assert forall|i: int, j: int| 0 <= i && j == i + 1 && j < path.len() implies {
                &&& steers(self.pages[#[trigger] path[i]], key, #[trigger] path[j])
                &&& self.kids(path[i]).contains(path[j])
            } by {
                assert(path[j] == rest[j - 1]);
                if i > 0 {
                    assert(path[i] == rest[i - 1]);
                } else {
                    assert(self.pages[id].child_seq()[t] == c);
                }
            }
            assert(path.last() == rest.last());
        }
    }

    /// A way down goes from level to level, and so comes to no page twice.
    proof fn lemma_descends(self, path: Seq<PageId>)
        requires
            self.tree_ok(None),
            path.len() > 0,
            forall|i: int|
                0 <= i < path.len() ==> {
                    &&& self.pages.contains_key(#[trigger] path[i])
                    &&& self.place[path[i]].level + i == self.place[path[0]].level
                    &&& self.keys(path[i]).len() > 0
                },
            forall|i: int, j: int|
                0 <= i && j == i + 1 && j < path.len() ==> self.kids(
                    #[trigger] path[i],
                ).contains(#[trigger] path[j]),
        ensures
            self.descends(path),
    {
        assert forall|i: int, j: int| 0 <= i <= j < path.len() implies !self.kids(
            #[trigger] path[j],
        ).contains(#[trigger] path[i]) by {
            if self.kids(path[j]).contains(path[i]) {
                self.lemma_page(None, path[j]);
                assert(self.link_ok(None, path[j], self.kids(path[j]).index_of(path[i])));
            }
        }
        assert forall|i: int, j: int| 0 <= i && j == i + 1 && j < path.len() implies self.forks(
            #[trigger] path[i],
            #[trigger] path[j],
        ) by {
            self.lemma_page(None, path[i]);
        }
    }

    /// A key is in a tree if and only if it is in the leaf that the way down to it leads to.
    proof fn lemma_route_leaf(self, key: K)
        requires
            lawful::<K>(),
            self.tree_ok(None),
            self.chain_ok(),
            self.root is Some,
        ensures
            ({
                let leaf = self.route(self.root->0, key).last();
                &&& self.held_leaf(leaf)
                &&& holds(self.entries(), key) <==> holds(self.pages[leaf].entry_seq(), key)
            }),
    {
        self.lemma_root(None);
        self.lemma_page(None, self.root->0);
        self.lemma_route(self.root->0, key);
        let leaf = self.route(self.root->0, key).last();
        self.lemma_page(None, leaf);
        let i = self.lemma_leaf(leaf);
        let here = self.pages[leaf].entry_seq();
        let at = rank(here, key) as int;
        lemma_rank_bounds(here, key);
        assert forall|j: int| 0 <= j < at implies before(#[trigger] self.keys(leaf)[j], key) by {
            assert(before(here[j].0, key));
        }
        self.lemma_rank_in_leaf(i, key, at);
        self.lemma_rank_of_leaf(leaf, key, at);
    }

    /// All of a path splits if and only if every page of it is full.
    proof fn lemma_splits_all(self, max: nat, path: Seq<PageId>)
        requires
            forall|i: int| 0 <= i < path.len() ==> self.keys(#[trigger] path[i]).len() <= max,
        ensures
            self.splits(max, path) <= path.len() + 1,
            self.splits(max, path) == path.len() + 1 <==> forall|i: int|
                0 <= i < path.len() ==> self.keys(#[trigger] path[i]).len() == max,
        decreases path.len(),
    {
        if path.len() > 0 {
            let up = path.drop_last();
            assert(path[path.len() - 1] == path.last());
            assert forall|i: int| 0 <= i < up.len() implies self.keys(#[trigger] up[i]).len()
                <= max by {
                assert(up[i] == path[i]);
            }
            self.lemma_splits_all(max, up);
            if forall|i: int| 0 <= i < path.len() ==> self.keys(#[trigger] path[i]).len() == max {
                assert forall|i: int| 0 <= i < up.len() implies self.keys(#[trigger] up[i]).len()
                    == max by {
                    assert(up[i] == path[i]);
                }
            }
            if self.splits(max, path) == path.len() + 1 {
                assert forall|i: int| 0 <= i < path.len() implies self.keys(#[trigger] path[i]).len()
                    == max by {
                    if i < up.len() {
                        assert(up[i] == path[i]);
                    }
                }
            }
        }
    }

    /// Where a way ends at the first child of a page, the leaf is the leftmost one of all or
    /// has the separator to its left further up.
    pub proof fn lemma_uncovered(self, path: Seq<PageId>)
        requires
            self.tree_ok(None),
            path.len() >= 2,
            self.root == Some(path[0]),
            forall|i: int|
                0 <= i < path.len() ==> self.pages.contains_key(#[trigger] path[i]),
            forall|i: int, j: int|
                0 <= i && j == i + 1 && j < path.len() ==> self.kids(
                    #[trigger] path[i],
                ).contains(#[trigger] path[j]),
        ensures
            self.kids(path[path.len() - 2])[0] == path.last() && !(exists|i: int, j: int|
                0 <= i && j == i + 1 && j < path.len() - 1 && self.pages[
                #[trigger] path[i]].child_seq()[0] != #[trigger] path[j])
                ==> self.place[path.last()].lo is None,
    {
        if self.kids(path[path.len() - 2])[0] == path.last() && !(exists|i: int, j: int|
            0 <= i && j == i + 1 && j < path.len() - 1 && self.pages[#[trigger] path[i]].child_seq()[0]
                != #[trigger] path[j]) {
            assert(leads_left(self.pages, path)) by {
                assert forall|i: int, j: int| 0 <= i && j == i + 1 && j < path.len() implies heads(
                    self.pages[#[trigger] path[i]].child_seq(),
                    #[trigger] path[j],
                ) by {
                    assert(self.kids(path[i]).contains(path[j]));
                    assert(path[path.len() - 1] == path.last());
                    if j < path.len() - 1 {
                        assert(self.pages[path[i]].child_seq()[0] == path[j]);
                    }
                }
            }
            self.lemma_left_way(path);
            self.lemma_page(None, path[0]);
        }
    }

    /// Along first children the lower bound stays the same.
    proof fn lemma_left_way(self, path: Seq<PageId>)
        requires
            self.tree_ok(None),
            leads_left(self.pages, path),
            self.pages.contains_key(path[0]),
        ensures
            self.pages.contains_key(path.last()),
            self.place[path.last()].lo == self.place[path[0]].lo,
        decreases path.len(),
    {
        if path.len() > 1 {
            let above = path.drop_last();
            assert forall|i: int, j: int| 0 <= i && j == i + 1 && j < above.len() implies heads(
                self.pages[#[trigger] above[i]].child_seq(),
                #[trigger] above[j],
            ) by {
                assert(above[i] == path[i] && above[j] == path[j]);
            }
            self.lemma_left_way(above);
            let q = above.last();
            assert(path[path.len() - 2] == q && path[path.len() - 1] == path.last());
            self.lemma_page(None, q);
            assert(self.link_ok(None, q, 0));
        }
    }
}

/// `turn` parts the separators that a key passes from the others.
proof fn lemma_turn_parts<K: Ord>(keys: Seq<K>, key: K)
    ensures
        turn(keys, key) <= keys.len(),
        forall|i: int| 0 <= i < turn(keys, key) ==> !before(key, #[trigger] keys[i]),
        turn(keys, key) < keys.len() ==> before(key, keys[turn(keys, key) as int]),
    decreases keys.len(),
{
    if keys.len() > 0 {
        let rest = keys.drop_first();
        lemma_turn_parts(rest, key);
        assert forall|i: int| 0 <= i < turn(keys, key) implies !before(key, #[trigger] keys[i]) by {
            if i > 0 {
                assert(rest[i - 1] == keys[i]);
            }
        }
    }
}

/// In a well-formed tree no way down goes astray.
pub proof fn law_no_stray_way<K: Ord + Clone, V>(tree: BPlusTree<K, V>, key: K)
    requires
        tree.wf(),
    ensures
        !tree.misled(key),
        !tree.astray(),
{
    let s = tree.shape();
    if tree.misled(key) {
        let e = choose|e: TreeError| #[trigger] tree.misleads(key, e);
        let path = choose|path: Seq<PageId>| #[trigger] tree.strays(key, path, e);
        lemma_turns_held(tree, key, path, path.len() - 1);
        s.lemma_page(None, path.last());
        lemma_turn_parts(s.keys(path.last()), key);
    }
    if tree.astray() {
        let path = choose|path: Seq<PageId>| #[trigger] tree.strays_left(path);
        s.lemma_root(None);
        s.lemma_left_way(path);
        s.lemma_page(None, path.last());
    }
}

/// In a well-formed tree the pages on a way down are held.
proof fn lemma_turns_held<K: Ord + Clone, V>(
    tree: BPlusTree<K, V>,
    key: K,
    path: Seq<PageId>,
    n: int,
)
    requires
        tree.wf(),
        0 <= n < path.len(),
        tree.root_page() == Some(path[0]),
        forall|i: int, j: int|
            0 <= i && j == i + 1 && j < path.len() ==> points(
                tree.nodes(),
                #[trigger] path[i],
                key,
                #[trigger] path[j],
            ),
    ensures
        tree.nodes().contains_key(path[n]),
    decreases n,
{
    let s = tree.shape();
    if n == 0 {
        s.lemma_root(None);
    } else {
        lemma_turns_held(tree, key, path, n - 1);
        let q = path[n - 1];
        assert(points(tree.nodes(), q, key, path[n]));
        s.lemma_page(None, q);
        assert(s.link_ok(None, q, turn(s.keys(q), key) as int));
    }
}

/// Two ways down for one key go the same pages.
proof fn lemma_ways_agree<K: Ord + Clone, V>(
    tree: BPlusTree<K, V>,
    key: K,
    a: Seq<PageId>,
    b: Seq<PageId>,
    e: TreeError,
    f: TreeError,
    n: int,
)
    requires
        tree.strays(key, a, e),
        tree.strays(key, b, f),
        0 <= n < a.len(),
        n < b.len(),
    ensures
        a[n] == b[n],
    decreases n,
{
    if n > 0 {
        lemma_ways_agree(tree, key, a, b, e, f, n - 1);
        assert(points(tree.nodes(), a[n - 1], key, a[n]));
        assert(points(tree.nodes(), b[n - 1], key, b[n]));
    }
}

/// A way down that goes astray does so with one error.
pub proof fn law_one_error<K: Ord + Clone, V>(
    tree: BPlusTree<K, V>,
    key: K,
    e: TreeError,
    f: TreeError,
)
    requires
        tree.misleads(key, e),
        tree.misleads(key, f),
    ensures
        e == f,
{
    let a = choose|a: Seq<PageId>| #[trigger] tree.strays(key, a, e);
    let b = choose|b: Seq<PageId>| #[trigger] tree.strays(key, b, f);
    let n = if a.len() <= b.len() {
        a.len() - 1
    } else {
        b.len() - 1
    };
    lemma_ways_agree(tree, key, a, b, e, f, n);
    if a.len() < b.len() {
        assert(points(tree.nodes(), b[n], key, b[n + 1]));
    }
    if b.len() < a.len() {
        assert(points(tree.nodes(), a[n], key, a[n + 1]));
    }
}

/// Where the root page is unknown, every way down goes astray at once.
pub proof fn law_unknown_root<K: Ord + Clone, V>(tree: BPlusTree<K, V>, root: PageId, key: K)
    requires
        tree.root_page() == Some(root),
        !tree.nodes().contains_key(root),
    ensures
        tree.misleads(key, TreeError::UnknownPage),
        tree.misled(key),
        tree.astray(),
{
    assert(tree.strays(key, seq![root], TreeError::UnknownPage));
    assert(tree.strays_left(seq![root]));
}

/// In an aligned tree the separator to the left of a leaf, at whatever level it stands, has the rank
/// of the first key of the leaf: it is so for separator `i - 1` of a node and the leaf that the way along first
/// children leads to from child `i`.
pub proof fn law_separator_follows<K: Ord + Clone, V>(
    tree: BPlusTree<K, V>,
    id: PageId,
    i: int,
    path: Seq<PageId>,
)
    requires
        tree.wf(),
        tree.aligned(),
        tree.nodes().contains_key(id),
        0 < i < tree.nodes()[id].child_seq().len(),
        leads_left(tree.nodes(), path),
        path[0] == tree.nodes()[id].child_seq()[i],
        tree.nodes()[path.last()] is Leaf,
    ensures
        tree.nodes().contains_key(path.last()),
        tree.nodes()[path.last()].key_seq().len() > 0,
        same(tree.nodes()[id].key_seq()[i - 1], tree.nodes()[path.last()].key_seq()[0]),
{
    let s = tree.shape();
    s.lemma_page(None, id);
    assert(s.link_ok(None, id, i));
    s.lemma_left_way(path);
    assert(s.pages.contains_key(path.last()));
}

/// In an aligned tree a separator right above the leaves has the rank of the first key of the leaf to
/// its right.
pub proof fn law_mirrored<K: Ord + Clone, V>(tree: BPlusTree<K, V>)
    requires
        tree.wf(),
        tree.aligned(),
    ensures
        mirrored(tree.nodes()),
{
    let nodes = tree.nodes();
    assert forall|q: PageId, i: int|
        #![trigger nodes[q].child_seq()[i]]
        nodes.contains_key(q) && 0 < i < nodes[q].child_seq().len()
            && nodes[nodes[q].child_seq()[i]] is Leaf implies same(
        nodes[q].key_seq()[i - 1],
        nodes[nodes[q].child_seq()[i]].key_seq()[0],
    ) by {
        law_separator_follows(tree, q, i, seq![nodes[q].child_seq()[i]]);
    }
}

/// The way to a key starts at the root, goes down by the separators and ends at a leaf; the key is
/// in the tree if and only if it is in this leaf. It has as many pages as the tree has levels.
pub proof fn law_way<K: Ord + Clone, V>(tree: BPlusTree<K, V>, key: K)
    requires
        lawful::<K>(),
        tree.wf(),
    ensures
        tree.way(key).len() == tree.height(),
        tree.root_page() is Some ==> {
            let path = tree.way(key);
            let leaf = path.last();
            &&& path.len() > 0
            &&& tree.root_page() == Some(path[0])
            &&& leads_down(tree.nodes(), path)
            &&& forall|i: int, j: int|
                0 <= i && j == i + 1 && j < path.len() ==> steers(
                    tree.nodes()[#[trigger] path[i]],
                    key,
                    #[trigger] path[j],
                )
            &&& forall|i: int|
                0 <= i < path.len() ==> tree.nodes().contains_key(#[trigger] path[i])
            &&& tree.nodes()[leaf] is Leaf
            &&& holds(tree.entries(), key) <==> holds(tree.nodes()[leaf].entry_seq(), key)
        },
{
    let s = tree.shape();
    if s.root is Some {
        s.lemma_root(None);
        s.lemma_page(None, s.root->0);
        s.lemma_route(s.root->0, key);
        s.lemma_route_leaf(key);
    }
}

/// An insert makes the tree taller if and only if the tree was empty, or the key is new and every
/// node on the way to it is full.
pub proof fn law_growth<K: Ord + Clone, V>(tree: BPlusTree<K, V>, key: K)
    requires
        lawful::<K>(),
        tree.wf(),
    ensures
        tree.pages_needed(key) == tree.height() + 1 <==> {
            ||| tree.root_page() is None
            ||| !holds(tree.entries(), key) && forall|i: int|
                0 <= i < tree.way(key).len() ==> tree.nodes()[#[trigger] tree.way(
                    key,
                )[i]].key_seq().len() == tree.max_keys()
        },
{
    let s = tree.shape();
    let path = tree.way(key);
    law_way(tree, key);
    if s.root is Some {
        assert forall|i: int| 0 <= i < path.len() implies s.keys(#[trigger] path[i]).len()
            <= tree.max_keys() by {
            assert(s.pages.contains_key(path[i]));
        }
        s.lemma_splits_all(tree.max_keys(), path);
        if s.splits(tree.max_keys(), path) != path.len() + 1 {
            let i = choose|i: int|
                0 <= i < path.len() && s.keys(#[trigger] path[i]).len() != tree.max_keys();
            assert(tree.nodes()[tree.way(key)[i]].key_seq().len() != tree.max_keys());
        } else {
            assert forall|i: int| 0 <= i < path.len() implies tree.nodes()[#[trigger] tree.way(
                key,
            )[i]].key_seq().len() == tree.max_keys() by {
                assert(s.keys(path[i]).len() == tree.max_keys());
            }
        }
    } else {
        s.lemma_empty();
        lemma_rank_bounds(s.entries(), key);
    }
}

/// To store under a key that is there changes one value of one leaf, and nothing else.
pub proof fn law_overwrite_in_place<K: Ord + Clone, V>(
    tree: BPlusTree<K, V>,
    after: BPlusTree<K, V>,
    key: K,
    value: V,
) -> (at: int)
    requires
        lawful::<K>(),
        tree.wf(),
        holds(tree.entries(), key),
        tree.grew(&after, key, value),
    ensures
        after.root_page() == tree.root_page(),
        ({
            let leaf = tree.way(key).last();
            let was = tree.nodes()[leaf];
            let is = after.nodes()[leaf];
            &&& tree.nodes().contains_key(leaf)
            &&& after.nodes().contains_key(leaf)
            &&& was is Leaf
            &&& is is Leaf
            &&& 0 <= at < was.key_seq().len()
            &&& same(was.key_seq()[at], key)
            &&& is.key_seq() == was.key_seq()
            &&& is.value_seq() == was.value_seq().update(at, value)
            &&& is->next == was->next
            &&& forall|x: PageId| #[trigger]
                tree.nodes().contains_key(x) && x != leaf ==> after.nodes().contains_key(x)
                    && after.nodes()[x] == tree.nodes()[x]
        }),
{
    let s = tree.shape();
    if s.root is None {
        s.lemma_empty();
        lemma_rank_bounds(s.entries(), key);
    }
    s.lemma_route_leaf(key);
    let leaf = tree.way(key).last();
    let here = s.pages[leaf].entry_seq();
    let at = rank(here, key) as int;
    lemma_rank_bounds(here, key);
    assert(here[at].0 == s.keys(leaf)[at]);
    assert forall|x: PageId| #[trigger]
        tree.nodes().contains_key(x) && x != leaf implies after.nodes().contains_key(x)
        && after.nodes()[x] == tree.nodes()[x] by {
        assert(!seq![leaf].contains(x));
    }
    at
}

/// An insert leaves every page that is not on the way to the key as it was.
pub proof fn law_insert_elsewhere<K: Ord + Clone, V>(
    tree: BPlusTree<K, V>,
    after: BPlusTree<K, V>,
    key: K,
    value: V,
    id: PageId,
)
    requires
        lawful::<K>(),
        tree.wf(),
        tree.grew(&after, key, value),
        tree.nodes().contains_key(id),
        !tree.way(key).contains(id),
    ensures
        after.nodes().contains_key(id),
        after.nodes()[id] == tree.nodes()[id],
{
    let s = tree.shape();
    s.lemma_page(None, id);
    law_way(tree, key);
    let path = tree.way(key);
    assert(path[path.len() - 1] == path.last());
    assert(id != path.last());
    assert(!seq![path.last()].contains(id));
}

/// To delete a key that is not there changes no page.
pub proof fn law_miss<K: Ord + Clone, V>(
    tree: BPlusTree<K, V>,
    after: BPlusTree<K, V>,
    key: K,
)
    requires
        lawful::<K>(),
        tree.wf(),
        !holds(tree.entries(), key),
        tree.shrank(&after, key),
    ensures
        after.nodes() == tree.nodes(),
        after.root_page() == tree.root_page(),
{
    let s = tree.shape();
    if s.root is Some {
        s.lemma_route_leaf(key);
    }
}

/// A delete leaves every page as it was that is neither on the way to the key nor, under its parent,
/// next to a page on the way.
pub proof fn law_delete_elsewhere<K: Ord + Clone, V>(
    tree: BPlusTree<K, V>,
    after: BPlusTree<K, V>,
    key: K,
    id: PageId,
)
    requires
        lawful::<K>(),
        tree.wf(),
        tree.shrank(&after, key),
        tree.nodes().contains_key(id),
        !tree.way(key).contains(id),
        forall|i: int, j: int|
            0 <= i && j == i + 1 && j < tree.way(key).len() ==> !beside(
                tree.nodes()[#[trigger] tree.way(key)[i]].child_seq(),
                #[trigger] tree.way(key)[j],
                id,
            ),
    ensures
        after.nodes().contains_key(id),
        after.nodes()[id] == tree.nodes()[id],
{
    let s = tree.shape();
    let path = tree.way(key);
    s.lemma_page(None, id);
    s.lemma_page(None, s.root->0);
    s.lemma_route(s.root->0, key);
    let leaf = path.last();
    assert(path[path.len() - 1] == leaf);
    if !s.unchanged(after.shape()) {
        let at = rank(s.pages[leaf].entry_seq(), key) as int;
        let (m, n) = choose|m: Shape<K, V>, n: Shape<K, V>| #[trigger]
            s.plucked(m, leaf, at) && #[trigger] m.followed(n, path, s.keys(leaf)) && if path.len()
                == 1 && n.keys(leaf).len() == 0 {
                after.shape().root is None && after.shape().pages == n.pages.remove(leaf)
            } else {
                n.settled(after.shape(), fewest(tree.max_keys()), path)
            };
        assert(m.pages[id] == s.pages[id]);
        assert forall|i: int| 0 <= i < path.len() implies s.pages.contains_key(#[trigger] path[i])
            && s.place[path[i]].level + i == s.place[path[0]].level && s.keys(path[i]).len() > 0 by {
            assert(s.pages.contains_key(path[i]));
        }
        s.lemma_descends(path);
        assert(s.off_way(path, id)) by {
            assert forall|i: int, j: int| 0 <= i && j == i + 1 && j < path.len() implies {
                let cs = s.kids(#[trigger] path[i]);
                let at = cs.index_of(#[trigger] path[j]);
                &&& at > 0 ==> cs[at - 1] != id
                &&& at + 1 < cs.len() ==> cs[at + 1] != id
            } by {
                let cs = s.kids(path[i]);
                let at = cs.index_of(path[j]);
                assert(cs.contains(path[j]));
                assert(cs[at] == path[j]);
                assert(!beside(cs, path[j], id));
            }
        }
        s.lemma_delete_kept(m, n, after.shape(), fewest(tree.max_keys()), path, id);
    }
}

/// An insert takes at most one new page for each level and one for a new root, and none for a key
/// that is there: then no page number is asked for but those that were handed out.
pub proof fn law_pages_needed<K: Ord + Clone, V>(tree: BPlusTree<K, V>, key: K)
    requires
        lawful::<K>(),
        tree.wf(),
    ensures
        tree.pages_needed(key) <= tree.height() + 1,
        holds(tree.entries(), key) ==> tree.pages_needed(key) == 0,
        tree.pages_issued() <= PageId::MAX,
{
    let s = tree.shape();
    if s.root is Some {
        s.lemma_root(None);
        s.lemma_route_len(s.root->0, key);
        s.lemma_splits_bound(tree.max_keys(), s.route(s.root->0, key));
    }
}

/// A delete takes away at most one page for each level, and none for a key that is not there.
pub proof fn law_pages_freed<K: Ord + Clone, V>(tree: BPlusTree<K, V>, key: K)
    requires
        lawful::<K>(),
        tree.wf(),
    ensures
        tree.pages_freed(key) <= tree.height(),
        !holds(tree.entries(), key) ==> tree.pages_freed(key) == 0,
{
    let s = tree.shape();
    if s.root is Some {
        s.lemma_root(None);
        s.lemma_route_len(s.root->0, key);
        let path = s.route(s.root->0, key);
        s.lemma_folds_bound(
            fewest(tree.max_keys()),
            path,
            s.keys(path.last()).len() - 1,
        );
    } else {
        s.lemma_empty();
        lemma_rank_bounds(s.entries(), key);
    }
}

impl<K: Ord + Clone, V> Shape<K, V> {
    /// The way down to a leaf has as many pages as there are levels.
    proof fn lemma_route_len(self, id: PageId, key: K)
        requires
            lawful::<K>(),
            self.tree_ok(None),
            self.pages.contains_key(id),
        ensures
            self.route(id, key).len() == self.place[id].level + 1,
        decreases self.place[id].level,
    {
        self.lemma_page(None, id);
        if !self.is_leaf(id) {
            let t = turn(self.keys(id), key) as int;
            lemma_turn_parts(self.keys(id), key);
            assert(self.link_ok(None, id, t));
            self.lemma_route_len(self.kids(id)[t], key);
        }
    }

    /// Each page of a path splits once at most, and one root is added at most.
    proof fn lemma_splits_bound(self, max: nat, path: Seq<PageId>)
        ensures
            self.splits(max, path) <= path.len() + 1,
        decreases path.len(),
    {
        if path.len() > 0 {
            self.lemma_splits_bound(max, path.drop_last());
        }
    }

    /// Each page of a path goes away at most.
    proof fn lemma_folds_bound(self, min: nat, path: Seq<PageId>, n: int)
        requires
            path.len() > 0,
        ensures
            self.folds(min, path, n) <= path.len(),
        decreases path.len(),
    {
        if path.len() > 1 {
            self.lemma_folds_bound(
                min,
                path.drop_last(),
                self.keys(path[path.len() - 2]).len() - 1,
            );
        }
    }
}

/// What a range yields is what it covers, in ascending key order: no entry comes twice, none that
/// it covers is left out, and none that it does not cover comes.
pub proof fn law_chosen<K: Ord + Clone, V>(entries: Seq<(K, V)>, keep: spec_fn(K) -> bool)
    requires
        ascending(entries),
    ensures
        ascending(chosen(entries, keep)),
        forall|e: (K, V)| #[trigger]
            chosen(entries, keep).contains(e) <==> entries.contains(e) && keep(e.0),
    decreases entries.len(),
{
    let some = chosen(entries, keep);
    if entries.len() > 0 {
        let rest = entries.drop_last();
        let last = entries.last();
        assert(ascending(rest)) by {
            assert forall|i: int, j: int| 0 <= i < j < rest.len() implies before(
                (#[trigger] rest[i]).0,
                (#[trigger] rest[j]).0,
            ) by {
                assert(before(entries[i].0, entries[j].0));
            }
        }
        law_chosen(rest, keep);
        let fewer = chosen(rest, keep);
        reveal(Seq::filter);
        assert(some == if keep(last.0) {
            fewer.push(last)
        } else {
            fewer
        });
        assert forall|i: int, j: int| 0 <= i < j < some.len() implies before(
            (#[trigger] some[i]).0,
            (#[trigger] some[j]).0,
        ) by {
            if j < fewer.len() {
                assert(before(fewer[i].0, fewer[j].0));
            } else {
                assert(fewer.contains(fewer[i]));
                let a = rest.index_of(fewer[i]);
                assert(before(entries[a].0, entries[entries.len() - 1].0));
            }
        }
        assert forall|e: (K, V)| #[trigger] some.contains(e) <==> entries.contains(e) && keep(e.0) by {
            if some.contains(e) {
                let i = some.index_of(e);
                if i < fewer.len() {
                    assert(fewer.contains(fewer[i]));
                    assert(rest.contains(e));
                    assert(entries[rest.index_of(e)] == e);
                } else {
                    assert(entries[entries.len() - 1] == e);
                }
            }
            if entries.contains(e) && keep(e.0) {
                let i = entries.index_of(e);
                if i < rest.len() {
                    assert(rest[i] == e);
                    assert(rest.contains(e));
                    assert(fewer.contains(e));
                    let j = fewer.index_of(e);
                    assert(some[j] == e);
                } else {
                    assert(some[some.len() - 1] == e);
                }
            }
        }
    } else {
        reveal(Seq::filter);
    }
}

/// The full range yields everything.
pub proof fn law_full_range<K: Ord + Clone, V>(entries: Seq<(K, V)>, range: RangeFull)
    ensures
        chosen(entries, |k: K| range.covers(k)) == entries,
{
    lemma_chosen_all(entries, |k: K| range.covers(k));
}

/// What is before a key and what is not make up everything, in this order.
pub proof fn law_ranges_meet<K: Ord + Clone, V>(
    entries: Seq<(K, V)>,
    left: RangeTo<K>,
    right: RangeFrom<K>,
)
    requires
        lawful::<K>(),
        ascending(entries),
        left.end == right.start,
    ensures
        chosen(entries, |k: K| left.covers(k)) + chosen(entries, |k: K| right.covers(k)) == entries,
{
    broadcast use group_order;

    let key = left.end;
    let low = |k: K| left.covers(k);
    let high = |k: K| right.covers(k);
    lemma_rank_bounds(entries, key);
    let at = rank(entries, key) as int;
    let pre = entries.take(at);
    let post = entries.skip(at);
    assert(entries =~= pre + post);
    assert forall|i: int| 0 <= i < pre.len() implies before((#[trigger] pre[i]).0, key) by {
        assert(pre[i] == entries[i]);
    }
    assert forall|i: int| 0 <= i < post.len() implies !before((#[trigger] post[i]).0, key) by {
        assert(post[i] == entries[at + i]);
        if i > 0 {
            assert(before(entries[at].0, entries[at + i].0));
        }
    }
    Seq::filter_distributes_over_add(pre, post, |e: (K, V)| low(e.0));
    Seq::filter_distributes_over_add(pre, post, |e: (K, V)| high(e.0));
    lemma_chosen_all(pre, low);
    lemma_chosen_none(post, low);
    lemma_chosen_none(pre, high);
    lemma_chosen_all(post, high);
    assert(chosen(entries, low) =~= pre);
    assert(chosen(entries, high) =~= post);
}

/// A range that does not start before its end yields nothing.
pub proof fn law_inverted_range<K: Ord + Clone, V>(entries: Seq<(K, V)>, range: Range<K>)
    requires
        lawful::<K>(),
        !before(range.start, range.end),
    ensures
        chosen(entries, |k: K| range.covers(k)) == Seq::<(K, V)>::empty(),
{
    broadcast use group_order;

    assert forall|i: int| 0 <= i < entries.len() implies !range.covers((#[trigger] entries[i]).0) by {
        let k = entries[i].0;
        if before(k, range.end) && !before(k, range.start) {
            assert(before(range.start, range.end));
        }
    }
    lemma_chosen_none(entries, |k: K| range.covers(k));
}

} // verus!
