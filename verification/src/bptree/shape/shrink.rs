//! How the structure changes when nodes lose keys, borrow and merge.

use super::{
    capped, flat, floored, hi_at, lemma_flat_at, lemma_flat_one, lemma_flat_same, lo_at, raised,
    reparent, roomy, Place, Shape,
};
use crate::bptree::entries::{holds, recloned, removed, sorted};
use crate::bptree::{BPlusTreeNode, PageId};
use crate::order::{before, group_order, lawful, lemma_clone_same, same};
use vstd::prelude::*;

verus! {

impl<K: Ord + Clone, V> Shape<K, V> {
    /// Entry `pos` taken out of leaf `i`.
    #[verifier::rlimit(40)]
    pub proof fn lemma_leaf_remove(self, i: int, pos: int, key: K, node: BPlusTreeNode<K, V>)
        requires
            lawful::<K>(),
            self.tree_ok(None),
            self.chain_ok(),
            0 <= i < self.chain.len(),
            floored(self.place[self.chain[i]].lo, key),
            capped(key, self.place[self.chain[i]].hi),
            0 <= pos < self.keys(self.chain[i]).len(),
            forall|j: int| 0 <= j < pos ==> before(#[trigger] self.keys(self.chain[i])[j], key),
            same(key, self.keys(self.chain[i])[pos]),
            node is Leaf,
            node->next == self.pages[self.chain[i]]->next,
            node.key_seq() == self.keys(self.chain[i]).remove(pos),
            node.value_seq() == self.pages[self.chain[i]].value_seq().remove(pos),
        ensures
            self.write(self.chain[i], node).tree_ok(None),
            self.write(self.chain[i], node).chain_ok(),
            holds(self.entries(), key),
            self.write(self.chain[i], node).entries() == removed(self.entries(), key),
    {
        reveal(Shape::tree_ok);
        reveal(Shape::chain_ok);
        let id = self.chain[i];
        let pre = flat(self.pages, self.chain.take(i));
        let post = flat(self.pages, self.chain.skip(i + 1));
        assert(self.pages.contains_key(id));
        assert(self.node_ok(None, id));
        self.lemma_rank_in_leaf(i, key, pos);
        self.lemma_leaf_write(i, node);
        assert(node.entry_seq() =~= self.pages[id].entry_seq().remove(pos));
        assert(pre + node.entry_seq() + post =~= removed(self.entries(), key));
    }

    /// Leaves that are neighbours under one parent are neighbours in the chain.
    pub proof fn lemma_neighbours(self, q: PageId, j: int) -> (i: int)
        requires
            lawful::<K>(),
            self.tree_ok(None),
            self.chain_ok(),
            self.pages.contains_key(q),
            !self.is_leaf(q),
            0 <= j < self.keys(q).len(),
            self.is_leaf(self.kids(q)[j]),
            self.is_leaf(self.kids(q)[j + 1]),
        ensures
            0 <= i < self.chain.len() - 1,
            self.chain[i] == self.kids(q)[j],
            self.chain[i + 1] == self.kids(q)[j + 1],
    {
        reveal(Shape::tree_ok);
        reveal(Shape::chain_ok);
        let a = self.kids(q)[j];
        let b = self.kids(q)[j + 1];
        assert(self.node_ok(None, q));
        assert(self.link_ok(None, q, j));
        assert(self.link_ok(None, q, j + 1));
        assert(self.chain.contains(a) && self.chain.contains(b));
        let i = self.chain.index_of(a);
        let k = self.chain.index_of(b);
        let sep = self.keys(q)[j];
        assert(self.node_ok(None, a) && self.node_ok(None, b));
        assert(i + 1 < self.chain.len());
        assert(self.chain[i + 1] == b) by {
            broadcast use group_order;

            let c = self.chain[i + 1];
            assert(self.place[c].lo == Some(sep));
            assert(self.pages.contains_key(c));
            assert(self.node_ok(None, c));
            if k > i + 1 {
                self.lemma_chain_order(None, i + 1, k);
                assert(before(sep, self.place[c].hi->0));
            } else if k < i {
                self.lemma_chain_order(None, k, i);
                assert(before(sep, self.place[b].hi->0));
                assert(roomy(self.place[a].lo, Some(sep)));
            } else if k == i {
                assert(roomy(Some(sep), Some(sep)));
            }
        }
        i
    }

    /// The separator `j` of `q` moved, with other entries in the leaves on both sides of it.
    pub open spec fn shift(
        self,
        q: PageId,
        j: int,
        left: BPlusTreeNode<K, V>,
        right: BPlusTreeNode<K, V>,
        node: BPlusTreeNode<K, V>,
        sep: K,
    ) -> Self {
        let a = self.kids(q)[j];
        let b = self.kids(q)[j + 1];
        Shape {
            pages: self.pages.insert(a, left).insert(b, right).insert(q, node),
            place: self.place.insert(a, Place { hi: Some(sep), ..self.place[a] }).insert(
                b,
                Place { lo: Some(sep), ..self.place[b] },
            ),
            ..self
        }
    }

    /// The new separator parts the new entries of the two leaves.
    pub open spec fn shift_pre(
        self,
        q: PageId,
        j: int,
        left: BPlusTreeNode<K, V>,
        right: BPlusTreeNode<K, V>,
        node: BPlusTreeNode<K, V>,
        sep: K,
    ) -> bool {
        let a = self.kids(q)[j];
        let b = self.kids(q)[j + 1];
        &&& lawful::<K>()
        &&& self.tree_ok(None)
        &&& self.chain_ok()
        &&& self.pages.contains_key(q)
        &&& !self.is_leaf(q)
        &&& 0 <= j < self.keys(q).len()
        &&& self.is_leaf(a)
        &&& self.is_leaf(b)
        &&& left is Leaf
        &&& left->next == self.pages[a]->next
        &&& left.value_seq().len() == left.key_seq().len()
        &&& sorted(left.key_seq())
        &&& forall|x: int|
            0 <= x < left.key_seq().len() ==> floored(
                self.place[a].lo,
                #[trigger] left.key_seq()[x],
            ) && before(left.key_seq()[x], sep)
        &&& right is Leaf
        &&& right->next == self.pages[b]->next
        &&& right.value_seq().len() == right.key_seq().len()
        &&& sorted(right.key_seq())
        &&& forall|x: int|
            0 <= x < right.key_seq().len() ==> !before(#[trigger] right.key_seq()[x], sep)
                && capped(right.key_seq()[x], self.place[b].hi)
        &&& raised(self.place[a].lo, sep)
        &&& capped(sep, self.place[b].hi)
        &&& node is Internal
        &&& node.key_seq() == self.keys(q).update(j, sep)
        &&& node.child_seq() == self.kids(q)
    }

    /// Moving a separator between two leaves leaves the tree in order.
    proof fn lemma_shift_tree(
        self,
        q: PageId,
        j: int,
        left: BPlusTreeNode<K, V>,
        right: BPlusTreeNode<K, V>,
        node: BPlusTreeNode<K, V>,
        sep: K,
    )
        requires
            self.shift_pre(q, j, left, right, node, sep),
        ensures
            self.shift(q, j, left, right, node, sep).tree_ok(None),
    {
        reveal(Shape::tree_ok);
        reveal(Shape::chain_ok);
        let s2 = self.shift(q, j, left, right, node, sep);
        let a = self.kids(q)[j];
        let b = self.kids(q)[j + 1];
        let ks = self.keys(q);
        let p = self.place[q];
        assert(self.node_ok(None, q));
        assert(self.link_ok(None, q, j));
        assert(self.link_ok(None, q, j + 1));
        assert(self.node_ok(None, a) && self.node_ok(None, b));
        self.lemma_kids_distinct(None, q);
        assert(a != b && a != q && b != q);
        assert(s2.place.dom() =~= s2.pages.dom());
        assert(s2.node_ok(None, q)) by {
            assert(raised(p.lo, sep) && capped(sep, p.hi)) by {
                broadcast use group_order;

                if j > 0 {
                    assert(raised(p.lo, ks[j - 1]));
                }
                if j + 1 < ks.len() {
                    assert(capped(ks[j + 1], p.hi));
                }
            }
            assert forall|x: int, y: int| 0 <= x < y < node.key_seq().len() implies before(
                #[trigger] node.key_seq()[x],
                #[trigger] node.key_seq()[y],
            ) by {
                broadcast use group_order;

                if y == j && x < j - 1 {
                    assert(before(ks[x], ks[j - 1]));
                }
                if x == j && y > j + 1 {
                    assert(before(ks[j + 1], ks[y]));
                }
            }
            assert forall|x: int| 0 <= x < s2.kids(q).len() implies #[trigger] s2.link_ok(
                None,
                q,
                x,
            ) by {
                assert(self.link_ok(None, q, x));
            }
        }
        assert forall|x: PageId| #[trigger] s2.pages.contains_key(x) implies s2.node_ok(None, x) by {
            assert(self.pages.contains_key(x));
            assert(self.node_ok(None, x));
            if x != q && x != a && x != b {
                assert forall|y: int| 0 <= y < s2.kids(x).len() implies #[trigger] s2.link_ok(
                    None,
                    x,
                    y,
                ) by {
                    assert(self.link_ok(None, x, y));
                }
            }
        }
        assert forall|x: PageId| #[trigger] s2.pages.contains_key(x) implies s2.up_ok(None, x) by {
            assert(self.pages.contains_key(x));
            assert(self.up_ok(None, x));
        }
    }

    /// Moving a separator between two leaves leaves the chain in order.
    proof fn lemma_shift_chain(
        self,
        q: PageId,
        j: int,
        left: BPlusTreeNode<K, V>,
        right: BPlusTreeNode<K, V>,
        node: BPlusTreeNode<K, V>,
        sep: K,
        i: int,
    )
        requires
            self.shift_pre(q, j, left, right, node, sep),
            0 <= i < self.chain.len() - 1,
            self.chain[i] == self.kids(q)[j],
            self.chain[i + 1] == self.kids(q)[j + 1],
        ensures
            self.shift(q, j, left, right, node, sep).chain_ok(),
            self.entries() == flat(self.pages, self.chain.take(i)) + (
            self.pages[self.chain[i]].entry_seq() + self.pages[self.chain[i + 1]].entry_seq())
                + flat(self.pages, self.chain.skip(i + 2)),
            self.shift(q, j, left, right, node, sep).entries() == flat(
                self.pages,
                self.chain.take(i),
            ) + (left.entry_seq() + right.entry_seq()) + flat(self.pages, self.chain.skip(i + 2)),
    {
        reveal(Shape::tree_ok);
        reveal(Shape::chain_ok);
        let s2 = self.shift(q, j, left, right, node, sep);
        let c = self.chain;
        let a = c[i];
        let b = c[i + 1];
        assert(a != b && a != q && b != q);
        assert forall|x: PageId|
            s2.pages.contains_key(x) && #[trigger] s2.is_leaf(x) implies s2.chain.contains(x) by {
            assert(self.pages.contains_key(x) && self.is_leaf(x));
        }
        assert forall|x: int, y: int| 0 <= x && y == x + 1 && y < c.len() implies {
            &&& s2.pages[c[x]]->next == Some(c[y])
            &&& s2.place[#[trigger] c[x]].hi is Some
            &&& s2.place[c[x]].hi == s2.place[#[trigger] c[y]].lo
        } by {
            assert(self.pages.contains_key(c[x]) && self.is_leaf(c[x]));
        }
        assert(s2.place[c[0]].lo is None);
        assert(self.is_leaf(c[c.len() - 1]));
        assert(s2.place[c.last()].hi is None && s2.pages[c.last()]->next is None);
        self.lemma_flat_pair(c, i);
        s2.lemma_flat_pair(c, i);
        assert forall|x: int| 0 <= x < c.len() && x != i && x != i + 1 implies s2.pages[#[trigger] c[x]]
            == self.pages[c[x]] by {
            assert(self.is_leaf(c[x]));
        }
        lemma_flat_same(self.pages, s2.pages, c.take(i));
        lemma_flat_same(self.pages, s2.pages, c.skip(i + 2));
    }

    /// The entries of two neighbouring leaves stand between those to their left and right.
    pub proof fn lemma_flat_pair(self, c: Seq<PageId>, i: int)
        requires
            0 <= i < c.len() - 1,
        ensures
            flat(self.pages, c) == flat(self.pages, c.take(i)) + (self.pages[c[i]].entry_seq()
                + self.pages[c[i + 1]].entry_seq()) + flat(self.pages, c.skip(i + 2)),
    {
        let rest = c.skip(i + 1);
        lemma_flat_at(self.pages, c, i);
        lemma_flat_at(self.pages, rest, 0);
        assert(rest.take(0) =~= Seq::<PageId>::empty());
        assert(rest.skip(1) =~= c.skip(i + 2));
        assert(flat(self.pages, c) =~= flat(self.pages, c.take(i)) + (self.pages[c[i]].entry_seq()
            + self.pages[c[i + 1]].entry_seq()) + flat(self.pages, c.skip(i + 2)));
    }

    /// Moving a separator between two leaves leaves tree and chain in order.
    pub proof fn lemma_shift(
        self,
        q: PageId,
        j: int,
        left: BPlusTreeNode<K, V>,
        right: BPlusTreeNode<K, V>,
        node: BPlusTreeNode<K, V>,
        sep: K,
    )
        requires
            self.shift_pre(q, j, left, right, node, sep),
            recloned(
                self.pages[self.kids(q)[j]].entry_seq() + self.pages[self.kids(q)[j
                    + 1]].entry_seq(),
                left.entry_seq() + right.entry_seq(),
            ),
        ensures
            self.shift(q, j, left, right, node, sep).tree_ok(None),
            self.shift(q, j, left, right, node, sep).chain_ok(),
            recloned(self.entries(), self.shift(q, j, left, right, node, sep).entries()),
            self.pages[self.kids(q)[j]].entry_seq() + self.pages[self.kids(q)[j + 1]].entry_seq()
                == left.entry_seq() + right.entry_seq() ==> self.shift(
                q,
                j,
                left,
                right,
                node,
                sep,
            ).entries() == self.entries(),
    {
        reveal(Shape::tree_ok);
        reveal(Shape::chain_ok);
        let i = self.lemma_neighbours(q, j);
        self.lemma_shift_tree(q, j, left, right, node, sep);
        self.lemma_shift_chain(q, j, left, right, node, sep, i);
        let pre = flat(self.pages, self.chain.take(i));
        let post = flat(self.pages, self.chain.skip(i + 2));
        let old_mid = self.pages[self.kids(q)[j]].entry_seq() + self.pages[self.kids(q)[j
            + 1]].entry_seq();
        let new_mid = left.entry_seq() + right.entry_seq();
        let old_all = self.entries();
        let new_all = self.shift(q, j, left, right, node, sep).entries();
        assert forall|x: int| 0 <= x < new_all.len() implies {
            &&& (#[trigger] new_all[x]).1 == old_all[x].1
            &&& cloned(old_all[x].0, new_all[x].0)
        } by {
            if pre.len() <= x < pre.len() + new_mid.len() {
                assert(new_all[x] == new_mid[x - pre.len()]);
                assert(old_all[x] == old_mid[x - pre.len()]);
            }
        }
    }

    /// The last entry of leaf `j` of `q` moved to the front of leaf `j + 1`, under a clone `k2` of
    /// its key.
    pub proof fn lemma_lend_last(
        self,
        q: PageId,
        j: int,
        left: BPlusTreeNode<K, V>,
        right: BPlusTreeNode<K, V>,
        node: BPlusTreeNode<K, V>,
        k2: K,
    )
        requires
            lawful::<K>(),
            self.tree_ok(None),
            self.chain_ok(),
            self.pages.contains_key(q),
            !self.is_leaf(q),
            0 <= j < self.keys(q).len(),
            self.is_leaf(self.kids(q)[j]),
            self.is_leaf(self.kids(q)[j + 1]),
            self.keys(self.kids(q)[j]).len() > 1,
            cloned(self.keys(self.kids(q)[j]).last(), k2),
            left is Leaf,
            left->next == self.pages[self.kids(q)[j]]->next,
            left.key_seq() == self.keys(self.kids(q)[j]).drop_last(),
            left.value_seq() == self.pages[self.kids(q)[j]].value_seq().drop_last(),
            right is Leaf,
            right->next == self.pages[self.kids(q)[j + 1]]->next,
            right.key_seq() == self.keys(self.kids(q)[j + 1]).insert(0, k2),
            right.value_seq() == self.pages[self.kids(q)[j + 1]].value_seq().insert(
                0,
                self.pages[self.kids(q)[j]].value_seq().last(),
            ),
            node is Internal,
            node.key_seq() == self.keys(q).update(j, self.keys(self.kids(q)[j]).last()),
            node.child_seq() == self.kids(q),
        ensures
            ({
                let s2 = self.shift(q, j, left, right, node, self.keys(self.kids(q)[j]).last());
                &&& s2.tree_ok(None)
                &&& s2.chain_ok()
                &&& recloned(self.entries(), s2.entries())
            }),
    {
        reveal(Shape::tree_ok);
        reveal(Shape::chain_ok);
        let a = self.kids(q)[j];
        let b = self.kids(q)[j + 1];
        let ks = self.keys(a);
        let sep = ks.last();
        let n = ks.len() - 1;
        assert(self.node_ok(None, q));
        assert(self.link_ok(None, q, j));
        assert(self.link_ok(None, q, j + 1));
        assert(self.node_ok(None, a) && self.node_ok(None, b));
        lemma_clone_same(sep, k2);
        let old_sep = self.keys(q)[j];
        assert(ks[n] == sep);
        assert(floored(self.place[a].lo, ks[0]) && before(ks[0], ks[n]));
        assert(capped(ks[n], Some(old_sep)));
        assert(roomy(Some(old_sep), self.place[b].hi));
        assert forall|x: int| 0 <= x < left.key_seq().len() implies floored(
            self.place[a].lo,
            #[trigger] left.key_seq()[x],
        ) && before(left.key_seq()[x], sep) by {
            assert(left.key_seq()[x] == ks[x]);
            assert(before(ks[x], ks[n]));
        }
        assert forall|x: int| 0 <= x < right.key_seq().len() implies !before(
            #[trigger] right.key_seq()[x],
            sep,
        ) && capped(right.key_seq()[x], self.place[b].hi) && (x > 0 ==> before(
            k2,
            right.key_seq()[x],
        )) by {
            broadcast use group_order;

            if x > 0 {
                assert(right.key_seq()[x] == self.keys(b)[x - 1]);
                assert(floored(Some(old_sep), self.keys(b)[x - 1]));
            }
        }
        assert(sorted(right.key_seq())) by {
            assert forall|x: int, y: int| 0 <= x < y < right.key_seq().len() implies before(
                #[trigger] right.key_seq()[x],
                #[trigger] right.key_seq()[y],
            ) by {
                if x > 0 {
                    assert(before(self.keys(b)[x - 1], self.keys(b)[y - 1]));
                }
            }
        }
        assert(raised(self.place[a].lo, sep) && capped(sep, self.place[b].hi)) by {
            broadcast use group_order;

        }
        let old_mid = self.pages[a].entry_seq() + self.pages[b].entry_seq();
        let new_mid = left.entry_seq() + right.entry_seq();
        assert forall|x: int| 0 <= x < new_mid.len() implies {
            &&& (#[trigger] new_mid[x]).1 == old_mid[x].1
            &&& cloned(old_mid[x].0, new_mid[x].0)
        } by {
            if x == n {
                assert(new_mid[x] == right.entry_seq()[0]);
                assert(old_mid[x] == self.pages[a].entry_seq()[n]);
            } else if x > n {
                assert(new_mid[x] == right.entry_seq()[x - n]);
                assert(old_mid[x] == self.pages[b].entry_seq()[x - n - 1]);
            } else {
                assert(new_mid[x] == left.entry_seq()[x]);
            }
        }
        self.lemma_shift(q, j, left, right, node, sep);
    }

    /// The first entry of leaf `j + 1` of `q` moved to the back of leaf `j`; the separator `sep` is
    /// a clone of the first key that is left.
    pub proof fn lemma_lend_first(
        self,
        q: PageId,
        j: int,
        left: BPlusTreeNode<K, V>,
        right: BPlusTreeNode<K, V>,
        node: BPlusTreeNode<K, V>,
        sep: K,
    )
        requires
            lawful::<K>(),
            self.tree_ok(None),
            self.chain_ok(),
            self.pages.contains_key(q),
            !self.is_leaf(q),
            0 <= j < self.keys(q).len(),
            self.is_leaf(self.kids(q)[j]),
            self.is_leaf(self.kids(q)[j + 1]),
            self.keys(self.kids(q)[j + 1]).len() > 1,
            cloned(self.keys(self.kids(q)[j + 1])[1], sep),
            left is Leaf,
            left->next == self.pages[self.kids(q)[j]]->next,
            left.key_seq() == self.keys(self.kids(q)[j]).push(self.keys(self.kids(q)[j + 1])[0]),
            left.value_seq() == self.pages[self.kids(q)[j]].value_seq().push(
                self.pages[self.kids(q)[j + 1]].value_seq()[0],
            ),
            right is Leaf,
            right->next == self.pages[self.kids(q)[j + 1]]->next,
            right.key_seq() == self.keys(self.kids(q)[j + 1]).remove(0),
            right.value_seq() == self.pages[self.kids(q)[j + 1]].value_seq().remove(0),
            node is Internal,
            node.key_seq() == self.keys(q).update(j, sep),
            node.child_seq() == self.kids(q),
        ensures
            self.shift(q, j, left, right, node, sep).tree_ok(None),
            self.shift(q, j, left, right, node, sep).chain_ok(),
            self.shift(q, j, left, right, node, sep).entries() == self.entries(),
    {
        reveal(Shape::tree_ok);
        reveal(Shape::chain_ok);
        let a = self.kids(q)[j];
        let b = self.kids(q)[j + 1];
        let ks = self.keys(b);
        let n = self.keys(a).len();
        assert(self.node_ok(None, q));
        assert(self.link_ok(None, q, j));
        assert(self.link_ok(None, q, j + 1));
        assert(self.node_ok(None, a) && self.node_ok(None, b));
        lemma_clone_same(ks[1], sep);
        let old_sep = self.keys(q)[j];
        assert(floored(Some(old_sep), ks[0]) && before(ks[0], ks[1]));
        assert(capped(ks[1], self.place[b].hi));
        assert(roomy(self.place[a].lo, Some(old_sep)));
        assert forall|x: int| 0 <= x < left.key_seq().len() implies floored(
            self.place[a].lo,
            #[trigger] left.key_seq()[x],
        ) && before(left.key_seq()[x], sep) && (x < n ==> before(left.key_seq()[x], ks[0])) by {
            broadcast use group_order;

            if x < n {
                assert(left.key_seq()[x] == self.keys(a)[x]);
                assert(capped(self.keys(a)[x], Some(old_sep)));
            }
        }
        assert(sorted(left.key_seq())) by {
            assert forall|x: int, y: int| 0 <= x < y < left.key_seq().len() implies before(
                #[trigger] left.key_seq()[x],
                #[trigger] left.key_seq()[y],
            ) by {
                if y < n {
                    assert(before(self.keys(a)[x], self.keys(a)[y]));
                }
            }
        }
        assert forall|x: int| 0 <= x < right.key_seq().len() implies !before(
            #[trigger] right.key_seq()[x],
            sep,
        ) && capped(right.key_seq()[x], self.place[b].hi) by {
            broadcast use group_order;

            assert(right.key_seq()[x] == ks[x + 1]);
            if x > 0 {
                assert(before(ks[1], ks[x + 1]));
            }
        }
        assert(sorted(right.key_seq()));
        assert(raised(self.place[a].lo, sep) && capped(sep, self.place[b].hi)) by {
            broadcast use group_order;

        }
        assert(left.entry_seq() + right.entry_seq() =~= self.pages[a].entry_seq()
            + self.pages[b].entry_seq());
        self.lemma_shift(q, j, left, right, node, sep);
    }

    /// The separator `j` of `q` raised to the first key of the leaf to its right.
    pub proof fn lemma_mirror(self, q: PageId, j: int, node: BPlusTreeNode<K, V>, sep: K)
        requires
            lawful::<K>(),
            self.tree_ok(None),
            self.chain_ok(),
            self.pages.contains_key(q),
            !self.is_leaf(q),
            0 <= j < self.keys(q).len(),
            self.is_leaf(self.kids(q)[j + 1]),
            self.keys(self.kids(q)[j + 1]).len() > 0,
            cloned(self.keys(self.kids(q)[j + 1])[0], sep),
            node is Internal,
            node.key_seq() == self.keys(q).update(j, sep),
            node.child_seq() == self.kids(q),
        ensures
            ({
                let left = self.pages[self.kids(q)[j]];
                let right = self.pages[self.kids(q)[j + 1]];
                let s2 = self.shift(q, j, left, right, node, sep);
                &&& s2.tree_ok(None)
                &&& s2.chain_ok()
                &&& s2.entries() == self.entries()
                &&& s2.pages == self.pages.insert(q, node)
            }),
    {
        reveal(Shape::tree_ok);
        reveal(Shape::chain_ok);
        let a = self.kids(q)[j];
        let b = self.kids(q)[j + 1];
        let left = self.pages[a];
        let right = self.pages[b];
        let ks = self.keys(b);
        assert(self.node_ok(None, q));
        self.lemma_alike(q);
        assert(self.is_leaf(a));
        assert(self.link_ok(None, q, j));
        assert(self.link_ok(None, q, j + 1));
        assert(self.node_ok(None, a) && self.node_ok(None, b));
        lemma_clone_same(ks[0], sep);
        let old_sep = self.keys(q)[j];
        assert(floored(Some(old_sep), ks[0]) && capped(ks[0], self.place[b].hi));
        assert(roomy(self.place[a].lo, Some(old_sep)));
        assert forall|x: int| 0 <= x < left.key_seq().len() implies before(
            #[trigger] left.key_seq()[x],
            sep,
        ) by {
            broadcast use group_order;

            assert(capped(self.keys(a)[x], Some(old_sep)));
        }
        assert forall|x: int| 0 <= x < right.key_seq().len() implies !before(
            #[trigger] right.key_seq()[x],
            sep,
        ) by {
            broadcast use group_order;

            if x > 0 {
                assert(before(ks[0], ks[x]));
            }
        }
        assert(raised(self.place[a].lo, sep) && capped(sep, self.place[b].hi)) by {
            broadcast use group_order;

        }
        self.lemma_shift(q, j, left, right, node, sep);
        assert(self.shift(q, j, left, right, node, sep).pages =~= self.pages.insert(q, node));
    }

    /// Nothing left.
    pub open spec fn clear(self, id: PageId) -> Self {
        Shape {
            pages: self.pages.remove(id),
            place: self.place.remove(id),
            chain: Seq::empty(),
            root: None,
        }
    }

    /// A leaf that is the root is the only page.
    pub proof fn lemma_clear(self, id: PageId)
        requires
            self.tree_ok(None),
            self.chain_ok(),
            self.root == Some(id),
            self.is_leaf(id),
            self.keys(id).len() == 0,
        ensures
            self.clear(id).tree_ok(None),
            self.clear(id).chain_ok(),
            self.clear(id).entries() == self.entries(),
    {
        reveal(Shape::tree_ok);
        reveal(Shape::chain_ok);
        let s2 = self.clear(id);
        assert(self.node_ok(None, id));
        assert forall|x: PageId| #[trigger] self.pages.contains_key(x) implies x == id by {
            assert(self.up_ok(None, x));
        }
        assert(s2.pages.dom() =~= Set::<PageId>::empty());
        assert(s2.place.dom() =~= Set::<PageId>::empty());
        assert(self.chain.contains(id));
        assert forall|i: int| 0 <= i < self.chain.len() implies self.chain[i] == id by {
            assert(self.pages.contains_key(self.chain[i]));
        }
        assert(self.chain.len() == 1) by {
            if self.chain.len() > 1 {
                assert(self.chain[0] == self.chain[1]);
            }
        }
        assert(self.chain =~= seq![id]);
        lemma_flat_one(self.pages, id);
        assert(self.entries() =~= s2.entries());
    }

    /// Leaf `j + 1` of `q` folded into leaf `j`.
    pub open spec fn fold(
        self,
        q: PageId,
        j: int,
        left: BPlusTreeNode<K, V>,
        node: BPlusTreeNode<K, V>,
        i: int,
    ) -> Self {
        let a = self.kids(q)[j];
        let b = self.kids(q)[j + 1];
        Shape {
            pages: self.pages.insert(a, left).insert(q, node).remove(b),
            place: self.place.insert(a, Place { hi: self.place[b].hi, ..self.place[a] }).remove(b),
            chain: self.chain.remove(i + 1),
            root: self.root,
        }
    }

    /// The left leaf holds the entries of both, and the parent has lost the right one.
    pub open spec fn fold_pre(
        self,
        q: PageId,
        j: int,
        left: BPlusTreeNode<K, V>,
        node: BPlusTreeNode<K, V>,
        i: int,
    ) -> bool {
        let a = self.kids(q)[j];
        let b = self.kids(q)[j + 1];
        &&& lawful::<K>()
        &&& self.tree_ok(None)
        &&& self.chain_ok()
        &&& self.pages.contains_key(q)
        &&& !self.is_leaf(q)
        &&& 0 <= j < self.keys(q).len()
        &&& self.is_leaf(a)
        &&& self.is_leaf(b)
        &&& left is Leaf
        &&& left->next == self.pages[b]->next
        &&& left.key_seq() == self.keys(a) + self.keys(b)
        &&& left.value_seq() == self.pages[a].value_seq() + self.pages[b].value_seq()
        &&& node is Internal
        &&& node.key_seq() == self.keys(q).remove(j)
        &&& node.child_seq() == self.kids(q).remove(j + 1)
        &&& 0 <= i < self.chain.len() - 1
        &&& self.chain[i] == a
        &&& self.chain[i + 1] == b
    }

    /// Folding a leaf into its left neighbour leaves the tree in order.
    #[verifier::rlimit(40)]
    proof fn lemma_fold_tree(
        self,
        q: PageId,
        j: int,
        left: BPlusTreeNode<K, V>,
        node: BPlusTreeNode<K, V>,
        i: int,
    )
        requires
            self.fold_pre(q, j, left, node, i),
        ensures
            self.fold(q, j, left, node, i).tree_ok(None),
    {
        reveal(Shape::tree_ok);
        reveal(Shape::chain_ok);
        let s2 = self.fold(q, j, left, node, i);
        let a = self.kids(q)[j];
        let b = self.kids(q)[j + 1];
        let ks = self.keys(q);
        assert(self.node_ok(None, q));
        assert(self.link_ok(None, q, j));
        assert(self.link_ok(None, q, j + 1));
        assert(self.node_ok(None, a) && self.node_ok(None, b));
        self.lemma_kids_distinct(None, q);
        assert(a != b && a != q && b != q);
        assert(self.up_ok(None, b));
        assert(s2.place.dom() =~= s2.pages.dom());
        assert(s2.node_ok(None, a)) by {
            broadcast use group_order;

            assert forall|x: int| 0 <= x < left.key_seq().len() implies floored(
                self.place[a].lo,
                #[trigger] left.key_seq()[x],
            ) && capped(left.key_seq()[x], self.place[b].hi) by {
                if x < self.keys(a).len() {
                    assert(left.key_seq()[x] == self.keys(a)[x]);
                } else {
                    assert(left.key_seq()[x] == self.keys(b)[x - self.keys(a).len()]);
                }
            }
            assert forall|x: int, y: int| 0 <= x < y < left.key_seq().len() implies before(
                #[trigger] left.key_seq()[x],
                #[trigger] left.key_seq()[y],
            ) by {
                if x < self.keys(a).len() && y >= self.keys(a).len() {
                    assert(capped(self.keys(a)[x], Some(ks[j])));
                    assert(floored(Some(ks[j]), self.keys(b)[y - self.keys(a).len()]));
                }
            }
        }
        assert(s2.node_ok(None, q)) by {
            assert forall|x: int| 0 <= x < s2.kids(q).len() implies #[trigger] s2.link_ok(
                None,
                q,
                x,
            ) by {
                if x <= j {
                    assert(self.link_ok(None, q, x));
                } else {
                    assert(self.link_ok(None, q, x + 1));
                }
            }
        }
        assert forall|x: PageId| #[trigger] s2.pages.contains_key(x) implies s2.node_ok(None, x) by {
            assert(self.pages.contains_key(x));
            assert(self.node_ok(None, x));
            if x != q && x != a {
                assert forall|y: int| 0 <= y < s2.kids(x).len() implies #[trigger] s2.link_ok(
                    None,
                    x,
                    y,
                ) by {
                    assert(self.link_ok(None, x, y));
                }
            }
        }
        assert forall|x: PageId| #[trigger] s2.pages.contains_key(x) implies s2.up_ok(None, x) by {
            assert(self.pages.contains_key(x));
            assert(self.up_ok(None, x));
            if self.place[x].up == Some(q) && self.root != Some(x) {
                let y = self.kids(q).index_of(x);
                assert(s2.kids(q)[if y <= j {
                    y
                } else {
                    y - 1
                }] == x);
            }
        }
    }

    /// Folding a leaf into its left neighbour leaves the chain in order.
    #[verifier::rlimit(40)]
    proof fn lemma_fold_chain(
        self,
        q: PageId,
        j: int,
        left: BPlusTreeNode<K, V>,
        node: BPlusTreeNode<K, V>,
        i: int,
    )
        requires
            self.fold_pre(q, j, left, node, i),
        ensures
            self.fold(q, j, left, node, i).chain_ok(),
    {
        reveal(Shape::tree_ok);
        reveal(Shape::chain_ok);
        let s2 = self.fold(q, j, left, node, i);
        let c = self.chain;
        let c2 = s2.chain;
        let a = c[i];
        let b = c[i + 1];
        assert(self.node_ok(None, q));
        assert(self.link_ok(None, q, j));
        assert(self.link_ok(None, q, j + 1));
        assert(self.node_ok(None, a) && self.node_ok(None, b));
        assert(a != b && a != q && b != q);
        assert forall|x: int| 0 <= x < c2.len() implies c2[x] == (if x <= i {
            c[x]
        } else {
            c[x + 1]
        }) by {}
        assert forall|x: int| 0 <= x < c2.len() implies s2.pages.contains_key(#[trigger] c2[x])
            && s2.is_leaf(c2[x]) && c2[x] != b && (c2[x] != a ==> s2.pages[c2[x]]
            == self.pages[c2[x]] && s2.place[c2[x]] == self.place[c2[x]]) by {
            assert(self.pages.contains_key(c[x]) && self.is_leaf(c[x]));
            if x > i {
                assert(self.pages.contains_key(c[x + 1]) && self.is_leaf(c[x + 1]));
            }
        }
        assert forall|x: PageId|
            s2.pages.contains_key(x) && #[trigger] s2.is_leaf(x) implies c2.contains(x) by {
            assert(self.pages.contains_key(x) && self.is_leaf(x));
            let y = c.index_of(x);
            assert(c2[if y <= i {
                y
            } else {
                y - 1
            }] == x);
        }
        assert forall|x: int, y: int| 0 <= x && y == x + 1 && y < c2.len() implies {
            &&& s2.pages[c2[x]]->next == Some(c2[y])
            &&& s2.place[#[trigger] c2[x]].hi is Some
            &&& s2.place[c2[x]].hi == s2.place[#[trigger] c2[y]].lo
        } by {
            if x < i {
                assert(c2[x] == c[x] && c2[y] == c[y]);
            } else if x == i {
                assert(c2[y] == c[i + 2]);
                assert(self.place[c[i + 1]].hi == self.place[c[i + 2]].lo);
            } else {
                assert(c2[x] == c[x + 1] && c2[y] == c[y + 1]);
            }
        }
        assert(c2[0] == c[0]);
        if i + 2 < c.len() {
            assert(c2.last() == c.last());
        } else {
            assert(c2.last() == a);
            assert(c.last() == b);
        }
    }

    /// Folding a leaf into its left neighbour keeps the entries.
    #[verifier::rlimit(40)]
    proof fn lemma_fold_entries(
        self,
        q: PageId,
        j: int,
        left: BPlusTreeNode<K, V>,
        node: BPlusTreeNode<K, V>,
        i: int,
    )
        requires
            self.fold_pre(q, j, left, node, i),
        ensures
            self.fold(q, j, left, node, i).entries() == self.entries(),
    {
        reveal(Shape::chain_ok);
        let s2 = self.fold(q, j, left, node, i);
        let c = self.chain;
        let c2 = s2.chain;
        let a = c[i];
        let b = c[i + 1];
        self.lemma_chain_at(i);
        self.lemma_chain_at(i + 1);
        self.lemma_page(None, a);
        self.lemma_page(None, b);
        assert(a != b && a != q && b != q);
        assert forall|x: int| 0 <= x < c2.len() implies c2[x] == (if x <= i {
            c[x]
        } else {
            c[x + 1]
        }) by {}
        assert forall|x: int| 0 <= x < c2.len() implies s2.pages.contains_key(#[trigger] c2[x])
            && s2.is_leaf(c2[x]) && c2[x] != b && (c2[x] != a ==> s2.pages[c2[x]]
            == self.pages[c2[x]] && s2.place[c2[x]] == self.place[c2[x]]) by {
            assert(self.pages.contains_key(c[x]) && self.is_leaf(c[x]));
            if x > i {
                assert(self.pages.contains_key(c[x + 1]) && self.is_leaf(c[x + 1]));
            }
        }
        self.lemma_flat_pair(c, i);
        lemma_flat_at(s2.pages, c2, i);
        assert(c2.take(i) =~= c.take(i));
        assert(c2.skip(i + 1) =~= c.skip(i + 2));
        assert forall|x: int| 0 <= x < c.take(i).len() implies self.pages[#[trigger] c.take(i)[x]].entry_seq()
            == s2.pages[c.take(i)[x]].entry_seq() by {
            assert(c2[x] == c[x]);
        }
        assert forall|x: int| 0 <= x < c.skip(i + 2).len() implies self.pages[#[trigger] c.skip(
            i + 2,
        )[x]].entry_seq() == s2.pages[c.skip(i + 2)[x]].entry_seq() by {
            assert(c2[i + 1 + x] == c[i + 2 + x]);
        }
        lemma_flat_same(self.pages, s2.pages, c.take(i));
        lemma_flat_same(self.pages, s2.pages, c.skip(i + 2));
        assert(left.entry_seq() =~= self.pages[a].entry_seq() + self.pages[b].entry_seq());
    }

    /// Folding a leaf into its left neighbour leaves tree, chain and entries in order.
    pub proof fn lemma_fold(
        self,
        q: PageId,
        j: int,
        left: BPlusTreeNode<K, V>,
        node: BPlusTreeNode<K, V>,
        i: int,
    )
        requires
            self.fold_pre(q, j, left, node, i),
        ensures
            self.fold(q, j, left, node, i).tree_ok(None),
            self.fold(q, j, left, node, i).chain_ok(),
            self.fold(q, j, left, node, i).entries() == self.entries(),
    {
        reveal(Shape::tree_ok);
        reveal(Shape::chain_ok);
        self.lemma_fold_tree(q, j, left, node, i);
        self.lemma_fold_chain(q, j, left, node, i);
        self.lemma_fold_entries(q, j, left, node, i);
    }

    /// The keys of the internal nodes `j` and `j + 1` of `q`, with the separator between them.
    pub open spec fn joined_keys(self, q: PageId, j: int) -> Seq<K> {
        self.keys(self.kids(q)[j]).push(self.keys(q)[j]) + self.keys(self.kids(q)[j + 1])
    }

    /// The children of the internal nodes `j` and `j + 1` of `q`.
    pub open spec fn joined_kids(self, q: PageId, j: int) -> Seq<PageId> {
        self.kids(self.kids(q)[j]) + self.kids(self.kids(q)[j + 1])
    }

    /// Two internal nodes and the separator between them read as one node.
    pub proof fn lemma_joined(self, q: PageId, j: int)
        requires
            lawful::<K>(),
            self.tree_ok(None),
            self.pages.contains_key(q),
            !self.is_leaf(q),
            0 <= j < self.keys(q).len(),
            !self.is_leaf(self.kids(q)[j]),
            !self.is_leaf(self.kids(q)[j + 1]),
        ensures
            ({
                let a = self.kids(q)[j];
                let b = self.kids(q)[j + 1];
                let xs = self.joined_keys(q, j);
                let cs = self.joined_kids(q, j);
                let lo = self.place[a].lo;
                let hi = self.place[b].hi;
                &&& sorted(xs)
                &&& cs.len() == xs.len() + 1
                &&& cs.no_duplicates()
                &&& forall|x: int|
                    0 <= x < xs.len() ==> raised(lo, #[trigger] xs[x]) && capped(xs[x], hi)
                &&& forall|x: int|
                    0 <= x < cs.len() ==> {
                        let c = #[trigger] cs[x];
                        &&& self.pages.contains_key(c)
                        &&& self.place[c].level + 1 == self.place[a].level
                        &&& self.place[c].lo == lo_at(lo, xs, x)
                        &&& self.place[c].hi == hi_at(hi, xs, x)
                        &&& self.place[c].up == Some(
                            if x < self.kids(a).len() {
                                a
                            } else {
                                b
                            },
                        )
                    }
            }),
    {
        reveal(Shape::tree_ok);
        let a = self.kids(q)[j];
        let b = self.kids(q)[j + 1];
        let xs = self.joined_keys(q, j);
        let cs = self.joined_kids(q, j);
        let lo = self.place[a].lo;
        let hi = self.place[b].hi;
        let sep = self.keys(q)[j];
        let n = self.keys(a).len();
        assert(self.node_ok(None, q));
        assert(self.link_ok(None, q, j));
        assert(self.link_ok(None, q, j + 1));
        assert(self.node_ok(None, a) && self.node_ok(None, b));
        self.lemma_kids_distinct(None, q);
        assert(roomy(lo, Some(sep)) && roomy(Some(sep), hi));
        assert forall|x: int| 0 <= x < xs.len() implies {
            &&& #[trigger] xs[x] == (if x < n {
                self.keys(a)[x]
            } else if x == n {
                sep
            } else {
                self.keys(b)[x - n - 1]
            })
            &&& x < n ==> raised(lo, xs[x]) && before(xs[x], sep)
            &&& x > n ==> before(sep, xs[x]) && capped(xs[x], hi)
        } by {
            if x < n {
                assert(capped(self.keys(a)[x], Some(sep)));
            } else if x > n {
                assert(raised(Some(sep), self.keys(b)[x - n - 1]));
            }
        }
        assert forall|x: int| 0 <= x < xs.len() implies raised(lo, #[trigger] xs[x]) && capped(
            xs[x],
            hi,
        ) by {
            broadcast use group_order;

        }
        assert forall|x: int, y: int| 0 <= x < y < xs.len() implies before(
            #[trigger] xs[x],
            #[trigger] xs[y],
        ) by {
            if x < n && y > n {
                broadcast use group_order;

                assert(before(xs[x], sep) && before(sep, xs[y]));
            }
        }
        assert forall|x: int| 0 <= x < cs.len() implies {
            let c = #[trigger] cs[x];
            &&& self.pages.contains_key(c)
            &&& self.place[c].level + 1 == self.place[a].level
            &&& self.place[c].lo == lo_at(lo, xs, x)
            &&& self.place[c].hi == hi_at(hi, xs, x)
            &&& self.place[c].up == Some(
                if x < self.kids(a).len() {
                    a
                } else {
                    b
                },
            )
        } by {
            if x <= n {
                assert(cs[x] == self.kids(a)[x]);
                assert(self.link_ok(None, a, x));
            } else {
                assert(cs[x] == self.kids(b)[x - n - 1]);
                assert(self.link_ok(None, b, x - n - 1));
            }
        }
        self.lemma_kids_distinct(None, a);
        self.lemma_kids_distinct(None, b);
        assert forall|x: int, y: int| 0 <= x < cs.len() && 0 <= y < cs.len() && x != y implies cs[x]
            != cs[y] by {
            if x <= n && y <= n {
                assert(cs[x] == self.kids(a)[x] && cs[y] == self.kids(a)[y]);
            } else if x > n && y > n {
                assert(cs[x] == self.kids(b)[x - n - 1] && cs[y] == self.kids(b)[y - n - 1]);
            }
        }
    }

    /// Keys and children of the internal nodes `j` and `j + 1` of `q` rotated through the
    /// separator between them.
    pub open spec fn rotate(
        self,
        q: PageId,
        j: int,
        left: BPlusTreeNode<K, V>,
        right: BPlusTreeNode<K, V>,
        node: BPlusTreeNode<K, V>,
        sep: K,
    ) -> Self {
        let a = self.kids(q)[j];
        let b = self.kids(q)[j + 1];
        Shape {
            pages: self.pages.insert(a, left).insert(b, right).insert(q, node),
            place: reparent(reparent(self.place, left.child_seq(), a), right.child_seq(), b).insert(
                a,
                Place { hi: Some(sep), ..self.place[a] },
            ).insert(b, Place { lo: Some(sep), ..self.place[b] }),
            ..self
        }
    }

    /// Rotating keys and children through a separator leaves tree, chain and entries in order.
    #[verifier::rlimit(40)]
    pub proof fn lemma_rotate(
        self,
        q: PageId,
        j: int,
        left: BPlusTreeNode<K, V>,
        right: BPlusTreeNode<K, V>,
        node: BPlusTreeNode<K, V>,
        sep: K,
    )
        requires
            lawful::<K>(),
            self.tree_ok(None),
            self.chain_ok(),
            self.pages.contains_key(q),
            !self.is_leaf(q),
            0 <= j < self.keys(q).len(),
            !self.is_leaf(self.kids(q)[j]),
            !self.is_leaf(self.kids(q)[j + 1]),
            left is Internal,
            right is Internal,
            left.child_seq().len() == left.key_seq().len() + 1,
            left.key_seq().push(sep) + right.key_seq() == self.joined_keys(q, j),
            left.child_seq() + right.child_seq() == self.joined_kids(q, j),
            node is Internal,
            node.key_seq() == self.keys(q).update(j, sep),
            node.child_seq() == self.kids(q),
        ensures
            self.rotate(q, j, left, right, node, sep).tree_ok(None),
            self.rotate(q, j, left, right, node, sep).chain_ok(),
            self.rotate(q, j, left, right, node, sep).entries() == self.entries(),
    {
        reveal(Shape::tree_ok);
        reveal(Shape::chain_ok);
        let s2 = self.rotate(q, j, left, right, node, sep);
        let a = self.kids(q)[j];
        let b = self.kids(q)[j + 1];
        let ks = self.keys(q);
        let p = self.place[q];
        assert(self.node_ok(None, q));
        assert(self.link_ok(None, q, j));
        assert(self.link_ok(None, q, j + 1));
        assert(self.node_ok(None, a) && self.node_ok(None, b));
        self.lemma_kids_distinct(None, q);
        assert(a != b && a != q && b != q);
        assert(s2.place.dom() =~= s2.pages.dom());
        self.lemma_joined(q, j);
        let xs = self.joined_keys(q, j);
        let cs = self.joined_kids(q, j);
        let m = left.key_seq().len() as int;
        assert(xs[m] == sep);
        assert forall|x: int| 0 <= x < m implies #[trigger] left.key_seq()[x] == xs[x] by {
            assert((left.key_seq().push(sep) + right.key_seq())[x] == left.key_seq()[x]);
        }
        assert forall|x: int| 0 <= x < right.key_seq().len() implies #[trigger] right.key_seq()[x]
            == xs[m + 1 + x] by {
            assert((left.key_seq().push(sep) + right.key_seq())[m + 1 + x] == right.key_seq()[x]);
        }
        assert forall|x: int| 0 <= x <= m implies #[trigger] left.child_seq()[x] == cs[x] by {
            assert((left.child_seq() + right.child_seq())[x] == left.child_seq()[x]);
        }
        assert forall|x: int| 0 <= x < right.child_seq().len() implies #[trigger] right.child_seq()[x]
            == cs[m + 1 + x] by {
            assert((left.child_seq() + right.child_seq())[m + 1 + x] == right.child_seq()[x]);
        }
        assert forall|c: PageId| cs.contains(c) implies !(left.child_seq().contains(c)
            && right.child_seq().contains(c)) && (left.child_seq().contains(c)
            || right.child_seq().contains(c)) by {
            let x = cs.index_of(c);
            if x <= m {
                assert(left.child_seq()[x] == c);
            } else {
                assert(right.child_seq()[x - m - 1] == c);
            }
            if left.child_seq().contains(c) && right.child_seq().contains(c) {
                let y = left.child_seq().index_of(c);
                let z = right.child_seq().index_of(c);
                assert(cs[y] == c && cs[m + 1 + z] == c);
            }
        }
        assert forall|c: PageId|
            left.child_seq().contains(c) || right.child_seq().contains(c) implies cs.contains(c) by {
            if left.child_seq().contains(c) {
                assert(cs[left.child_seq().index_of(c)] == c);
            } else {
                assert(cs[m + 1 + right.child_seq().index_of(c)] == c);
            }
        }
        assert forall|c: PageId| cs.contains(c) implies self.place[c].level + 1
            == self.place[a].level && (self.place[c].up == Some(a) || self.place[c].up == Some(b))
            && self.pages.contains_key(c) by {
            assert(cs[cs.index_of(c)] == c);
        }
        assert forall|x: PageId| #[trigger] self.pages.contains_key(x) && x != a && x != b implies {
            &&& s2.place[x].level == self.place[x].level
            &&& s2.place[x].lo == self.place[x].lo
            &&& s2.place[x].hi == self.place[x].hi
            &&& s2.place[x].up == (if left.child_seq().contains(x) {
                Some(a)
            } else if right.child_seq().contains(x) {
                Some(b)
            } else {
                self.place[x].up
            })
        } by {}
        assert(!cs.contains(a) && !cs.contains(b) && !cs.contains(q));
        assert(s2.node_ok(None, a)) by {
            assert forall|x: int| 0 <= x < left.key_seq().len() implies raised(
                self.place[a].lo,
                #[trigger] left.key_seq()[x],
            ) && capped(left.key_seq()[x], Some(sep)) by {
                assert(before(xs[x], xs[m]));
            }
            assert forall|x: int, y: int| 0 <= x < y < left.key_seq().len() implies before(
                #[trigger] left.key_seq()[x],
                #[trigger] left.key_seq()[y],
            ) by {
                assert(before(xs[x], xs[y]));
            }
            assert forall|x: int| 0 <= x < s2.kids(a).len() implies #[trigger] s2.link_ok(
                None,
                a,
                x,
            ) by {
                assert(left.child_seq()[x] == cs[x]);
                assert(left.child_seq().contains(cs[x]));
                assert(cs.contains(cs[x]));
            }
        }
        assert(s2.node_ok(None, b)) by {
            assert forall|x: int| 0 <= x < right.key_seq().len() implies raised(
                Some(sep),
                #[trigger] right.key_seq()[x],
            ) && capped(right.key_seq()[x], self.place[b].hi) by {
                assert(before(xs[m], xs[m + 1 + x]));
            }
            assert forall|x: int, y: int| 0 <= x < y < right.key_seq().len() implies before(
                #[trigger] right.key_seq()[x],
                #[trigger] right.key_seq()[y],
            ) by {
                assert(before(xs[m + 1 + x], xs[m + 1 + y]));
            }
            assert forall|x: int| 0 <= x < s2.kids(b).len() implies #[trigger] s2.link_ok(
                None,
                b,
                x,
            ) by {
                assert(right.child_seq()[x] == cs[m + 1 + x]);
                assert(right.child_seq().contains(cs[m + 1 + x]));
                assert(cs.contains(cs[m + 1 + x]));
            }
        }
        assert(s2.node_ok(None, q)) by {
            assert(raised(p.lo, sep) && capped(sep, p.hi)) by {
                broadcast use group_order;

                if j > 0 {
                    assert(raised(p.lo, ks[j - 1]));
                }
                if j + 1 < ks.len() {
                    assert(capped(ks[j + 1], p.hi));
                }
            }
            assert forall|x: int, y: int| 0 <= x < y < node.key_seq().len() implies before(
                #[trigger] node.key_seq()[x],
                #[trigger] node.key_seq()[y],
            ) by {
                broadcast use group_order;

                if y == j && x < j - 1 {
                    assert(before(ks[x], ks[j - 1]));
                }
                if x == j && y > j + 1 {
                    assert(before(ks[j + 1], ks[y]));
                }
            }
            assert forall|x: int| 0 <= x < s2.kids(q).len() implies #[trigger] s2.link_ok(
                None,
                q,
                x,
            ) by {
                assert(self.link_ok(None, q, x));
            }
        }
        assert forall|x: PageId| #[trigger] s2.pages.contains_key(x) implies s2.node_ok(None, x) by {
            assert(self.pages.contains_key(x));
            assert(self.node_ok(None, x));
            if x != q && x != a && x != b {
                assert forall|y: int| 0 <= y < s2.kids(x).len() implies #[trigger] s2.link_ok(
                    None,
                    x,
                    y,
                ) by {
                    assert(self.link_ok(None, x, y));
                }
            }
        }
        assert forall|x: PageId| #[trigger] s2.pages.contains_key(x) implies s2.up_ok(None, x) by {
            assert(self.pages.contains_key(x));
            assert(self.up_ok(None, x));
            if self.root != Some(x) && (self.place[x].up == Some(a) || self.place[x].up == Some(
                b,
            )) {
                if self.place[x].up == Some(a) {
                    assert(cs[self.kids(a).index_of(x)] == x);
                } else {
                    assert(cs[self.kids(a).len() + self.kids(b).index_of(x)] == x);
                }
                assert(cs.contains(x));
            }
        }
        assert forall|i: int| 0 <= i < self.chain.len() implies {
            let x = #[trigger] self.chain[i];
            &&& s2.pages.contains_key(x)
            &&& s2.pages[x] == self.pages[x]
            &&& s2.place[x].lo == self.place[x].lo
            &&& s2.place[x].hi == self.place[x].hi
        } by {
            assert(self.pages.contains_key(self.chain[i]) && self.is_leaf(self.chain[i]));
        }
        self.lemma_chain_kept(s2);
    }

    /// Internal node `j + 1` of `q` folded into node `j`, around the separator between them.
    pub open spec fn merge(
        self,
        q: PageId,
        j: int,
        left: BPlusTreeNode<K, V>,
        node: BPlusTreeNode<K, V>,
    ) -> Self {
        let a = self.kids(q)[j];
        let b = self.kids(q)[j + 1];
        Shape {
            pages: self.pages.insert(a, left).insert(q, node).remove(b),
            place: reparent(self.place, left.child_seq(), a).insert(
                a,
                Place { hi: self.place[b].hi, ..self.place[a] },
            ).remove(b),
            ..self
        }
    }

    /// Merging two internal nodes leaves tree, chain and entries in order.
    #[verifier::rlimit(40)]
    pub proof fn lemma_merge(
        self,
        q: PageId,
        j: int,
        left: BPlusTreeNode<K, V>,
        node: BPlusTreeNode<K, V>,
    )
        requires
            lawful::<K>(),
            self.tree_ok(None),
            self.chain_ok(),
            self.pages.contains_key(q),
            !self.is_leaf(q),
            0 <= j < self.keys(q).len(),
            !self.is_leaf(self.kids(q)[j]),
            !self.is_leaf(self.kids(q)[j + 1]),
            left is Internal,
            left.key_seq() == self.joined_keys(q, j),
            left.child_seq() == self.joined_kids(q, j),
            node is Internal,
            node.key_seq() == self.keys(q).remove(j),
            node.child_seq() == self.kids(q).remove(j + 1),
        ensures
            self.merge(q, j, left, node).tree_ok(None),
            self.merge(q, j, left, node).chain_ok(),
            self.merge(q, j, left, node).entries() == self.entries(),
    {
        reveal(Shape::tree_ok);
        reveal(Shape::chain_ok);
        let s2 = self.merge(q, j, left, node);
        let a = self.kids(q)[j];
        let b = self.kids(q)[j + 1];
        assert(self.node_ok(None, q));
        assert(self.link_ok(None, q, j));
        assert(self.link_ok(None, q, j + 1));
        assert(self.node_ok(None, a) && self.node_ok(None, b));
        self.lemma_kids_distinct(None, q);
        assert(a != b && a != q && b != q);
        assert(self.up_ok(None, b));
        assert(s2.place.dom() =~= s2.pages.dom());
        self.lemma_joined(q, j);
        let cs = left.child_seq();
        assert forall|c: PageId| cs.contains(c) implies self.place[c].level + 1
            == self.place[a].level && (self.place[c].up == Some(a) || self.place[c].up == Some(b))
            && self.pages.contains_key(c) by {
            assert(cs[cs.index_of(c)] == c);
        }
        assert forall|x: PageId| #[trigger] self.pages.contains_key(x) && x != a && x != b implies {
            &&& s2.place[x].level == self.place[x].level
            &&& s2.place[x].lo == self.place[x].lo
            &&& s2.place[x].hi == self.place[x].hi
            &&& s2.place[x].up == (if cs.contains(x) {
                Some(a)
            } else {
                self.place[x].up
            })
        } by {}
        assert(!cs.contains(a) && !cs.contains(b) && !cs.contains(q));
        assert(s2.node_ok(None, a)) by {
            assert(roomy(self.place[a].lo, self.place[b].hi)) by {
                broadcast use group_order;

            }
            assert forall|x: int| 0 <= x < s2.kids(a).len() implies #[trigger] s2.link_ok(
                None,
                a,
                x,
            ) by {
                assert(cs.contains(cs[x]));
            }
        }
        assert(s2.node_ok(None, q)) by {
            assert forall|x: int| 0 <= x < s2.kids(q).len() implies #[trigger] s2.link_ok(
                None,
                q,
                x,
            ) by {
                if x <= j {
                    assert(self.link_ok(None, q, x));
                } else {
                    assert(self.link_ok(None, q, x + 1));
                }
            }
        }
        assert forall|x: PageId| #[trigger] s2.pages.contains_key(x) implies s2.node_ok(None, x) by {
            assert(self.pages.contains_key(x));
            assert(self.node_ok(None, x));
            if x != q && x != a {
                assert forall|y: int| 0 <= y < s2.kids(x).len() implies #[trigger] s2.link_ok(
                    None,
                    x,
                    y,
                ) by {
                    assert(self.link_ok(None, x, y));
                }
            }
        }
        assert forall|x: PageId| #[trigger] s2.pages.contains_key(x) implies s2.up_ok(None, x) by {
            assert(self.pages.contains_key(x));
            assert(self.up_ok(None, x));
            if self.root != Some(x) {
                if self.place[x].up == Some(q) {
                    let y = self.kids(q).index_of(x);
                    assert(s2.kids(q)[if y <= j {
                        y
                    } else {
                        y - 1
                    }] == x);
                } else if self.place[x].up == Some(a) {
                    assert(cs[self.kids(a).index_of(x)] == x);
                } else if self.place[x].up == Some(b) {
                    assert(cs[self.kids(a).len() + self.kids(b).index_of(x)] == x);
                }
            }
        }
        assert forall|i: int| 0 <= i < self.chain.len() implies {
            let x = #[trigger] self.chain[i];
            &&& s2.pages.contains_key(x)
            &&& s2.pages[x] == self.pages[x]
            &&& s2.place[x].lo == self.place[x].lo
            &&& s2.place[x].hi == self.place[x].hi
        } by {
            assert(self.pages.contains_key(self.chain[i]) && self.is_leaf(self.chain[i]));
        }
        self.lemma_chain_kept(s2);
    }

    /// The only child `c` of the root as the new root.
    pub open spec fn lower(self, r: PageId, c: PageId) -> Self {
        Shape {
            pages: self.pages.remove(r),
            place: self.place.insert(c, Place { up: None, ..self.place[c] }).remove(r),
            chain: self.chain,
            root: Some(c),
        }
    }

    /// A root without keys gives way to its only child.
    pub proof fn lemma_lower(self, r: PageId, c: PageId)
        requires
            self.tree_ok(None),
            self.chain_ok(),
            self.root == Some(r),
            !self.is_leaf(r),
            self.kids(r) == seq![c],
        ensures
            self.lower(r, c).tree_ok(None),
            self.lower(r, c).chain_ok(),
            self.lower(r, c).entries() == self.entries(),
    {
        reveal(Shape::tree_ok);
        reveal(Shape::chain_ok);
        let s2 = self.lower(r, c);
        assert(self.node_ok(None, r));
        assert(self.up_ok(None, r));
        assert(self.link_ok(None, r, 0));
        assert(self.node_ok(None, c));
        assert(c != r);
        assert(s2.place.dom() =~= s2.pages.dom());
        assert forall|x: PageId| #[trigger] s2.pages.contains_key(x) implies s2.node_ok(None, x) by {
            assert(self.pages.contains_key(x));
            assert(self.node_ok(None, x));
            assert forall|y: int| 0 <= y < s2.kids(x).len() implies #[trigger] s2.link_ok(
                None,
                x,
                y,
            ) by {
                assert(self.link_ok(None, x, y));
                assert(self.up_ok(None, self.kids(x)[y]));
            }
        }
        assert forall|x: PageId| #[trigger] s2.pages.contains_key(x) implies s2.up_ok(None, x) by {
            assert(self.pages.contains_key(x));
            assert(self.up_ok(None, x));
            if x != c {
                let q = self.place[x].up->0;
                assert(self.pages.contains_key(q));
                assert(self.node_ok(None, q));
                let y = self.kids(q).index_of(x);
                assert(self.link_ok(None, q, y));
                if q == r {
                    assert(self.kids(r)[y] == c);
                }
                assert(self.up_ok(None, q));
            }
        }
        assert forall|i: int| 0 <= i < self.chain.len() implies {
            let x = #[trigger] self.chain[i];
            &&& s2.pages.contains_key(x)
            &&& s2.pages[x] == self.pages[x]
            &&& s2.place[x].lo == self.place[x].lo
            &&& s2.place[x].hi == self.place[x].hi
        } by {
            assert(self.pages.contains_key(self.chain[i]) && self.is_leaf(self.chain[i]));
        }
        self.lemma_chain_kept(s2);
    }
}

impl<K: Ord + Clone, V> Shape<K, V> {
    /// The children of one node are all leaves, or all internal nodes.
    pub proof fn lemma_alike(self, q: PageId)
        requires
            self.tree_ok(None),
            self.pages.contains_key(q),
            !self.is_leaf(q),
        ensures
            self.kids(q).len() == self.keys(q).len() + 1,
            self.place.contains_key(q),
            forall|i: int|
                0 <= i < self.kids(q).len() ==> {
                    let c = #[trigger] self.kids(q)[i];
                    &&& self.pages.contains_key(c)
                    &&& c != q
                    &&& self.place[c].level + 1 == self.place[q].level
                    &&& self.is_leaf(c) <==> self.place[q].level == 1
                },
    {
        reveal(Shape::tree_ok);
        assert(self.node_ok(None, q));
        assert forall|i: int| 0 <= i < self.kids(q).len() implies {
            let c = #[trigger] self.kids(q)[i];
            &&& self.pages.contains_key(c)
            &&& c != q
            &&& self.place[c].level + 1 == self.place[q].level
            &&& self.is_leaf(c) <==> self.place[q].level == 1
        } by {
            assert(self.link_ok(None, q, i));
            assert(self.node_ok(None, self.kids(q)[i]));
        }
    }
}

impl<K: Ord + Clone, V> Shape<K, V> {
    /// No child of a child of `q` is the root, nor stands as high as `q`.
    pub proof fn lemma_root_level(self, q: PageId, j: int)
        requires
            lawful::<K>(),
            self.tree_ok(None),
            self.pages.contains_key(q),
            !self.is_leaf(q),
            0 <= j < self.keys(q).len(),
            !self.is_leaf(self.kids(q)[j]),
            !self.is_leaf(self.kids(q)[j + 1]),
        ensures
            self.root is Some,
            self.place.contains_key(self.root->0),
            self.root != Some(self.kids(q)[j]),
            self.root != Some(self.kids(q)[j + 1]),
            forall|c: PageId| #[trigger]
                self.joined_kids(q, j).contains(c) ==> self.root != Some(c)
                    && self.place[c].level + 2 == self.place[q].level,
    {
        reveal(Shape::tree_ok);
        self.lemma_joined(q, j);
        let cs = self.joined_kids(q, j);
        assert(self.node_ok(None, q));
        assert(self.link_ok(None, q, j));
        assert(self.link_ok(None, q, j + 1));
        assert(self.up_ok(None, self.kids(q)[j]));
        assert(self.up_ok(None, self.kids(q)[j + 1]));
        assert forall|c: PageId| #[trigger] cs.contains(c) implies self.root != Some(c)
            && self.place[c].level + 2 == self.place[q].level by {
            let x = cs.index_of(c);
            assert(cs[x] == c);
            assert(self.up_ok(None, c));
        }
    }

    /// A merge below `q` leaves what stands at `q` and above where it is.
    pub proof fn lemma_merge_above(
        self,
        q: PageId,
        j: int,
        left: BPlusTreeNode<K, V>,
        node: BPlusTreeNode<K, V>,
    )
        requires
            lawful::<K>(),
            self.tree_ok(None),
            self.pages.contains_key(q),
            !self.is_leaf(q),
            0 <= j < self.keys(q).len(),
            !self.is_leaf(self.kids(q)[j]),
            !self.is_leaf(self.kids(q)[j + 1]),
            left.child_seq() == self.joined_kids(q, j),
        ensures
            forall|x: PageId| #[trigger]
                self.pages.contains_key(x) && self.place[x].level >= self.place[q].level ==> {
                    let s2 = self.merge(q, j, left, node);
                    &&& s2.pages.contains_key(x)
                    &&& s2.place[x].level == self.place[x].level
                    &&& s2.place[x].up == self.place[x].up
                },
            forall|x: PageId| #[trigger]
                self.merge(q, j, left, node).pages.contains_key(x) ==> self.merge(
                    q,
                    j,
                    left,
                    node,
                ).place[x].level == self.place[x].level,
    {
        reveal(Shape::tree_ok);
        self.lemma_root_level(q, j);
        self.lemma_alike(q);
        assert(self.kids(q)[j] != q && self.kids(q)[j + 1] != q);
    }

    /// Merging internal nodes moves no separator to the left of a leaf.
    pub proof fn lemma_merge_tight(
        self,
        q: PageId,
        j: int,
        left: BPlusTreeNode<K, V>,
        node: BPlusTreeNode<K, V>,
    )
        requires
            self.tree_ok(None),
            self.pages.contains_key(q),
            !self.is_leaf(q),
            0 <= j < self.keys(q).len(),
            left is Internal,
            node is Internal,
        ensures
            self.tight(None) ==> self.merge(q, j, left, node).tight(None),
    {
        let s2 = self.merge(q, j, left, node);
        assert forall|x: PageId| #[trigger] s2.pages.contains_key(x) && s2.is_leaf(x) implies {
            &&& self.pages.contains_key(x)
            &&& self.pages[x] == s2.pages[x]
            &&& self.place[x].lo == s2.place[x].lo
        } by {
            self.lemma_page(None, x);
        }
        self.lemma_tight_kept(s2, None);
    }

    /// Rotating keys and children through `q` leaves what stands at `q` and above where it is, and
    /// moves no separator to the left of a leaf.
    pub proof fn lemma_rotate_above(
        self,
        q: PageId,
        j: int,
        left: BPlusTreeNode<K, V>,
        right: BPlusTreeNode<K, V>,
        node: BPlusTreeNode<K, V>,
        sep: K,
    )
        requires
            lawful::<K>(),
            self.tree_ok(None),
            self.pages.contains_key(q),
            !self.is_leaf(q),
            0 <= j < self.keys(q).len(),
            !self.is_leaf(self.kids(q)[j]),
            !self.is_leaf(self.kids(q)[j + 1]),
            left is Internal,
            right is Internal,
            node is Internal,
            left.child_seq() + right.child_seq() == self.joined_kids(q, j),
        ensures
            self.tight(None) ==> self.rotate(q, j, left, right, node, sep).tight(None),
            self.upheld(self.rotate(q, j, left, right, node, sep), q),
    {
        let s2 = self.rotate(q, j, left, right, node, sep);
        let cs = self.joined_kids(q, j);
        self.lemma_root_level(q, j);
        self.lemma_alike(q);
        assert(self.kids(q)[j] != q && self.kids(q)[j + 1] != q);
        assert forall|x: PageId| #[trigger] s2.pages.contains_key(x) && s2.is_leaf(x) implies {
            &&& self.pages.contains_key(x)
            &&& self.pages[x] == s2.pages[x]
            &&& self.place[x].lo == s2.place[x].lo
        } by {
            self.lemma_page(None, x);
        }
        self.lemma_tight_kept(s2, None);
        assert forall|x: PageId| #[trigger]
            self.pages.contains_key(x) && self.place[x].level >= self.place[q].level implies {
            &&& s2.pages.contains_key(x)
            &&& s2.place[x].level == self.place[x].level
            &&& s2.place[x].up == self.place[x].up
            &&& x != q ==> s2.pages[x] == self.pages[x]
        } by {
            self.lemma_page(None, x);
            if left.child_seq().contains(x) {
                let i = left.child_seq().index_of(x);
                assert(cs[i] == x);
                assert(cs.contains(x));
            }
            if right.child_seq().contains(x) {
                let i = right.child_seq().index_of(x);
                assert(cs[left.child_seq().len() + i] == x);
                assert(cs.contains(x));
            }
        }
    }
}

} // verus!
