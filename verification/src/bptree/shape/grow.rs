//! How the structure changes when nodes grow and split.

use super::{
    capped, flat, floored, lemma_flat_at, lemma_flat_one, lemma_flat_same, raised, reparent, roomy,
    Halves, Place, Shape,
};
use crate::bptree::entries::{holds, lemma_rank, rank, sorted, stored, turn};
use crate::bptree::{BPlusTreeNode, PageId};
use crate::order::{before, group_order, lawful, same};
use vstd::prelude::*;

verus! {

impl<K: Ord + Clone, V> Shape<K, V> {
    /// Page `id` with another node in it.
    pub open spec fn write(self, id: PageId, node: BPlusTreeNode<K, V>) -> Self {
        Shape { pages: self.pages.insert(id, node), ..self }
    }

    /// Every page that is not among `path` is as it was.
    pub open spec fn kept(self, after: Self, path: Seq<PageId>) -> bool {
        forall|x: PageId| #[trigger]
            self.pages.contains_key(x) && !path.contains(x) ==> after.pages.contains_key(x)
                && after.pages[x] == self.pages[x]
    }

    /// Leaf `id` was cut in the middle: it kept the left half, and `r` is the right half and
    /// stands behind it in the chain.
    pub open spec fn halved_leaf(self, after: Self, id: PageId, r: PageId) -> bool {
        let n = self.pages[id];
        let mid = (n.key_seq().len() / 2) as int;
        let left = after.pages[id];
        let right = after.pages[r];
        &&& after.pages.contains_key(id)
        &&& after.pages.contains_key(r)
        &&& left is Leaf
        &&& left.key_seq() == n.key_seq().take(mid)
        &&& left.value_seq() == n.value_seq().take(mid)
        &&& left->next == Some(r)
        &&& right is Leaf
        &&& right.key_seq() == n.key_seq().skip(mid)
        &&& right.value_seq() == n.value_seq().skip(mid)
        &&& right->next == n->next
    }

    /// An internal node with `keys` and `kids` was cut at its middle key: `id` kept what is to the
    /// left of it, and `r` has what is to its right.
    pub open spec fn halved_internal(
        after: Self,
        keys: Seq<K>,
        kids: Seq<PageId>,
        id: PageId,
        r: PageId,
    ) -> bool {
        let mid = (keys.len() / 2) as int;
        &&& after.pages.contains_key(id)
        &&& after.pages.contains_key(r)
        &&& after.pages[id] is Internal
        &&& after.keys(id) == keys.take(mid)
        &&& after.kids(id) == kids.take(mid + 1)
        &&& after.pages[r] is Internal
        &&& after.keys(r) == keys.skip(mid + 1)
        &&& after.kids(r) == kids.skip(mid + 1)
    }

    /// The parent of `left` took up its right half `right`, with `sep` between them, and was cut in
    /// two itself if this made it too full, and so on upward: `stack` holds the pages above `left`,
    /// and `fresh` is the number of the next page. Further up nothing was touched.
    pub open spec fn adopted(
        self,
        after: Self,
        max: nat,
        left: PageId,
        right: PageId,
        sep: K,
        stack: Seq<PageId>,
        fresh: int,
    ) -> bool
        decreases stack.len(),
    {
        let new = fresh as PageId;
        if stack.len() == 0 {
            &&& after.root == Some(new)
            &&& after.pages.contains_key(new)
            &&& after.pages[new] is Internal
            &&& after.keys(new) == seq![sep]
            &&& after.kids(new) == seq![left, right]
        } else {
            let q = stack.last();
            let at = turn(self.keys(q), sep) as int;
            let keys = self.keys(q).insert(at, sep);
            let kids = self.kids(q).insert(at + 1, right);
            if keys.len() <= max {
                &&& after.pages.contains_key(q)
                &&& after.pages[q] is Internal
                &&& after.keys(q) == keys
                &&& after.kids(q) == kids
                &&& after.root == self.root
                &&& forall|i: int|
                    0 <= i < stack.len() - 1 && self.pages.contains_key(#[trigger] stack[i])
                        ==> after.pages.contains_key(stack[i]) && after.pages[stack[i]]
                        == self.pages[stack[i]]
            } else {
                &&& Self::halved_internal(after, keys, kids, q, new)
                &&& self.adopted(
                    after,
                    max,
                    q,
                    new,
                    keys[keys.len() as int / 2],
                    stack.drop_last(),
                    fresh + 1,
                )
            }
        }
    }

    /// Each page of `stack` that is handed a separator, from the last one upward, is an internal node.
    pub open spec fn climbs(self, max: nat, stack: Seq<PageId>) -> bool
        decreases stack.len(),
    {
        stack.len() > 0 ==> self.held_internal(stack.last()) && (self.keys(stack.last()).len() < max
            || self.climbs(max, stack.drop_last()))
    }

    /// Page `id` is a leaf with `keys` and `values`, and `next` to its right.
    pub open spec fn has_leaf(
        self,
        id: PageId,
        keys: Seq<K>,
        values: Seq<V>,
        next: Option<PageId>,
    ) -> bool {
        &&& self.pages.contains_key(id)
        &&& self.is_leaf(id)
        &&& self.keys(id) == keys
        &&& self.pages[id].value_seq() == values
        &&& self.pages[id]->next == next
    }

    /// `value` was put under `key` into the leaf at the end of `path`, which leads down to it from
    /// the root: a leaf that this made too full was cut in the middle, with its right half on page
    /// `fresh`, and its parent took up the right half. Nothing else was touched.
    pub open spec fn grown(
        self,
        after: Self,
        max: nat,
        path: Seq<PageId>,
        key: K,
        value: V,
        fresh: int,
    ) -> bool {
        let id = path.last();
        let n = self.pages[id];
        let at = rank(n.entry_seq(), key) as int;
        let keys = n.key_seq().insert(at, key);
        let values = n.value_seq().insert(at, value);
        let mid = keys.len() as int / 2;
        if holds(n.entry_seq(), key) {
            &&& after.root == self.root
            &&& after.has_leaf(id, n.key_seq(), n.value_seq().update(at, value), n->next)
            &&& self.kept(after, seq![id])
        } else if keys.len() <= max {
            &&& after.root == self.root
            &&& after.has_leaf(id, keys, values, n->next)
            &&& self.kept(after, seq![id])
        } else {
            &&& after.has_leaf(id, keys.take(mid), values.take(mid), Some(fresh as PageId))
            &&& after.has_leaf(fresh as PageId, keys.skip(mid), values.skip(mid), n->next)
            &&& self.kept(after, path)
            &&& exists|sep: K|
                #![trigger cloned(keys[mid], sep)]
                cloned(keys[mid], sep) && self.adopted(
                    after,
                    max,
                    id,
                    fresh as PageId,
                    sep,
                    path.drop_last(),
                    fresh + 1,
                )
        }
    }

    /// Another sorted run of entries within the bounds of leaf `i` leaves the tree in order.
    pub proof fn lemma_leaf_write(self, i: int, node: BPlusTreeNode<K, V>)
        requires
            lawful::<K>(),
            self.tree_ok(None),
            self.chain_ok(),
            0 <= i < self.chain.len(),
            node is Leaf,
            node->next == self.pages[self.chain[i]]->next,
            sorted(node.key_seq()),
            node.value_seq().len() == node.key_seq().len(),
            forall|j: int|
                0 <= j < node.key_seq().len() ==> floored(
                    self.place[self.chain[i]].lo,
                    #[trigger] node.key_seq()[j],
                ) && capped(node.key_seq()[j], self.place[self.chain[i]].hi),
        ensures
            self.write(self.chain[i], node).tree_ok(None),
            self.write(self.chain[i], node).chain_ok(),
            self.entries() == flat(self.pages, self.chain.take(i))
                + self.pages[self.chain[i]].entry_seq() + flat(
                self.pages,
                self.chain.skip(i + 1),
            ),
            self.write(self.chain[i], node).entries() == flat(self.pages, self.chain.take(i))
                + node.entry_seq() + flat(self.pages, self.chain.skip(i + 1)),
    {
        reveal(Shape::tree_ok);
        reveal(Shape::chain_ok);
        let id = self.chain[i];
        let s2 = self.write(id, node);
        assert(self.pages.contains_key(id));
        assert(s2.place.dom() =~= s2.pages.dom());
        assert forall|x: PageId| #[trigger] s2.pages.contains_key(x) implies s2.node_ok(None, x) by {
            assert(self.pages.contains_key(x));
            assert(self.node_ok(None, x));
            if x != id {
                assert forall|j: int| 0 <= j < s2.kids(x).len() implies #[trigger] s2.link_ok(
                    None,
                    x,
                    j,
                ) by {
                    assert(self.link_ok(None, x, j));
                }
            }
        }
        assert forall|x: PageId| #[trigger] s2.pages.contains_key(x) implies s2.up_ok(None, x) by {
            assert(self.pages.contains_key(x));
            assert(self.up_ok(None, x));
        }
        assert forall|x: PageId|
            s2.pages.contains_key(x) && #[trigger] s2.is_leaf(x) implies s2.chain.contains(x) by {
            assert(self.pages.contains_key(x) && self.is_leaf(x));
        }
        lemma_flat_at(self.pages, self.chain, i);
        lemma_flat_at(s2.pages, self.chain, i);
        lemma_flat_same(self.pages, s2.pages, self.chain.take(i));
        lemma_flat_same(self.pages, s2.pages, self.chain.skip(i + 1));
    }

    /// Leaf `i` split before its key `mid`, with `r` as its right half.
    pub open spec fn split_leaf(
        self,
        i: int,
        left: BPlusTreeNode<K, V>,
        r: PageId,
        right: BPlusTreeNode<K, V>,
        sep: K,
    ) -> Self {
        let id = self.chain[i];
        Shape {
            pages: self.pages.insert(r, right).insert(id, left),
            place: self.place.insert(
                r,
                Place { lo: Some(sep), ..self.place[id] },
            ).insert(id, Place { hi: Some(sep), ..self.place[id] }),
            chain: self.chain.insert(i + 1, r),
            root: self.root,
        }
    }

    /// The halves of a split leaf have their places in the tree.
    proof fn lemma_split_leaf_tree(
        self,
        i: int,
        mid: int,
        left: BPlusTreeNode<K, V>,
        r: PageId,
        right: BPlusTreeNode<K, V>,
        sep: K,
    )
        requires
            lawful::<K>(),
            self.tree_ok(None),
            self.chain_ok(),
            0 <= i < self.chain.len(),
            !self.pages.contains_key(r),
            0 < mid < self.keys(self.chain[i]).len(),
            left is Leaf,
            left->next == Some(r),
            left.key_seq() == self.keys(self.chain[i]).take(mid),
            left.value_seq() == self.pages[self.chain[i]].value_seq().take(mid),
            right is Leaf,
            right->next == self.pages[self.chain[i]]->next,
            right.key_seq() == self.keys(self.chain[i]).skip(mid),
            right.value_seq() == self.pages[self.chain[i]].value_seq().skip(mid),
            same(sep, self.keys(self.chain[i])[mid]),
        ensures
            self.split_leaf(i, left, r, right, sep).tree_ok(
                Some(Halves { left: self.chain[i], right: r }),
            ),
    {
        reveal(Shape::tree_ok);
        reveal(Shape::chain_ok);
        let id = self.chain[i];
        let s2 = self.split_leaf(i, left, r, right, sep);
        let pend = Some(Halves { left: id, right: r });
        assert(self.pages.contains_key(id));
        assert(self.node_ok(None, id));
        let p = self.place[id];
        let ks = self.keys(id);
        assert(s2.halves_ok(pend) && roomy(p.lo, Some(sep)) && roomy(Some(sep), p.hi)) by {
            broadcast use group_order;

        assert(floored(p.lo, ks[0]) && capped(ks[mid], p.hi));
        assert(before(ks[0], ks[mid]));
        }
        assert(s2.place.dom() =~= s2.pages.dom());
        assert(self.root != Some(r));
        assert forall|x: PageId| #[trigger] s2.pages.contains_key(x) implies s2.node_ok(pend, x) by {
            if x == id {
                assert forall|j: int|
                    0 <= j < left.key_seq().len() implies floored(
                    s2.place[id].lo,
                    #[trigger] left.key_seq()[j],
                ) && capped(left.key_seq()[j], s2.place[id].hi) by {
                    broadcast use group_order;

                    assert(left.key_seq()[j] == ks[j]);
                    assert(before(ks[j], ks[mid]));
                }
                assert(sorted(left.key_seq()));
            } else if x == r {
                assert forall|j: int|
                    0 <= j < right.key_seq().len() implies floored(
                    s2.place[r].lo,
                    #[trigger] right.key_seq()[j],
                ) && capped(right.key_seq()[j], s2.place[r].hi) by {
                    broadcast use group_order;

                    assert(right.key_seq()[j] == ks[mid + j]);
                    if j > 0 {
                        assert(before(ks[mid], ks[mid + j]));
                    }
                }
                assert(sorted(right.key_seq()));
            } else {
                assert(self.pages.contains_key(x));
                assert(self.node_ok(None, x));
                assert forall|j: int| 0 <= j < s2.kids(x).len() implies #[trigger] s2.link_ok(
                    pend,
                    x,
                    j,
                ) by {
                    assert(self.link_ok(None, x, j));
                    assert(self.kids(x)[j] != r);
                }
            }
        }
        assert forall|x: PageId| #[trigger]
            s2.pages.contains_key(x) && x != r implies s2.up_ok(pend, x) by {
            assert(self.pages.contains_key(x));
            assert(self.up_ok(None, x));
            if self.root != Some(x) {
                let q = self.place[x].up->0;
                assert(q != r && q != id);
            }
        }
    }

    /// The halves of a split leaf stand side by side in the chain.
    #[verifier::rlimit(40)]
    proof fn lemma_split_leaf_chain(
        self,
        i: int,
        mid: int,
        left: BPlusTreeNode<K, V>,
        r: PageId,
        right: BPlusTreeNode<K, V>,
        sep: K,
    )
        requires
            lawful::<K>(),
            self.tree_ok(None),
            self.chain_ok(),
            0 <= i < self.chain.len(),
            !self.pages.contains_key(r),
            0 < mid < self.keys(self.chain[i]).len(),
            left is Leaf,
            left->next == Some(r),
            left.key_seq() == self.keys(self.chain[i]).take(mid),
            left.value_seq() == self.pages[self.chain[i]].value_seq().take(mid),
            right is Leaf,
            right->next == self.pages[self.chain[i]]->next,
            right.key_seq() == self.keys(self.chain[i]).skip(mid),
            right.value_seq() == self.pages[self.chain[i]].value_seq().skip(mid),
            same(sep, self.keys(self.chain[i])[mid]),
        ensures
            self.split_leaf(i, left, r, right, sep).chain_ok(),
    {
        reveal(Shape::chain_ok);
        let id = self.chain[i];
        let s2 = self.split_leaf(i, left, r, right, sep);
        self.lemma_chain_at(i);
        self.lemma_page(None, id);
        let c = self.chain;
        let c2 = s2.chain;
        assert(!c.contains(r)) by {
            if c.contains(r) {
                let j = c.index_of(r);
                assert(self.pages.contains_key(c[j]));
            }
        }
        assert forall|j: int| 0 <= j < c2.len() implies c2[j] == (if j <= i {
            c[j]
        } else if j == i + 1 {
            r
        } else {
            c[j - 1]
        }) by {}
        assert(c2.no_duplicates());
        assert forall|j: int|
            0 <= j < c2.len() implies s2.pages.contains_key(#[trigger] c2[j]) && s2.is_leaf(c2[j]) by {
            if j <= i {
                assert(self.pages.contains_key(c[j]));
            } else if j > i + 1 {
                assert(self.pages.contains_key(c[j - 1]));
            }
        }
        assert forall|x: PageId|
            s2.pages.contains_key(x) && #[trigger] s2.is_leaf(x) implies c2.contains(x) by {
            if x == r {
                assert(c2[i + 1] == r);
            } else {
                assert(self.pages.contains_key(x) && self.is_leaf(x));
                let j = c.index_of(x);
                assert(c2[if j <= i {
                    j
                } else {
                    j + 1
                }] == x);
            }
        }
        assert forall|a: int, b: int| 0 <= a && b == a + 1 && b < c2.len() implies {
            &&& s2.pages[c2[a]]->next == Some(c2[b])
            &&& s2.place[#[trigger] c2[a]].hi is Some
            &&& s2.place[c2[a]].hi == s2.place[#[trigger] c2[b]].lo
        } by {
            if a < i {
                assert(c2[a] == c[a] && c2[b] == c[b]);
                assert(c[a] != id);
            } else if a == i {
            } else if a == i + 1 {
                assert(c2[b] == c[i + 1]);
                assert(c[i + 1] != id);
                assert(self.place[c[i]].hi == self.place[c[i + 1]].lo);
            } else {
                assert(c2[a] == c[a - 1] && c2[b] == c[b - 1]);
                assert(c[a - 1] != id && c[b - 1] != id);
            }
        }
        assert(c2[0] == c[0]);
        assert(s2.place[c2[0]].lo is None);
        if i + 1 < c.len() {
            assert(c2.last() == c.last());
            assert(c.last() != id);
        } else {
            assert(c2.last() == r);
            assert(c.last() == id);
        }
    }

    /// The halves of a split leaf hold its entries.
    #[verifier::rlimit(40)]
    proof fn lemma_split_leaf_entries(
        self,
        i: int,
        mid: int,
        left: BPlusTreeNode<K, V>,
        r: PageId,
        right: BPlusTreeNode<K, V>,
        sep: K,
    )
        requires
            lawful::<K>(),
            self.tree_ok(None),
            self.chain_ok(),
            0 <= i < self.chain.len(),
            !self.pages.contains_key(r),
            0 < mid < self.keys(self.chain[i]).len(),
            left is Leaf,
            left->next == Some(r),
            left.key_seq() == self.keys(self.chain[i]).take(mid),
            left.value_seq() == self.pages[self.chain[i]].value_seq().take(mid),
            right is Leaf,
            right->next == self.pages[self.chain[i]]->next,
            right.key_seq() == self.keys(self.chain[i]).skip(mid),
            right.value_seq() == self.pages[self.chain[i]].value_seq().skip(mid),
            same(sep, self.keys(self.chain[i])[mid]),
        ensures
            self.split_leaf(i, left, r, right, sep).entries() == self.entries(),
    {
        reveal(Shape::tree_ok);
        reveal(Shape::chain_ok);
        let id = self.chain[i];
        let s2 = self.split_leaf(i, left, r, right, sep);
        assert(self.pages.contains_key(id));
        assert(self.node_ok(None, id));
        let c = self.chain;
        let c2 = s2.chain;
        lemma_flat_at(self.pages, c, i);
        lemma_flat_at(s2.pages, c2, i);
        lemma_flat_at(s2.pages, c2.skip(i + 1), 0);
        assert(c2.take(i) =~= c.take(i));
        assert(c2.skip(i + 1)[0] == r);
        assert(c2.skip(i + 1).take(0) =~= Seq::<PageId>::empty());
        assert(c2.skip(i + 1).skip(1) =~= c.skip(i + 1));
        lemma_flat_same(self.pages, s2.pages, c.take(i));
        lemma_flat_same(self.pages, s2.pages, c.skip(i + 1));
        assert(left.entry_seq() + right.entry_seq() =~= self.pages[id].entry_seq());
        assert(s2.entries() =~= self.entries());
    }

    /// A leaf split at position `mid`, which its parent does not know of yet.
    pub proof fn lemma_split_leaf(
        self,
        i: int,
        mid: int,
        left: BPlusTreeNode<K, V>,
        r: PageId,
        right: BPlusTreeNode<K, V>,
        sep: K,
    )
        requires
            lawful::<K>(),
            self.tree_ok(None),
            self.chain_ok(),
            0 <= i < self.chain.len(),
            !self.pages.contains_key(r),
            0 < mid < self.keys(self.chain[i]).len(),
            left is Leaf,
            left->next == Some(r),
            left.key_seq() == self.keys(self.chain[i]).take(mid),
            left.value_seq() == self.pages[self.chain[i]].value_seq().take(mid),
            right is Leaf,
            right->next == self.pages[self.chain[i]]->next,
            right.key_seq() == self.keys(self.chain[i]).skip(mid),
            right.value_seq() == self.pages[self.chain[i]].value_seq().skip(mid),
            same(sep, self.keys(self.chain[i])[mid]),
        ensures
            self.split_leaf(i, left, r, right, sep).tree_ok(
                Some(Halves { left: self.chain[i], right: r }),
            ),
            self.split_leaf(i, left, r, right, sep).chain_ok(),
            self.split_leaf(i, left, r, right, sep).entries() == self.entries(),
    {
        reveal(Shape::tree_ok);
        reveal(Shape::chain_ok);
        self.lemma_split_leaf_tree(i, mid, left, r, right, sep);
        self.lemma_split_leaf_chain(i, mid, left, r, right, sep);
        self.lemma_split_leaf_entries(i, mid, left, r, right, sep);
    }

    /// A change that leaves the leaves alone leaves their chain alone.
    pub proof fn lemma_chain_kept(self, s2: Self)
        requires
            self.chain_ok(),
            s2.chain == self.chain,
            forall|i: int|
                0 <= i < self.chain.len() ==> {
                    let id = #[trigger] self.chain[i];
                    &&& s2.pages.contains_key(id)
                    &&& s2.pages[id] == self.pages[id]
                    &&& s2.place[id].lo == self.place[id].lo
                    &&& s2.place[id].hi == self.place[id].hi
                },
            forall|id: PageId|
                s2.pages.contains_key(id) && #[trigger] s2.is_leaf(id) ==> self.pages.contains_key(
                    id,
                ) && self.is_leaf(id),
        ensures
            s2.chain_ok(),
            s2.entries() == self.entries(),
    {
        reveal(Shape::chain_ok);
        lemma_flat_same(self.pages, s2.pages, self.chain);
    }

    /// The pending split of `l` written into the parent, at the place `idx` of `l`.
    pub proof fn lemma_attach(
        self,
        l: PageId,
        r: PageId,
        q: PageId,
        idx: int,
        node: BPlusTreeNode<K, V>,
    )
        requires
            lawful::<K>(),
            self.tree_ok(Some(Halves { left: l, right: r })),
            self.chain_ok(),
            self.place[l].up == Some(q),
            0 <= idx < self.kids(q).len(),
            self.kids(q)[idx] == l,
            node is Internal,
            node.key_seq() == self.keys(q).insert(idx, self.place[l].hi->0),
            node.child_seq() == self.kids(q).insert(idx + 1, r),
        ensures
            self.write(q, node).tree_ok(None),
            self.write(q, node).chain_ok(),
            self.write(q, node).entries() == self.entries(),
    {
        reveal(Shape::tree_ok);
        reveal(Shape::chain_ok);
        let pend = Some(Halves { left: l, right: r });
        let s2 = self.write(q, node);
        let sep = self.place[l].hi->0;
        let ks = self.keys(q);
        let ks2 = node.key_seq();
        let p = self.place[q];
        assert(self.up_ok(pend, l));
        assert(self.node_ok(pend, q));
        assert(self.link_ok(pend, q, idx));
        assert(self.node_ok(pend, l));
        assert(self.node_ok(pend, r));
        assert(s2.place.dom() =~= s2.pages.dom());
        self.lemma_kids_distinct(pend, q);
        assert(s2.node_ok(None, q)) by {
            assert(raised(p.lo, sep) && capped(sep, p.hi)) by {
                broadcast use group_order;

                if idx > 0 {
                    assert(raised(p.lo, ks[idx - 1]));
                }
                if idx < ks.len() {
                    assert(capped(ks[idx], p.hi));
                }
            }
            assert(sorted(ks2)) by {
                assert forall|a: int, b: int| 0 <= a < b < ks2.len() implies before(
                    #[trigger] ks2[a],
                    #[trigger] ks2[b],
                ) by {
                    broadcast use group_order;

                    if a < idx && b == idx && a < idx - 1 {
                        assert(before(ks[a], ks[idx - 1]));
                    }
                    if a == idx && b > idx + 1 {
                        assert(before(ks[idx], ks[b - 1]));
                    }
                }
            }
            assert forall|j: int| 0 <= j < s2.kids(q).len() implies #[trigger] s2.link_ok(
                None,
                q,
                j,
            ) by {
                if j <= idx {
                    assert(self.link_ok(pend, q, j));
                } else if j > idx + 1 {
                    assert(self.link_ok(pend, q, j - 1));
                }
            }
        }
        assert forall|x: PageId| #[trigger] s2.pages.contains_key(x) implies s2.node_ok(None, x) by {
            assert(self.pages.contains_key(x));
            assert(self.node_ok(pend, x));
            if x != q {
                assert forall|j: int| 0 <= j < s2.kids(x).len() implies #[trigger] s2.link_ok(
                    None,
                    x,
                    j,
                ) by {
                    assert(self.link_ok(pend, x, j));
                }
            }
        }
        assert forall|x: PageId| #[trigger] s2.pages.contains_key(x) implies s2.up_ok(None, x) by {
            assert(self.pages.contains_key(x));
            if x == r {
                assert(s2.kids(q)[idx + 1] == r);
            } else {
                assert(self.up_ok(pend, x));
                if self.place[x].up == Some(q) && self.root != Some(x) {
                    let j = self.kids(q).index_of(x);
                    assert(s2.kids(q)[if j <= idx {
                        j
                    } else {
                        j + 1
                    }] == x);
                }
            }
        }
        self.lemma_chain_kept(s2);
    }

    /// The separator of a pending split belongs into the parent right at the place of the left
    /// half.
    pub proof fn lemma_split_fits(self, l: PageId, r: PageId, q: PageId, idx: int)
        requires
            lawful::<K>(),
            self.tree_ok(Some(Halves { left: l, right: r })),
            self.place[l].up == Some(q),
            self.pages.contains_key(q),
            0 <= idx < self.kids(q).len(),
            self.kids(q)[idx] == l,
        ensures
            forall|j: int|
                0 <= j < idx ==> !before(self.place[l].hi->0, #[trigger] self.keys(q)[j]),
            forall|j: int|
                idx <= j < self.keys(q).len() ==> before(
                    self.place[l].hi->0,
                    #[trigger] self.keys(q)[j],
                ),
    {
        reveal(Shape::tree_ok);
        broadcast use group_order;

        let pend = Some(Halves { left: l, right: r });
        let ks = self.keys(q);
        assert(self.node_ok(pend, q));
        assert(self.node_ok(pend, l));
        assert(self.node_ok(pend, r));
        assert(self.link_ok(pend, q, idx));
        assert forall|j: int| 0 <= j < idx implies !before(
            self.place[l].hi->0,
            #[trigger] ks[j],
        ) by {
            if j < idx - 1 {
                assert(before(ks[j], ks[idx - 1]));
            }
            assert(before(ks[idx - 1], self.place[l].hi->0));
        }
        assert forall|j: int| idx <= j < ks.len() implies before(
            self.place[l].hi->0,
            #[trigger] ks[j],
        ) by {
            assert(before(self.place[l].hi->0, ks[idx]));
            if j > idx {
                assert(before(ks[idx], ks[j]));
            }
        }
    }

    /// A new root `t` over both halves of the old root.
    pub open spec fn crown(self, l: PageId, r: PageId, t: PageId, node: BPlusTreeNode<K, V>) -> Self {
        Shape {
            pages: self.pages.insert(t, node),
            place: self.place.insert(
                t,
                Place { level: self.place[l].level + 1, lo: None, hi: None, up: None },
            ).insert(l, Place { up: Some(t), ..self.place[l] }).insert(
                r,
                Place { up: Some(t), ..self.place[r] },
            ),
            chain: self.chain,
            root: Some(t),
        }
    }

    /// A new root above the halves of the old one.
    pub proof fn lemma_crown(self, l: PageId, r: PageId, t: PageId, node: BPlusTreeNode<K, V>)
        requires
            lawful::<K>(),
            self.tree_ok(Some(Halves { left: l, right: r })),
            self.chain_ok(),
            self.root == Some(l),
            !self.pages.contains_key(t),
            node is Internal,
            node.key_seq() == seq![self.place[l].hi->0],
            node.child_seq() == seq![l, r],
        ensures
            self.crown(l, r, t, node).tree_ok(None),
            self.crown(l, r, t, node).chain_ok(),
            self.crown(l, r, t, node).entries() == self.entries(),
            self.crown(l, r, t, node).place[t].level == self.place[l].level + 1,
    {
        reveal(Shape::tree_ok);
        reveal(Shape::chain_ok);
        let pend = Some(Halves { left: l, right: r });
        let s2 = self.crown(l, r, t, node);
        assert(self.up_ok(pend, l));
        assert(self.node_ok(pend, l));
        assert(self.node_ok(pend, r));
        assert(s2.place.dom() =~= s2.pages.dom());
        assert(t != l && t != r);
        assert forall|x: PageId| #[trigger] s2.pages.contains_key(x) implies s2.node_ok(None, x) by {
            if x == t {
                assert(s2.link_ok(None, t, 0));
                assert(s2.link_ok(None, t, 1));
            } else {
                assert(self.pages.contains_key(x));
                assert(self.node_ok(pend, x));
                assert forall|j: int| 0 <= j < s2.kids(x).len() implies #[trigger] s2.link_ok(
                    None,
                    x,
                    j,
                ) by {
                    assert(self.link_ok(pend, x, j));
                    let c = self.kids(x)[j];
                    assert(c != l && c != r && c != t);
                }
            }
        }
        assert forall|x: PageId| #[trigger] s2.pages.contains_key(x) implies s2.up_ok(None, x) by {
            if x == l {
                assert(s2.kids(t)[0] == l);
            } else if x == r {
                assert(s2.kids(t)[1] == r);
            } else if x != t {
                assert(self.pages.contains_key(x));
                assert(self.up_ok(pend, x));
            }
        }
        assert forall|i: int| 0 <= i < self.chain.len() implies {
            let id = #[trigger] self.chain[i];
            &&& s2.pages.contains_key(id)
            &&& s2.pages[id] == self.pages[id]
            &&& s2.place[id].lo == self.place[id].lo
            &&& s2.place[id].hi == self.place[id].hi
        } by {
            assert(self.pages.contains_key(self.chain[i]));
        }
        self.lemma_chain_kept(s2);
    }

    /// Internal node `id` split at its key `sep`, with `r` as its right half.
    pub open spec fn split_internal(
        self,
        id: PageId,
        left: BPlusTreeNode<K, V>,
        r: PageId,
        right: BPlusTreeNode<K, V>,
        sep: K,
    ) -> Self {
        Shape {
            pages: self.pages.insert(r, right).insert(id, left),
            place: reparent(self.place, right.child_seq(), r).insert(
                r,
                Place { lo: Some(sep), ..self.place[id] },
            ).insert(id, Place { hi: Some(sep), ..self.place[id] }),
            chain: self.chain,
            root: self.root,
        }
    }

    /// An internal node split at its key `mid`, which its parent does not know of yet.
    pub proof fn lemma_split_internal(
        self,
        id: PageId,
        mid: int,
        left: BPlusTreeNode<K, V>,
        r: PageId,
        right: BPlusTreeNode<K, V>,
    )
        requires
            lawful::<K>(),
            self.tree_ok(None),
            self.chain_ok(),
            self.pages.contains_key(id),
            !self.is_leaf(id),
            !self.pages.contains_key(r),
            0 <= mid < self.keys(id).len(),
            left is Internal,
            left.key_seq() == self.keys(id).take(mid),
            left.child_seq() == self.kids(id).take(mid + 1),
            right is Internal,
            right.key_seq() == self.keys(id).skip(mid + 1),
            right.child_seq() == self.kids(id).skip(mid + 1),
        ensures
            ({
                let s2 = self.split_internal(id, left, r, right, self.keys(id)[mid]);
                &&& s2.tree_ok(Some(Halves { left: id, right: r }))
                &&& s2.chain_ok()
                &&& s2.entries() == self.entries()
            }),
    {
        reveal(Shape::tree_ok);
        reveal(Shape::chain_ok);
        let ks = self.keys(id);
        let cs = self.kids(id);
        let sep = ks[mid];
        let s2 = self.split_internal(id, left, r, right, sep);
        let pend = Some(Halves { left: id, right: r });
        let p = self.place[id];
        assert(self.node_ok(None, id));
        self.lemma_kids_distinct(None, id);
        assert(s2.place.dom() =~= s2.pages.dom());
        assert(self.root != Some(r));
        assert(raised(p.lo, sep) && capped(sep, p.hi));
        assert forall|x: PageId| right.child_seq().contains(x) implies self.pages.contains_key(x)
            && self.place[x].level + 1 == p.level && self.place[x].up == Some(id) by {
            let j = right.child_seq().index_of(x);
            assert(x == cs[mid + 1 + j]);
            assert(self.link_ok(None, id, mid + 1 + j));
        }
        assert(!right.child_seq().contains(id) && !right.child_seq().contains(r));
        assert forall|x: PageId| #[trigger] self.pages.contains_key(x) && x != id implies {
            &&& s2.place[x].level == self.place[x].level
            &&& s2.place[x].lo == self.place[x].lo
            &&& s2.place[x].hi == self.place[x].hi
            &&& s2.place[x].up == (if right.child_seq().contains(x) {
                Some(r)
            } else {
                self.place[x].up
            })
        } by {}
        assert(s2.node_ok(pend, id)) by {
            assert(sorted(left.key_seq()));
            assert forall|j: int| 0 <= j < left.key_seq().len() implies raised(
                p.lo,
                #[trigger] left.key_seq()[j],
            ) && capped(left.key_seq()[j], Some(sep)) by {
                assert(left.key_seq()[j] == ks[j]);
                assert(before(ks[j], ks[mid]));
            }
            assert forall|j: int| 0 <= j < s2.kids(id).len() implies #[trigger] s2.link_ok(
                pend,
                id,
                j,
            ) by {
                assert(self.link_ok(None, id, j));
                let c = cs[j];
                assert(s2.kids(id)[j] == c);
                assert(!right.child_seq().contains(c)) by {
                    if right.child_seq().contains(c) {
                        let k = right.child_seq().index_of(c);
                        assert(cs[mid + 1 + k] == c);
                    }
                }
            }
        }
        assert(s2.node_ok(pend, r)) by {
            assert(sorted(right.key_seq()));
            assert forall|j: int| 0 <= j < right.key_seq().len() implies raised(
                Some(sep),
                #[trigger] right.key_seq()[j],
            ) && capped(right.key_seq()[j], p.hi) by {
                assert(right.key_seq()[j] == ks[mid + 1 + j]);
                assert(before(ks[mid], ks[mid + 1 + j]));
            }
            assert forall|j: int| 0 <= j < s2.kids(r).len() implies #[trigger] s2.link_ok(
                pend,
                r,
                j,
            ) by {
                assert(self.link_ok(None, id, mid + 1 + j));
                assert(right.child_seq()[j] == cs[mid + 1 + j]);
                assert(right.child_seq().contains(cs[mid + 1 + j]));
            }
        }
        assert forall|x: PageId| #[trigger] s2.pages.contains_key(x) implies s2.node_ok(pend, x) by {
            if x != id && x != r {
                assert(self.pages.contains_key(x));
                assert(self.node_ok(None, x));
                assert forall|j: int| 0 <= j < s2.kids(x).len() implies #[trigger] s2.link_ok(
                    pend,
                    x,
                    j,
                ) by {
                    assert(self.link_ok(None, x, j));
                }
            }
        }
        assert forall|x: PageId| #[trigger]
            s2.pages.contains_key(x) && x != r implies s2.up_ok(pend, x) by {
            assert(self.pages.contains_key(x));
            assert(self.up_ok(None, x));
            if self.place[x].up == Some(id) && self.root != Some(x) {
                let j = cs.index_of(x);
                if j <= mid {
                    assert(left.child_seq()[j] == x);
                    assert(!right.child_seq().contains(x)) by {
                        if right.child_seq().contains(x) {
                            let k = right.child_seq().index_of(x);
                            assert(cs[mid + 1 + k] == x);
                        }
                    }
                } else {
                    assert(right.child_seq()[j - mid - 1] == x);
                }
            }
        }
        assert forall|i: int| 0 <= i < self.chain.len() implies {
            let x = #[trigger] self.chain[i];
            &&& s2.pages.contains_key(x)
            &&& s2.pages[x] == self.pages[x]
            &&& s2.place[x].lo == self.place[x].lo
            &&& s2.place[x].hi == self.place[x].hi
        } by {
            assert(self.pages.contains_key(self.chain[i]) && self.is_leaf(self.chain[i]));
        }
        self.lemma_chain_kept(s2);
    }
}

impl<K: Ord + Clone, V> Shape<K, V> {
    /// A lone leaf `id` as the root.
    pub open spec fn plant(self, id: PageId, node: BPlusTreeNode<K, V>) -> Self {
        Shape {
            pages: self.pages.insert(id, node),
            place: self.place.insert(id, Place { level: 0, lo: None, hi: None, up: None }),
            chain: seq![id],
            root: Some(id),
        }
    }

    /// A tree without a root holds nothing.
    pub proof fn lemma_empty(self)
        requires
            self.tree_ok(None),
            self.chain_ok(),
            self.root is None,
        ensures
            self.chain == Seq::<PageId>::empty(),
            self.entries() == Seq::<(K, V)>::empty(),
    {
        reveal(Shape::tree_ok);
        reveal(Shape::chain_ok);
        if self.chain.len() > 0 {
            assert(self.pages.contains_key(self.chain[0]));
        }
        assert(self.chain =~= Seq::<PageId>::empty());
    }

    /// The first entry of a tree.
    pub proof fn lemma_plant(self, id: PageId, node: BPlusTreeNode<K, V>)
        requires
            self.tree_ok(None),
            self.chain_ok(),
            self.root is None,
            node is Leaf,
            node->next is None,
            node.key_seq().len() == 1,
            node.value_seq().len() == 1,
        ensures
            self.plant(id, node).tree_ok(None),
            self.plant(id, node).chain_ok(),
            self.plant(id, node).entries() == stored(
                self.entries(),
                node.key_seq()[0],
                node.value_seq()[0],
            ),
            !holds(self.entries(), node.key_seq()[0]),
            forall|x: PageId| #[trigger] self.plant(id, node).pages.contains_key(x) ==> x == id,
    {
        reveal(Shape::tree_ok);
        reveal(Shape::chain_ok);
        let s1 = self.plant(id, node);
        self.lemma_empty();
        assert(self.pages =~= Map::empty());
        assert(s1.place.dom() =~= s1.pages.dom());
        assert(s1.node_ok(None, id));
        assert(s1.chain[0] == id);
        lemma_flat_one(s1.pages, id);
        assert(s1.entries() =~= self.entries().insert(0, node.entry_seq()[0]));
    }

    /// Another value for key `idx` of leaf `i`, which has the rank of `key`.
    pub proof fn lemma_leaf_replace(
        self,
        i: int,
        idx: int,
        key: K,
        value: V,
        node: BPlusTreeNode<K, V>,
    )
        requires
            lawful::<K>(),
            self.tree_ok(None),
            self.chain_ok(),
            0 <= i < self.chain.len(),
            floored(self.place[self.chain[i]].lo, key),
            capped(key, self.place[self.chain[i]].hi),
            0 <= idx < self.keys(self.chain[i]).len(),
            forall|j: int| 0 <= j < idx ==> before(#[trigger] self.keys(self.chain[i])[j], key),
            same(key, self.keys(self.chain[i])[idx]),
            node is Leaf,
            node->next == self.pages[self.chain[i]]->next,
            node.key_seq() == self.keys(self.chain[i]),
            node.value_seq() == self.pages[self.chain[i]].value_seq().update(idx, value),
        ensures
            self.write(self.chain[i], node).tree_ok(None),
            self.write(self.chain[i], node).chain_ok(),
            holds(self.entries(), key),
            self.write(self.chain[i], node).entries() == stored(self.entries(), key, value),
    {
        let id = self.chain[i];
        let pre = flat(self.pages, self.chain.take(i));
        let post = flat(self.pages, self.chain.skip(i + 1));
        self.lemma_chain_at(i);
        self.lemma_page(None, id);
        self.lemma_rank_in_leaf(i, key, idx);
        self.lemma_leaf_write(i, node);
        let mid = self.pages[id].entry_seq();
        assert(node.entry_seq() =~= mid.update(idx, (mid[idx].0, value)));
        assert(pre + node.entry_seq() + post =~= stored(self.entries(), key, value));
    }

    /// A new entry at position `pos` of leaf `i`.
    #[verifier::rlimit(40)]
    pub proof fn lemma_leaf_insert(
        self,
        i: int,
        pos: int,
        key: K,
        value: V,
        node: BPlusTreeNode<K, V>,
    )
        requires
            lawful::<K>(),
            self.tree_ok(None),
            self.chain_ok(),
            0 <= i < self.chain.len(),
            floored(self.place[self.chain[i]].lo, key),
            capped(key, self.place[self.chain[i]].hi),
            0 <= pos <= self.keys(self.chain[i]).len(),
            forall|j: int| 0 <= j < pos ==> before(#[trigger] self.keys(self.chain[i])[j], key),
            forall|j: int|
                pos <= j < self.keys(self.chain[i]).len() ==> before(
                    key,
                    #[trigger] self.keys(self.chain[i])[j],
                ),
            node is Leaf,
            node->next == self.pages[self.chain[i]]->next,
            node.key_seq() == self.keys(self.chain[i]).insert(pos, key),
            node.value_seq() == self.pages[self.chain[i]].value_seq().insert(pos, value),
        ensures
            self.write(self.chain[i], node).tree_ok(None),
            self.write(self.chain[i], node).chain_ok(),
            !holds(self.entries(), key),
            self.write(self.chain[i], node).entries() == stored(self.entries(), key, value),
    {
        let id = self.chain[i];
        let ks = self.keys(id);
        let pre = flat(self.pages, self.chain.take(i));
        let post = flat(self.pages, self.chain.skip(i + 1));
        self.lemma_chain_at(i);
        self.lemma_page(None, id);
        if pos < ks.len() {
            crate::order::lemma_before_asymmetric(key, ks[pos]);
        }
        self.lemma_rank_in_leaf(i, key, pos);
        self.lemma_leaf_write(i, node);
        assert(node.entry_seq() =~= self.pages[id].entry_seq().insert(pos, (key, value)));
        assert(pre + node.entry_seq() + post =~= stored(self.entries(), key, value));
    }

    /// The root is as far above a page as the stack is long.
    pub proof fn lemma_height(self, stack: Seq<PageId>, id: PageId)
        requires
            self.stack_ok(stack, id),
        ensures
            self.root is Some,
            self.pages.contains_key(id),
            self.place[self.root->0].level == self.place[id].level + stack.len(),
    {
        assert(stack.push(id)[stack.len() as int] == id);
        assert(self.pages.contains_key(stack.push(id)[0]));
    }
}

impl<K: Ord + Clone, V> Shape<K, V> {
    /// What stands above the parent.
    pub proof fn lemma_stack_up(self, stack: Seq<PageId>, id: PageId)
        requires
            self.stack_ok(stack, id),
            stack.len() > 0,
        ensures
            self.stack_ok(stack.drop_last(), stack.last()),
            self.place[id].up == Some(stack.last()),
            self.pages.contains_key(stack.last()),
            self.place[stack.last()].level == self.place[id].level + 1,
    {
        let path = stack.push(id);
        let above = stack.drop_last();
        let path2 = above.push(stack.last());
        assert(path2 =~= stack);
        assert(path[stack.len() as int] == id);
        assert(path[stack.len() - 1] == stack.last());
        assert forall|i: int| 0 <= i < path2.len() implies path2[i] == path[i] by {}
    }

    /// Pages that keep level and parent stay on the stack.
    pub proof fn lemma_stack_kept(self, s2: Self, stack: Seq<PageId>, id: PageId)
        requires
            self.stack_ok(stack, id),
            s2.root == self.root,
            forall|x: PageId| #[trigger]
                self.pages.contains_key(x) && self.place[x].level >= self.place[id].level ==> {
                    &&& s2.pages.contains_key(x)
                    &&& s2.place[x].level == self.place[x].level
                    &&& s2.place[x].up == self.place[x].up
                },
        ensures
            s2.stack_ok(stack, id),
    {
        let path = stack.push(id);
        assert(path[stack.len() as int] == id);
        assert(self.pages.contains_key(id));
        assert forall|i: int| 0 <= i < path.len() implies s2.pages.contains_key(#[trigger] path[i])
            && s2.place[path[i]].level == s2.place[id].level + (stack.len() - i) by {
            assert(self.pages.contains_key(path[i]));
        }
        assert forall|i: int, j: int|
            0 <= i && j == i + 1 && j < path.len() implies s2.place[#[trigger] path[j]].up == Some(
            #[trigger] path[i],
        ) by {
            assert(self.pages.contains_key(path[j]));
        }
    }

    /// Whether nodes split depends on how many keys they hold.
    pub proof fn lemma_splits_kept(self, s2: Self, max: nat, path: Seq<PageId>)
        requires
            forall|i: int|
                0 <= i < path.len() ==> s2.keys(#[trigger] path[i]).len() == self.keys(
                    path[i],
                ).len(),
        ensures
            s2.splits(max, path) == self.splits(max, path),
        decreases path.len(),
    {
        if path.len() > 0 {
            assert(path.last() == path[path.len() - 1]);
            assert forall|i: int| 0 <= i < path.drop_last().len() implies s2.keys(
                #[trigger] path.drop_last()[i],
            ).len() == self.keys(path.drop_last()[i]).len() by {
                assert(path.drop_last()[i] == path[i]);
            }
            self.lemma_splits_kept(s2, max, path.drop_last());
        }
    }
}

impl<K: Ord + Clone, V> Shape<K, V> {
    /// A page is not among the pages above it.
    pub proof fn lemma_stack_apart(self, stack: Seq<PageId>, id: PageId)
        requires
            self.stack_ok(stack, id),
        ensures
            !stack.contains(id),
            forall|x: int| 0 <= x < stack.len() ==> self.pages.contains_key(#[trigger] stack[x]),
    {
        let path = stack.push(id);
        assert(path[stack.len() as int] == id);
        assert forall|x: int| 0 <= x < stack.len() implies self.pages.contains_key(
            #[trigger] stack[x],
        ) && stack[x] != id by {
            assert(path[x] == stack[x]);
            assert(self.place[path[x]].level == self.place[id].level + (stack.len() - x));
        }
    }

    /// What a step at page `id` with the new page `r` left alone, and the steps above it too.
    pub proof fn lemma_kept_through(
        self,
        s1: Self,
        s2: Self,
        stack: Seq<PageId>,
        id: PageId,
        r: PageId,
    )
        requires
            !stack.contains(id),
            !stack.contains(r),
            s1.pages.contains_key(id),
            s1.pages.contains_key(r),
            forall|x: PageId| #[trigger]
                self.pages.contains_key(x) && x != id ==> s1.pages.contains_key(x) && s1.pages[x]
                    == self.pages[x],
            s1.kept(s2, stack),
        ensures
            self.kept(s2, stack.push(id)),
            s2.pages.contains_key(id),
            s2.pages.contains_key(r),
            s2.pages[id] == s1.pages[id],
            s2.pages[r] == s1.pages[r],
    {
        assert forall|x: PageId| #[trigger]
            self.pages.contains_key(x) && !stack.push(id).contains(x) implies s2.pages.contains_key(x)
            && s2.pages[x] == self.pages[x] by {
            if x == id {
                assert(stack.push(id)[stack.len() as int] == id);
            }
            if stack.contains(x) {
                let i = stack.index_of(x);
                assert(stack.push(id)[i] == x);
            }
            assert(s1.pages.contains_key(x));
        }
    }

    /// What happens above a split depends on the nodes above it alone.
    pub proof fn lemma_adopted_same(
        self,
        s1: Self,
        after: Self,
        max: nat,
        left: PageId,
        right: PageId,
        sep: K,
        stack: Seq<PageId>,
        fresh: int,
    )
        requires
            s1.root == self.root,
            forall|i: int|
                0 <= i < stack.len() ==> s1.pages[#[trigger] stack[i]] == self.pages[stack[i]]
                    && s1.pages.contains_key(stack[i]) == self.pages.contains_key(stack[i]),
        ensures
            s1.climbs(max, stack) == self.climbs(max, stack),
            s1.adopted(after, max, left, right, sep, stack, fresh) == self.adopted(
                after,
                max,
                left,
                right,
                sep,
                stack,
                fresh,
            ),
        decreases stack.len(),
    {
        if stack.len() > 0 {
            let q = stack.last();
            assert(stack[stack.len() - 1] == q);
            let at = turn(self.keys(q), sep) as int;
            let keys = self.keys(q).insert(at, sep);
            assert forall|i: int| 0 <= i < stack.drop_last().len() implies s1.pages[
            #[trigger] stack.drop_last()[i]] == self.pages[stack.drop_last()[i]]
                && s1.pages.contains_key(stack.drop_last()[i]) == self.pages.contains_key(
                stack.drop_last()[i],
            ) by {
                assert(stack.drop_last()[i] == stack[i]);
            }
            self.lemma_adopted_same(
                s1,
                after,
                max,
                q,
                fresh as PageId,
                keys[keys.len() as int / 2],
                stack.drop_last(),
                fresh + 1,
            );
        }
    }

    /// A split of an internal node leaves what stands above it where it is.
    pub proof fn lemma_split_above(
        self,
        id: PageId,
        mid: int,
        left: BPlusTreeNode<K, V>,
        r: PageId,
        right: BPlusTreeNode<K, V>,
        max: nat,
        stack: Seq<PageId>,
    )
        requires
            self.tree_ok(None),
            self.pages.contains_key(id),
            !self.is_leaf(id),
            !self.pages.contains_key(r),
            0 <= mid < self.keys(id).len(),
            right.child_seq() == self.kids(id).skip(mid + 1),
            self.stack_ok(stack, id),
        ensures
            self.split_internal(id, left, r, right, self.keys(id)[mid]).stack_ok(stack, id),
            self.split_internal(id, left, r, right, self.keys(id)[mid]).splits(max, stack)
                == self.splits(max, stack),
    {
        let s1 = self.split_internal(id, left, r, right, self.keys(id)[mid]);
        self.lemma_page(None, id);
        assert forall|x: PageId| #[trigger]
            self.pages.contains_key(x) && self.place[x].level >= self.place[id].level implies {
            &&& s1.pages.contains_key(x)
            &&& s1.place[x].level == self.place[x].level
            &&& s1.place[x].up == self.place[x].up
        } by {
            self.lemma_page(None, x);
            if right.child_seq().contains(x) {
                let j = right.child_seq().index_of(x);
                assert(self.link_ok(None, id, mid + 1 + j));
            }
        }
        self.lemma_stack_kept(s1, stack, id);
        self.lemma_stack_apart(stack, id);
        assert forall|x: int| 0 <= x < stack.len() implies s1.keys(#[trigger] stack[x]).len()
            == self.keys(stack[x]).len() by {
            assert(stack.contains(stack[x]));
        }
        self.lemma_splits_kept(s1, max, stack);
    }
}

impl<K: Ord + Clone, V> Shape<K, V> {
    /// Where a key belongs in a leaf.
    pub proof fn lemma_rank_of_leaf(self, id: PageId, key: K, at: int)
        requires
            0 <= at <= self.keys(id).len(),
            forall|j: int| 0 <= j < at ==> before(#[trigger] self.keys(id)[j], key),
            at < self.keys(id).len() ==> !before(self.keys(id)[at], key),
        ensures
            rank(self.pages[id].entry_seq(), key) == at,
            holds(self.pages[id].entry_seq(), key) <==> at < self.keys(id).len() && !before(
                key,
                self.keys(id)[at],
            ),
    {
        let entries = self.pages[id].entry_seq();
        assert forall|i: int| 0 <= i < at implies before((#[trigger] entries[i]).0, key) by {
            assert(before(self.keys(id)[i], key));
        }
        lemma_rank(entries, key, at);
    }

    /// A leaf that took an entry in and was split.
    pub proof fn lemma_grown(
        self,
        s1: Self,
        after: Self,
        max: nat,
        stack: Seq<PageId>,
        id: PageId,
        key: K,
        value: V,
        at: int,
        fresh: PageId,
        sep: K,
    )
        requires
            self.pages.contains_key(id),
            self.is_leaf(id),
            self.stack_ok(stack, id),
            s1.root == self.root,
            s1.is_leaf(id),
            s1.pages[id]->next == self.pages[id]->next,
            rank(self.pages[id].entry_seq(), key) == at,
            !holds(self.pages[id].entry_seq(), key),
            s1.keys(id) == self.keys(id).insert(at, key),
            s1.pages[id].value_seq() == self.pages[id].value_seq().insert(at, value),
            s1.keys(id).len() > max,
            forall|x: PageId| #[trigger]
                self.pages.contains_key(x) && x != id ==> s1.pages.contains_key(x) && s1.pages[x]
                    == self.pages[x],
            s1.kept(after, stack.push(id)),
            s1.halved_leaf(after, id, fresh),
            cloned(after.keys(fresh)[0], sep),
            s1.adopted(after, max, id, fresh, sep, stack, fresh + 1),
            s1.keys(id).len() >= 2,
        ensures
            self.grown(after, max, stack.push(id), key, value, fresh as int),
    {
        let path = stack.push(id);
        let keys = s1.keys(id);
        let mid = keys.len() as int / 2;
        self.lemma_stack_apart(stack, id);
        assert(path.drop_last() =~= stack);
        assert(path.last() == id);
        assert forall|x: int| 0 <= x < stack.len() implies s1.pages[#[trigger] stack[x]]
            == self.pages[stack[x]] && s1.pages.contains_key(stack[x]) == self.pages.contains_key(
            stack[x],
        ) by {
            assert(stack.contains(stack[x]));
            assert(self.pages.contains_key(stack[x]));
        }
        self.lemma_adopted_same(s1, after, max, id, fresh, sep, stack, fresh + 1);
        assert(after.keys(fresh)[0] == keys[mid]);
        assert(cloned(keys[mid], sep));
        assert(self.kept(after, path)) by {
            assert forall|x: PageId| #[trigger]
                self.pages.contains_key(x) && !path.contains(x) implies after.pages.contains_key(x)
                && after.pages[x] == self.pages[x] by {
                assert(path[stack.len() as int] == id);
                assert(s1.pages.contains_key(x));
            }
        }
    }

    /// A leaf that took an entry in.
    pub proof fn lemma_grown_leaf(
        self,
        after: Self,
        max: nat,
        stack: Seq<PageId>,
        id: PageId,
        key: K,
        value: V,
        at: int,
        fresh: int,
    )
        requires
            self.pages.contains_key(id),
            after.root == self.root,
            rank(self.pages[id].entry_seq(), key) == at,
            if holds(self.pages[id].entry_seq(), key) {
                after.has_leaf(
                    id,
                    self.keys(id),
                    self.pages[id].value_seq().update(at, value),
                    self.pages[id]->next,
                )
            } else {
                &&& self.keys(id).insert(at, key).len() <= max
                &&& after.has_leaf(
                    id,
                    self.keys(id).insert(at, key),
                    self.pages[id].value_seq().insert(at, value),
                    self.pages[id]->next,
                )
            },
            forall|x: PageId| #[trigger]
                self.pages.contains_key(x) && x != id ==> after.pages.contains_key(x)
                    && after.pages[x] == self.pages[x],
        ensures
            self.grown(after, max, stack.push(id), key, value, fresh),
    {
        assert(self.kept(after, seq![id])) by {
            assert forall|x: PageId| #[trigger]
                self.pages.contains_key(x) && !seq![id].contains(x) implies after.pages.contains_key(
            x) && after.pages[x] == self.pages[x] by {
                assert(seq![id][0] == id);
            }
        }
    }
}

} // verus!
