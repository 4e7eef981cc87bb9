//! Scans of the entries in key order, along the chain of leaves.

use super::entries::{
    ascending, chosen, holds, lemma_chosen_all, lemma_chosen_first, lemma_chosen_none,
    lemma_chosen_same, lemma_rank_bounds, rank,
};
use super::search::binary_search;
use super::shape::{flat, lemma_flat_at, Shape};
use super::{heads, BPlusTree, BPlusTreeNode, PageId};
use crate::order::{before, group_order, is_before, lawful, lemma_clone_same};
use crate::range::{exceeds, owned, reaches, KeyRange};
use core::ops::Bound;
use vstd::prelude::*;

verus! {

impl<K: Ord + Clone, V> Shape<K, V> {
    /// The first entry of leaf `id`, counted over the whole tree.
    pub open spec fn start_of(self, id: PageId) -> int {
        flat(self.pages, self.chain.take(self.chain.index_of(id))).len() as int
    }

    /// The entries of a leaf stand together among the entries of the tree, and those of the leaf
    /// to its right follow them.
    pub proof fn lemma_start_of(self, id: PageId)
        requires
            self.tree_ok(None),
            self.chain_ok(),
            self.pages.contains_key(id),
            self.is_leaf(id),
        ensures
            0 <= self.chain.index_of(id) < self.chain.len(),
            0 <= self.start_of(id),
            self.start_of(id) + self.keys(id).len() <= self.entries().len(),
            forall|j: int|
                0 <= j < self.keys(id).len() ==> #[trigger] self.entries()[self.start_of(id) + j]
                    == self.pages[id].entry_seq()[j],
            self.pages[id]->next is None ==> self.start_of(id) + self.keys(id).len()
                == self.entries().len(),
            self.pages[id]->next matches Some(n) ==> {
                &&& self.pages.contains_key(n)
                &&& self.is_leaf(n)
                &&& self.start_of(n) == self.start_of(id) + self.keys(id).len()
                &&& self.chain.index_of(n) == self.chain.index_of(id) + 1
                &&& self.chain.index_of(n) < self.chain.len()
            },
    {
        let i = self.lemma_leaf(id);
        reveal(Shape::chain_ok);
        let c = self.chain;
        assert(c.index_of(id) == i);
        lemma_flat_at(self.pages, c, i);
        if i + 1 < c.len() {
            let n = c[i + 1];
            assert(self.pages[c[i]]->next == Some(n));
            assert(c.index_of(n) == i + 1);
            assert(c.take(i + 1).drop_last() =~= c.take(i));
            assert(c.take(i + 1).last() == id);
            assert(self.is_leaf(c[i + 1]));
        } else {
            assert(c.last() == id);
            assert(c.skip(i + 1) =~= Seq::<PageId>::empty());
            assert(flat(self.pages, c.skip(i + 1)) =~= Seq::<(K, V)>::empty());
        }
    }

    /// The entries up to leaf `n` are in key order.
    proof fn lemma_ascending_to(self, n: int)
        requires
            lawful::<K>(),
            self.tree_ok(None),
            self.chain_ok(),
            0 <= n <= self.chain.len(),
        ensures
            ascending(flat(self.pages, self.chain.take(n))),
        decreases n,
    {
        broadcast use group_order;

        let c = self.chain;
        if n > 0 {
            self.lemma_ascending_to(n - 1);
            self.lemma_sides(None, n - 1);
            assert(self.pages.contains_key(c[n - 1]) && self.is_leaf(c[n - 1])) by {
                reveal(Shape::chain_ok);
            }
            self.lemma_page(None, c[n - 1]);
            assert(c.take(n).drop_last() =~= c.take(n - 1));
            let pre = flat(self.pages, c.take(n - 1));
            let mid = self.pages[c[n - 1]].entry_seq();
            let both = flat(self.pages, c.take(n));
            assert(both == pre + mid);
            assert forall|i: int, j: int| 0 <= i < j < both.len() implies before(
                (#[trigger] both[i]).0,
                (#[trigger] both[j]).0,
            ) by {
                if j < pre.len() {
                    assert(before(pre[i].0, pre[j].0));
                } else {
                    let b = j - pre.len();
                    assert(mid[b].0 == self.keys(c[n - 1])[b]);
                    if i < pre.len() {
                        assert(before(pre[i].0, self.place[c[n - 1]].lo->0));
                    } else {
                        let a = i - pre.len();
                        assert(mid[a].0 == self.keys(c[n - 1])[a]);
                    }
                }
            }
        } else {
            assert(c.take(0) =~= Seq::<PageId>::empty());
        }
    }

    /// The entries of a tree are in key order.
    pub proof fn lemma_ascending(self)
        requires
            lawful::<K>(),
            self.tree_ok(None),
            self.chain_ok(),
        ensures
            ascending(self.entries()),
    {
        self.lemma_ascending_to(self.chain.len() as int);
        assert(self.chain.take(self.chain.len() as int) =~= self.chain);
    }

    /// The leaf with no lower bound is the first one.
    pub proof fn lemma_leftmost(self, id: PageId)
        requires
            self.tree_ok(None),
            self.chain_ok(),
            self.pages.contains_key(id),
            self.is_leaf(id),
            self.place[id].lo is None,
        ensures
            self.start_of(id) == 0,
    {
        let i = self.lemma_leaf(id);
        reveal(Shape::chain_ok);
        if i > 0 {
            assert(self.place[self.chain[i - 1]].hi == self.place[self.chain[i]].lo);
        }
        assert(self.chain.index_of(id) == i);
        assert(self.chain.take(0) =~= Seq::<PageId>::empty());
        assert(flat(self.pages, self.chain.take(0)) =~= Seq::<(K, V)>::empty());
    }
}

/// Ordered iterator over the entries of a [`BPlusTree`].
///
/// Walks the leaf `next` chain from left to right, so keys come out in sorted order. The iterator
/// borrows the tree, and yielded references stay valid for that borrow.
///
/// Created by [`BPlusTree::iter`] and [`BPlusTree::range`].
///
/// # Examples
///
/// ```
/// use libnucleus::BPlusTree;
///
/// let mut tree = BPlusTree::new(3);
/// for k in [3, 1, 2] {
///     tree.insert(k, k * 10).unwrap();
/// }
/// let mut iter = tree.iter();
/// assert_eq!(iter.next(), Some((&1, &10)));
/// assert_eq!(iter.next(), Some((&2, &20)));
/// assert_eq!(iter.next(), Some((&3, &30)));
/// assert_eq!(iter.next(), None);
/// ```
#[verifier::reject_recursive_types(K)]
#[verifier::reject_recursive_types(V)]
pub struct Iter<'a, K: Ord + Clone, V> {
    tree: &'a BPlusTree<K, V>,
    leaf: Option<PageId>,
    pos: usize,
    end: Bound<K>,
}

impl<'a, K: Ord + Clone, V> Iter<'a, K, V> {
    /// The iterator stands on an entry of a well-formed tree, or has come to an end.
    pub closed spec fn wf(&self) -> bool {
        self.ended() || self.tree.wf() && self.tree.marks(self.leaf, self.pos)
    }

    /// The iterator has come to an end: there is no next leaf, or what is named as the next leaf is
    /// an unknown page or no leaf.
    pub closed spec fn ended(&self) -> bool {
        self.leaf matches Some(id) ==> !self.tree.shape().held_leaf(id)
    }

    /// How many entries of the tree are behind the iterator.
    spec fn passed(&self) -> int {
        self.tree.offset(self.leaf, self.pos)
    }

    /// The entries that are still to come, in key order.
    pub closed spec fn remaining(&self) -> Seq<(K, V)> {
        let end = self.end;
        if self.ended() {
            Seq::empty()
        } else {
            chosen(self.tree.entries().skip(self.passed()), |k: K| !exceeds(k, end))
        }
    }
}

impl<'a, K: Ord + Clone, V> Iter<'a, K, V> {
    /// The next entry, or `None` once all of them came.
    pub fn next(&mut self) -> (entry: Option<(&'a K, &'a V)>)
        requires
            lawful::<K>(),
            old(self).wf(),
        ensures
            final(self).wf(),
            match entry {
                Some((k, v)) => {
                    &&& old(self).remaining().len() > 0
                    &&& (*k, *v) == old(self).remaining()[0]
                    &&& final(self).remaining() == old(self).remaining().drop_first()
                },
                None => old(self).remaining().len() == 0 && final(self).remaining().len() == 0,
            },
    {
        let tree: &'a BPlusTree<K, V> = self.tree;
        let ghost s = tree.shape();
        let ghost all = tree.entries();
        let ghost end = self.end;
        let ghost keep = |k: K| !exceeds(k, end);
        loop
            invariant
                lawful::<K>(),
                self.wf(),
                self.tree == tree,
                s == tree.shape(),
                all == tree.entries(),
                self.end == end,
                keep == (|k: K| !exceeds(k, end)),
                self.remaining() == old(self).remaining(),
            decreases (match self.leaf {
                Some(id) => s.chain.len() - s.chain.index_of(id),
                None => 0,
            }),
        {
            let id: PageId = match self.leaf {
                Some(id) => id,
                None => {
                    proof {
                        lemma_chosen_end(all, keep);
                    }
                    return None;
                },
            };
            proof {
                if !self.ended() {
                    s.lemma_page(None, id);
                    s.lemma_start_of(id);
                }
            }
            let ghost at = self.passed();
            match tree.pager.get(id) {
                Some(BPlusTreeNode::Leaf { keys, values, next }) => {
                    if self.pos < keys.len() {
                        let key: &'a K = &keys[self.pos];
                        let past_end: bool = match &self.end {
                            Bound::Unbounded => false,
                            Bound::Included(e) => is_before(e, key),
                            Bound::Excluded(e) => !is_before(key, e),
                        };
                        assert(all[at] == s.pages[id].entry_seq()[self.pos as int]);
                        if past_end {
                            self.leaf = None;
                            proof {
                                s.lemma_ascending();
                                lemma_ends_here(all, at, end);
                                lemma_chosen_end(all, keep);
                            }
                            return None;
                        }
                        let value: &'a V = &values[self.pos];
                        proof {
                            lemma_chosen_first(all.skip(at), keep);
                            assert(all.skip(at).drop_first() =~= all.skip(at + 1));
                        }
                        self.pos += 1;
                        return Some((key, value));
                    }
                    self.leaf = *next;
                    self.pos = 0;
                },
                _ => {
                    return None;
                },
            }
        }
    }
}

impl<K: Ord + Clone, V> BPlusTree<K, V> {
    /// How many entries are to the left of position `pos` of `leaf`.
    spec fn offset(&self, leaf: Option<PageId>, pos: usize) -> int {
        match leaf {
            Some(id) => self.shape().start_of(id) + pos,
            None => self.entries().len() as int,
        }
    }

    /// `leaf` is a leaf with a position `pos` in it or at its end.
    spec fn marks(&self, leaf: Option<PageId>, pos: usize) -> bool {
        leaf matches Some(id) ==> {
            &&& self.shape().pages.contains_key(id)
            &&& self.shape().is_leaf(id)
            &&& pos <= self.shape().keys(id).len()
        }
    }

    /// The position of the first key at or after `key`, or of the first one after `key`.
    fn seek(&self, key: &K, inclusive: bool) -> (found: (Option<PageId>, usize))
        requires
            lawful::<K>(),
            self.wf() || self.misled(*key),
        ensures
            !self.wf() ==> found.0 is None,
            self.wf() ==> self.marks(found.0, found.1) && parts(
                self.entries(),
                self.offset(found.0, found.1),
                if inclusive {
                    Bound::Included(*key)
                } else {
                    Bound::Excluded(*key)
                },
            ),
    {
        let ghost s = self.shape();
        let ghost all = self.entries();
        match self.find_leaf(key) {
            Ok(Some((id, _))) => {
                proof {
                    s.lemma_page(None, id);
                    s.lemma_ascending();
                    s.lemma_start_of(id);
                }
                let ghost i = s.lemma_leaf(id);
                assert(s.chain.index_of(id) == i) by {
                    reveal(Shape::chain_ok);
                }
                match self.pager.get(id) {
                    Some(BPlusTreeNode::Leaf { keys, .. }) => match binary_search(keys, key) {
                        Ok(at) => {
                            proof {
                                s.lemma_rank_in_leaf(i, *key, at as int);
                                lemma_seek(all, *key);
                            }
                            (Some(id), if inclusive {
                                at
                            } else {
                                at + 1
                            })
                        },
                        Err(at) => {
                            proof {
                                broadcast use group_order;

                                s.lemma_rank_in_leaf(i, *key, at as int);
                                lemma_seek(all, *key);
                            }
                            (Some(id), at)
                        },
                    },
                    _ => (None, 0),
                }
            },
            Ok(None) => {
                proof {
                    s.lemma_empty();
                }
                (None, 0)
            },
            Err(_) => (None, 0),
        }
    }

    /// The first leaf from the left.
    fn leftmost_leaf(&self) -> (leaf: Option<PageId>)
        requires
            self.wf() || self.astray(),
        ensures
            self.root is None || !self.wf() ==> leaf is None,
            self.root is Some && self.wf() ==> {
                &&& leaf matches Some(id) && self.shape().pages.contains_key(id)
                &&& self.shape().is_leaf(leaf->0)
                &&& self.shape().place[leaf->0].lo is None
            },
    {
        let mut leaf: Option<PageId> = self.root;
        let ghost s = self.shape();
        proof {
            if self.wf() && s.root is Some {
                s.lemma_root(None);
                s.lemma_page(None, s.root->0);
            }
        }
        let ghost path = choose|path: Seq<PageId>| #[trigger] self.strays_left(path);
        let ghost mut at: int = 0;
        loop
            invariant
                s == self.shape(),
                !self.wf() ==> {
                    &&& self.strays_left(path)
                    &&& 0 <= at < path.len()
                    &&& leaf == Some(path[at])
                },
                self.root is None ==> leaf is None,
                self.root is Some && self.wf() ==> {
                    &&& leaf matches Some(id) && s.pages.contains_key(id)
                    &&& s.place[leaf->0].lo is None
                },
            decreases
                (if !self.wf() {
                    path.len() - at
                } else if leaf is Some {
                    s.place[leaf->0].level + 1int
                } else {
                    0
                }),
        {
            let id: PageId = match leaf {
                Some(id) => id,
                None => {
                    return None;
                },
            };
            proof {
                if self.wf() {
                    s.lemma_page(None, id);
                } else if at + 1 < path.len() {
                    assert(heads(self.nodes()[path[at]].child_seq(), path[at + 1]));
                    assert(self.nodes().contains_key(path[at]));
                } else {
                    assert(path.last() == id);
                }
            }
            match self.pager.get(id) {
                Some(BPlusTreeNode::Leaf { .. }) => {
                    return leaf;
                },
                Some(BPlusTreeNode::Internal { children, .. }) => {
                    if children.len() == 0 {
                        return None;
                    }
                    leaf = Some(children[0]);
                    proof {
                        if self.wf() {
                            assert(s.link_ok(None, id, 0));
                        }
                        at = at + 1;
                    }
                },
                None => {
                    return None;
                },
            }
        }
    }

    /// Iterate over all entries in sorted key order.
    ///
    /// Starts at the leftmost leaf and follows the leaf `next` chain. An empty tree yields nothing, nor
    /// does one in which the way to the leftmost leaf goes astray.
    pub fn iter(&self) -> (iter: Iter<'_, K, V>)
        requires
            self.wf() || self.astray(),
        ensures
            iter.wf(),
            self.wf() ==> iter.remaining() == self.entries(),
            !self.wf() ==> iter.remaining() == Seq::<(K, V)>::empty(),
    {
        let leaf: Option<PageId> = self.leftmost_leaf();
        let iter = Iter { tree: self, leaf, pos: 0, end: Bound::Unbounded };
        proof {
            let s = self.shape();
            if self.wf() {
                if s.root is Some {
                    s.lemma_leftmost(leaf->0);
                } else {
                    s.lemma_empty();
                }
                assert(self.entries().skip(0) =~= self.entries());
                lemma_chosen_all(self.entries(), |k: K| !exceeds(k, iter.end));
            }
        }
        iter
    }

    /// Iterate over the entries in `bounds`, in sorted key order.
    ///
    /// Accepts the same syntax as `BTreeMap::range`: `2..5`, `2..=5`, `2..`, `..5`, `..`. Seeks to
    /// the first key covered by the lower bound, then walks the leaf chain until the upper bound is
    /// passed. An empty tree, or a range matching nothing, yields nothing, nor does a tree in which
    /// every way down goes astray.
    ///
    /// # Examples
    ///
    /// ```
    /// use libnucleus::BPlusTree;
    ///
    /// let mut tree = BPlusTree::new(3);
    /// for k in 1..=6 {
    ///     tree.insert(k, k * 10).unwrap();
    /// }
    /// let mut some = tree.range(2..=3);
    /// assert_eq!(some.next(), Some((&2, &20)));
    /// assert_eq!(some.next(), Some((&3, &30)));
    /// assert_eq!(some.next(), None);
    /// ```
    pub fn range<R: KeyRange<K>>(&self, bounds: R) -> (iter: Iter<'_, K, V>)
        requires
            lawful::<K>(),
            self.wf() || self.astray() && forall|k: K| #[trigger] self.misled(k),
        ensures
            iter.wf(),
            self.wf() ==> iter.remaining() == chosen(self.entries(), |k: K| bounds.covers(k)),
            !self.wf() ==> iter.remaining() == Seq::<(K, V)>::empty(),
    {
        let (lower, upper) = bounds.ends();
        let end: Bound<K> = match upper {
            Bound::Included(k) => Bound::Included(k.clone()),
            Bound::Excluded(k) => Bound::Excluded(k.clone()),
            Bound::Unbounded => Bound::Unbounded,
        };
        let ghost s = self.shape();
        let (leaf, pos): (Option<PageId>, usize) = match lower {
            Bound::Unbounded => (self.leftmost_leaf(), 0),
            Bound::Included(k) => self.seek(k, true),
            Bound::Excluded(k) => self.seek(k, false),
        };
        let iter = Iter { tree: self, leaf, pos, end };
        proof {
            if self.wf() {
                s.lemma_ascending();
                if lower is Unbounded {
                    if s.root is Some {
                        s.lemma_leftmost(leaf->0);
                    } else {
                        s.lemma_empty();
                    }
                }
                lemma_end_cloned(owned(upper), end);
                assert(parts(self.entries(), iter.passed(), owned(lower)));
                lemma_cut(
                    self.entries(),
                    iter.passed(),
                    owned(lower),
                    end,
                    |k: K| bounds.covers(k),
                );
                if iter.ended() {
                    lemma_chosen_end(self.entries(), |k: K| !exceeds(k, end));
                }
            }
        }
        iter
    }
}

/// Behind the last entry there is none to choose.
proof fn lemma_chosen_end<K, V>(all: Seq<(K, V)>, keep: spec_fn(K) -> bool)
    ensures
        chosen(all.skip(all.len() as int), keep) == Seq::<(K, V)>::empty(),
{
    assert(all.skip(all.len() as int) =~= Seq::<(K, V)>::empty());
    lemma_chosen_none(all.skip(all.len() as int), keep);
}

/// The lower bound `start` cuts off the entries before position `at`, and no others.
spec fn parts<K: Ord, V>(all: Seq<(K, V)>, at: int, start: Bound<K>) -> bool {
    &&& 0 <= at <= all.len()
    &&& forall|i: int| 0 <= i < all.len() ==> (at <= i <==> reaches(start, (#[trigger] all[i]).0))
}

/// `key` belongs at its rank: from there on, or from the entry behind it on, the keys are the
/// later ones.
proof fn lemma_seek<K: Ord + Clone, V>(all: Seq<(K, V)>, key: K)
    requires
        lawful::<K>(),
        ascending(all),
    ensures
        parts(all, rank(all, key) as int, Bound::Included(key)),
        holds(all, key) ==> parts(all, rank(all, key) as int + 1, Bound::Excluded(key)),
        !holds(all, key) ==> parts(all, rank(all, key) as int, Bound::Excluded(key)),
{
    broadcast use group_order;

    let at = rank(all, key) as int;
    lemma_rank_bounds(all, key);
    assert forall|i: int| 0 <= i < all.len() implies (at <= i <==> !before(
        (#[trigger] all[i]).0,
        key,
    )) by {
        if at < i {
            assert(before(all[at].0, all[i].0));
        }
    }
    assert forall|i: int| at < i < all.len() implies before(key, (#[trigger] all[i]).0) by {
        assert(before(all[at].0, all[i].0));
    }
}

/// What a scan yields that starts at position `at` and ends where `end` cuts it off.
proof fn lemma_cut<K: Ord + Clone, V>(
    all: Seq<(K, V)>,
    at: int,
    start: Bound<K>,
    end: Bound<K>,
    covers: spec_fn(K) -> bool,
)
    requires
        parts(all, at, start),
        forall|k: K| #[trigger] covers(k) <==> reaches(start, k) && !exceeds(k, end),
    ensures
        chosen(all.skip(at), |k: K| !exceeds(k, end)) == chosen(all, covers),
{
    let pre = all.take(at);
    let post = all.skip(at);
    assert(all =~= pre + post);
    Seq::filter_distributes_over_add(pre, post, |e: (K, V)| covers(e.0));
    assert forall|i: int| 0 <= i < pre.len() implies !covers((#[trigger] pre[i]).0) by {
        assert(pre[i] == all[i]);
    }
    lemma_chosen_none(pre, covers);
    assert forall|i: int| 0 <= i < post.len() implies covers((#[trigger] post[i]).0) == !exceeds(
        post[i].0,
        end,
    ) by {
        assert(post[i] == all[at + i]);
    }
    lemma_chosen_same(post, covers, |k: K| !exceeds(k, end));
    assert(chosen(all, covers) =~= chosen(post, covers));
}

/// A bound and a clone of it cut off the same keys.
proof fn lemma_end_cloned<K: Ord + Clone>(a: Bound<K>, b: Bound<K>)
    requires
        lawful::<K>(),
        match (a, b) {
            (Bound::Included(x), Bound::Included(y)) => cloned(x, y),
            (Bound::Excluded(x), Bound::Excluded(y)) => cloned(x, y),
            (Bound::Unbounded, Bound::Unbounded) => true,
            _ => false,
        },
    ensures
        forall|k: K| #[trigger] exceeds(k, a) == exceeds(k, b),
{
    broadcast use group_order;

    match (a, b) {
        (Bound::Included(x), Bound::Included(y)) => lemma_clone_same(x, y),
        (Bound::Excluded(x), Bound::Excluded(y)) => lemma_clone_same(x, y),
        _ => {},
    }
}

/// Once one key is past the end, all the later ones are.
proof fn lemma_ends_here<K: Ord + Clone, V>(all: Seq<(K, V)>, at: int, end: Bound<K>)
    requires
        lawful::<K>(),
        ascending(all),
        0 <= at < all.len(),
        exceeds(all[at].0, end),
    ensures
        chosen(all.skip(at), |k: K| !exceeds(k, end)) == Seq::<(K, V)>::empty(),
{
    broadcast use group_order;

    let rest = all.skip(at);
    assert forall|i: int| 0 <= i < rest.len() implies exceeds((#[trigger] rest[i]).0, end) by {
        assert(rest[i] == all[at + i]);
        if i > 0 {
            assert(before(all[at].0, all[at + i].0));
        }
    }
    lemma_chosen_none(rest, |k: K| !exceeds(k, end));
}

} // verus!
