//! What a delete does to the pages.

use super::super::entries::holds;
use super::super::shape::Shape;
use super::super::{fewest, leads_left, BPlusTree, BPlusTreeNode, PageId, TreeError};
use super::law_way;
use crate::order::{before, group_order, lawful, lemma_before_asymmetric, same};
use vstd::prelude::*;

verus! {

/// `keys` and `kids` are the separators and the children of `was`, less what it lost when its child
/// `child` was merged into the one to its left, or, as the first child, took in the one to its right:
/// the right one of the two, and the separator between them.
pub open spec fn lost_child<K, V>(
    was: BPlusTreeNode<K, V>,
    keys: Seq<K>,
    kids: Seq<PageId>,
    child: PageId,
) -> bool {
    exists|t: int|
        {
            &&& 0 <= t < was.child_seq().len()
            &&& #[trigger] was.child_seq()[t] == child
            &&& keys == was.key_seq().remove(if t > 0 {
                t - 1
            } else {
                0
            })
            &&& kids == was.child_seq().remove(if t > 0 {
                t
            } else {
                1
            })
        }
}

impl<K: Ord + Clone, V> Shape<K, V> {
    /// `path` leads down from the root to a leaf.
    #[verifier::opaque]
    spec fn down(self, path: Seq<PageId>) -> bool {
        &&& lawful::<K>()
        &&& self.tree_ok(None)
        &&& path.len() > 0
        &&& self.root == Some(path[0])
        &&& self.held_leaf(path.last())
        &&& forall|i: int|
            0 <= i < path.len() ==> {
                &&& self.pages.contains_key(#[trigger] path[i])
                &&& self.place[path[i]].level == path.len() - 1 - i
                &&& self.keys(path[i]).len() > 0
            }
        &&& forall|i: int, j: int|
            0 <= i && j == i + 1 && j < path.len() ==> self.kids(#[trigger] path[i]).contains(
                #[trigger] path[j],
            )
    }

    /// What is below page `i` of a way down.
    proof fn lemma_under(self, path: Seq<PageId>, i: int, t: int)
        requires
            self.down(path),
            0 <= i < path.len() - 1,
            0 <= t < self.kids(path[i]).len(),
            self.kids(path[i])[t] == path[i + 1],
        ensures
            self.held_internal(path[i]),
            self.place[path[i]].level == path.len() - 1 - i,
            self.kids(path[i]).len() == self.keys(path[i]).len() + 1,
            self.kids(path[i]).len() > 1,
            self.kids(path[i]).no_duplicates(),
            self.kids(path[i]).index_of(path[i + 1]) == t,
            forall|k: int|
                0 <= k < self.kids(path[i]).len() ==> {
                    let c = #[trigger] self.kids(path[i])[k];
                    &&& self.pages.contains_key(c)
                    &&& c != path[i]
                    &&& self.place[c].level == path.len() - 2 - i
                    &&& self.is_leaf(c) <==> i == path.len() - 2
                    &&& k != t ==> c != path[i + 1]
                },
    {
        reveal(Shape::down);
        let q = path[i];
        assert(self.pages.contains_key(q));
        self.lemma_page(None, q);
        self.lemma_alike(q);
        self.lemma_kids_distinct(None, q);
        assert(self.kids(q).contains(path[i + 1]));
        let k = self.kids(q).index_of(path[i + 1]);
        assert(self.kids(q)[k] == path[i + 1]);
    }

    /// The child that a way down goes to has its place among the children.
    proof fn lemma_step_at(self, path: Seq<PageId>, i: int) -> (t: int)
        requires
            self.down(path),
            0 <= i < path.len() - 1,
        ensures
            0 <= t < self.kids(path[i]).len(),
            self.kids(path[i])[t] == path[i + 1],
    {
        reveal(Shape::down);
        assert(self.kids(path[i]).contains(path[i + 1]));
        self.kids(path[i]).index_of(path[i + 1])
    }

    /// `m` differs from the tree, as high as page `n` of `path` and above, only in this page, and this
    /// page lost a child.
    #[verifier::opaque]
    spec fn sunk(self, m: Self, path: Seq<PageId>, n: int) -> bool {
        let q = path[n];
        &&& m.root == self.root
        &&& m.held_internal(q)
        &&& lost_child(self.pages[q], m.keys(q), m.kids(q), path[n + 1])
        &&& forall|x: PageId| #[trigger]
            self.pages.contains_key(x) && self.place[x].level >= path.len() - 1 - n && x != q
                ==> m.pages.contains_key(x) && m.pages[x] == self.pages[x]
    }

    /// Page `i` of `path` holds `min` keys, and no neighbour of it more.
    #[verifier::opaque]
    spec fn stuck_at(self, min: nat, path: Seq<PageId>, i: int) -> bool {
        let cs = self.kids(path[i - 1]);
        &&& self.keys(path[i]).len() == min
        &&& forall|t: int|
            0 <= t < cs.len() && #[trigger] cs[t] == path[i] ==> {
                &&& t > 0 ==> self.keys(cs[t - 1]).len() <= min
                &&& t + 1 < cs.len() ==> self.keys(cs[t + 1]).len() <= min
            }
    }

    /// Entry `at` of the leaf of `path` is gone in `m`, the separator to the left of the leaf has
    /// followed in `l`, and `after` is what became of it when the leaf was settled.
    #[verifier::opaque]
    spec fn lost_entry(
        self,
        m: Self,
        l: Self,
        after: Self,
        min: nat,
        path: Seq<PageId>,
        at: int,
    ) -> bool {
        &&& path.len() > 1
        &&& 0 <= at < self.keys(path.last()).len()
        &&& self.plucked(m, path.last(), at)
        &&& m.followed(l, path, self.keys(path.last()))
        &&& l.settled(after, min, path)
    }

    /// The leaf of `path`, child `t` of its parent, was merged without its entry `at`.
    spec fn leaf_pair(self, r: Self, path: Seq<PageId>, at: int, t: int) -> bool {
        let leaf = path.last();
        let cs = self.kids(path[path.len() - 2]);
        let keys = self.keys(leaf).remove(at);
        let vals = self.vals(leaf).remove(at);
        if t > 0 {
            let a = cs[t - 1];
            &&& r.has_leaf(a, self.keys(a) + keys, self.vals(a) + vals, self.pages[leaf]->next)
            &&& !r.pages.contains_key(leaf)
        } else {
            let b = cs[1];
            &&& r.has_leaf(leaf, keys + self.keys(b), vals + self.vals(b), self.pages[b]->next)
            &&& !r.pages.contains_key(b)
        }
    }

    /// Page `n` of `path`, child `t` of its parent and left with `keys` and `kids`, was merged.
    spec fn node_pair(
        self,
        r: Self,
        path: Seq<PageId>,
        n: int,
        t: int,
        keys: Seq<K>,
        kids: Seq<PageId>,
    ) -> bool {
        let id = path[n];
        let q = path[n - 1];
        let cs = self.kids(q);
        if t > 0 {
            let a = cs[t - 1];
            &&& r.has_internal(
                a,
                self.keys(a).push(self.keys(q)[t - 1]) + keys,
                self.kids(a) + kids,
            )
            &&& !r.pages.contains_key(id)
        } else {
            let b = cs[1];
            &&& r.has_internal(id, keys.push(self.keys(q)[0]) + self.keys(b), kids + self.kids(b))
            &&& !r.pages.contains_key(b)
        }
    }

    /// What a tree is once an entry is gone and the separator to the left of its leaf has followed.
    proof fn lemma_plucked_pages(
        self,
        m: Self,
        l: Self,
        after: Self,
        min: nat,
        path: Seq<PageId>,
        at: int,
        t: int,
    )
        requires
            self.down(path),
            self.lost_entry(m, l, after, min, path, at),
            0 <= t < self.kids(path[path.len() - 2]).len(),
            self.kids(path[path.len() - 2])[t] == path.last(),
        ensures
            path.len() > 1,
            0 <= at < self.keys(path.last()).len(),
            self.held_leaf(path.last()),
            l.settled(after, min, path),
            ({
                let leaf = path.last();
                let q = path[path.len() - 2];
                &&& l.root == self.root
                &&& l.has_leaf(
                    leaf,
                    self.keys(leaf).remove(at),
                    self.vals(leaf).remove(at),
                    self.pages[leaf]->next,
                )
                &&& l.held_internal(q)
                &&& l.kids(q) == self.kids(q)
                &&& if t > 0 && at == 0 && self.keys(leaf).len() > 1 {
                    &&& l.keys(q) == self.keys(q).update(t - 1, l.keys(q)[t - 1])
                    &&& cloned(self.keys(leaf)[1], l.keys(q)[t - 1])
                } else {
                    l.pages[q] == self.pages[q]
                }
                &&& forall|x: PageId| #[trigger]
                    self.pages.contains_key(x) && x != leaf && x != q ==> l.pages.contains_key(x)
                        && l.pages[x] == self.pages[x]
                &&& l.pages.dom().subset_of(self.pages.dom())
            }),
    {
        reveal(Shape::down);
        reveal(Shape::lost_entry);
        let leaf = path.last();
        let h = path.len() as int;
        let q = path[h - 2];
        assert(path[h - 1] == leaf);
        self.lemma_under(path, h - 2, t);
        self.lemma_page(None, leaf);
        assert(self.kids(q)[t] == leaf);
        if self.keys(leaf).len() > 1 {
            assert(before(self.keys(leaf)[0], self.keys(leaf)[1]));
            lemma_before_asymmetric(self.keys(leaf)[0], self.keys(leaf)[1]);
        }
        assert(m.pages.contains_key(q) && m.pages[q] == self.pages[q]);
        assert forall|x: PageId| #[trigger]
            self.pages.contains_key(x) && x != leaf && x != q implies l.pages.contains_key(x)
            && l.pages[x] == self.pages[x] by {
            assert(m.pages.contains_key(x));
        }
    }

    /// A leaf that lost a key and that no neighbour can help is merged, and its parent settled.
    proof fn lemma_sink_leaf(
        self,
        m: Self,
        l: Self,
        after: Self,
        min: nat,
        path: Seq<PageId>,
        at: int,
        t: int,
    ) -> (r: Self)
        requires
            self.down(path),
            path.len() > 1,
            self.lost_entry(m, l, after, min, path, at),
            0 <= t < self.kids(path[path.len() - 2]).len(),
            self.kids(path[path.len() - 2])[t] == path.last(),
            self.stuck_at(min, path, path.len() - 1),
        ensures
            self.sunk(r, path, path.len() - 2),
            r.settled(after, min, path.take(path.len() - 1)),
            self.leaf_pair(r, path, at, t),
    {
        let leaf = path.last();
        let h = path.len() as int;
        let q = path[h - 2];
        let cs = self.kids(q);
        assert(path[h - 1] == leaf);
        self.lemma_under(path, h - 2, t);
        self.lemma_plucked_pages(m, l, after, min, path, at, t);
        assert(cs[t] == leaf);
        reveal(Shape::stuck_at);
        reveal(Shape::sunk);
        assert(l.keys(leaf).len() < min);
        l.lemma_settled(after, min, path);
        assert(l.rebalanced(after, min, path));
        assert(path[h - 1 - 1] == q && path[h - 2 + 1] == leaf);
        if t > 0 {
            assert(self.pages.contains_key(cs[t - 1]) && cs[t - 1] != leaf && cs[t - 1] != q);
            assert(self.keys(cs[t - 1]).len() <= min);
        }
        if t + 1 < cs.len() {
            assert(self.pages.contains_key(cs[t + 1]) && cs[t + 1] != leaf && cs[t + 1] != q);
            assert(self.keys(cs[t + 1]).len() <= min);
        }
        assert(l.kids(q).index_of(leaf) == t);
        reveal_with_fuel(Shape::rebalanced, 1);
        let r = choose|r: Self| #[trigger]
            l.joined(r, q, t) && r.settled(after, min, path.drop_last());
        assert(l.joined(r, q, t) && r.settled(after, min, path.drop_last()));
        assert(path.drop_last() =~= path.take(h - 1));
        let j = if t > 0 {
            t - 1
        } else {
            0
        };
        assert(l.keys(q).remove(j) =~= self.keys(q).remove(j));
        assert(self.pages[q].child_seq()[t] == path[h - 1]);
        assert forall|x: PageId| #[trigger]
            self.pages.contains_key(x) && self.place[x].level >= 1 && x
                != q implies r.pages.contains_key(x) && r.pages[x] == self.pages[x] by {
            assert(l.pages.contains_key(x));
        }
        r
    }

    /// A node that lost a child and that no neighbour can help is merged, and its parent settled.
    proof fn lemma_sink_step(
        self,
        m: Self,
        after: Self,
        min: nat,
        path: Seq<PageId>,
        n: int,
        t: int,
    ) -> (r: Self)
        requires
            self.down(path),
            1 <= n < path.len() - 1,
            0 <= t < self.kids(path[n - 1]).len(),
            self.kids(path[n - 1])[t] == path[n],
            self.sunk(m, path, n),
            m.settled(after, min, path.take(n + 1)),
            self.stuck_at(min, path, n),
        ensures
            self.sunk(r, path, n - 1),
            r.settled(after, min, path.take(n)),
            self.node_pair(r, path, n, t, m.keys(path[n]), m.kids(path[n])),
    {
        let id = path[n];
        let q = path[n - 1];
        let cs = self.kids(q);
        let p = path.take(n + 1);
        reveal(Shape::stuck_at);
        reveal(Shape::sunk);
        self.lemma_under(path, n - 1, t);
        assert(p.last() == id && p[p.len() - 2] == q);
        assert(self.pages.contains_key(q) && q != id);
        assert(m.pages[q] == self.pages[q]);
        let u = self.lemma_step_at(path, n);
        self.lemma_under(path, n, u);
        m.lemma_settled(after, min, p);
        assert(m.keys(id).len() < min);
        assert(m.rebalanced(after, min, p));
        assert(cs[t] == id);
        if t > 0 {
            assert(self.pages.contains_key(cs[t - 1]));
        }
        if t + 1 < cs.len() {
            assert(self.pages.contains_key(cs[t + 1]));
        }
        reveal_with_fuel(Shape::rebalanced, 1);
        let r = choose|r: Self| #[trigger]
            m.joined(r, q, t) && r.settled(after, min, p.drop_last());
        assert(m.joined(r, q, t) && r.settled(after, min, p.drop_last()));
        assert(p.drop_last() =~= path.take(n));
        assert(self.pages[q].child_seq()[t] == path[n]);
        assert forall|x: PageId| #[trigger]
            self.pages.contains_key(x) && self.place[x].level >= path.len() - n && x
                != q implies r.pages.contains_key(x) && r.pages[x] == self.pages[x] by {
            assert(self.place[id].level == path.len() - 1 - n);
            assert(m.pages.contains_key(x));
        }
        r
    }

    /// Where the pages of a way below page `n` can get no help, they are merged one after the other.
    proof fn lemma_sink(
        self,
        m: Self,
        l: Self,
        after: Self,
        min: nat,
        path: Seq<PageId>,
        at: int,
        n: int,
    ) -> (r: Self)
        requires
            self.down(path),
            0 <= n < path.len() - 1,
            self.lost_entry(m, l, after, min, path, at),
            forall|i: int| n < i < path.len() ==> #[trigger] self.stuck_at(min, path, i),
        ensures
            self.sunk(r, path, n),
            r.settled(after, min, path.take(n + 1)),
        decreases path.len() - n,
    {
        let h = path.len() as int;
        assert(path[h - 1] == path.last());
        if n == h - 2 {
            let t = self.lemma_step_at(path, n);
            assert(self.stuck_at(min, path, h - 1));
            self.lemma_sink_leaf(m, l, after, min, path, at, t)
        } else {
            let below = self.lemma_sink(m, l, after, min, path, at, n + 1);
            let t = self.lemma_step_at(path, n);
            assert(self.stuck_at(min, path, n + 1));
            self.lemma_sink_step(below, after, min, path, n + 1, t)
        }
    }

    /// Settling a page makes no new one.
    proof fn lemma_settled_shrinks(self, after: Self, min: nat, path: Seq<PageId>)
        requires
            self.settled(after, min, path),
        ensures
            after.pages.dom().subset_of(self.pages.dom()),
        decreases path.len(),
    {
        self.lemma_settled(after, min, path);
        if !self.unchanged(after) {
            reveal_with_fuel(Shape::rebalanced, 1);
            if path.len() > 1 {
                let id = path.last();
                let q = path[path.len() - 2];
                let cs = self.kids(q);
                let at = cs.index_of(id);
                if at > 0 && self.keys(cs[at - 1]).len() > min {
                } else if at + 1 < cs.len() && self.keys(cs[at + 1]).len() > min {
                } else {
                    let r = choose|r: Self| #[trigger]
                        self.joined(r, q, at) && r.settled(after, min, path.drop_last());
                    assert(self.joined(r, q, at) && r.settled(after, min, path.drop_last()));
                    r.lemma_settled_shrinks(after, min, path.drop_last());
                }
            }
        }
    }

    /// Settling page `n` of a way leaves the pages below as they were.
    proof fn lemma_lower_kept(
        self,
        r: Self,
        after: Self,
        min: nat,
        path: Seq<PageId>,
        n: int,
        x: PageId,
    )
        requires
            self.down(path),
            0 <= n < path.len() - 1,
            self.sunk(r, path, n),
            r.settled(after, min, path.take(n + 1)),
            self.pages.contains_key(x),
            self.place[x].level < path.len() - 1 - n,
            r.pages.contains_key(x),
        ensures
            after.pages.contains_key(x),
            after.pages[x] == r.pages[x],
    {
        reveal(Shape::down);
        reveal(Shape::sunk);
        let p = path.take(n + 1);
        let u = self.lemma_step_at(path, n);
        self.lemma_under(path, n, u);
        assert forall|i: int| 0 <= i < p.len() implies {
            &&& r.pages.contains_key(#[trigger] p[i])
            &&& self.place[p[i]].level == path.len() - 1 - i
            &&& i < n ==> r.pages[p[i]] == self.pages[p[i]]
            &&& forall|c: PageId| r.kids(p[i]).contains(c) ==> self.kids(p[i]).contains(c)
        } by {
            assert(p[i] == path[i]);
            assert(self.pages.contains_key(path[i]));
            if i == n {
                let fewer = r.kids(path[n]);
                let cs = self.kids(path[n]);
                let was = self.pages[path[n]];
                let t = choose|t: int|
                    {
                        &&& 0 <= t < was.child_seq().len()
                        &&& #[trigger] was.child_seq()[t] == path[n + 1]
                        &&& r.keys(path[n]) == was.key_seq().remove(if t > 0 {
                            t - 1
                        } else {
                            0
                        })
                        &&& r.kids(path[n]) == was.child_seq().remove(if t > 0 {
                            t
                        } else {
                            1
                        })
                    };
                let gone = if t > 0 {
                    t
                } else {
                    1
                };
                assert(fewer == cs.remove(gone));
                assert forall|c: PageId| fewer.contains(c) implies cs.contains(c) by {
                    let k = fewer.index_of(c);
                    assert(fewer[k] == c);
                    assert(cs[if k < gone {
                        k
                    } else {
                        k + 1
                    }] == c);
                }
            } else {
                assert(path[i] != path[n]) by {
                    assert(self.place[path[i]].level != self.place[path[n]].level);
                }
            }
        }
        assert forall|i: int, c: PageId| 0 <= i < p.len() && #[trigger] self.kids(
            p[i],
        ).contains(c) implies self.place[c].level == path.len() - 2 - i by {
            assert(p[i] == path[i]);
            let k = self.lemma_step_at(path, i);
            self.lemma_under(path, i, k);
            let j = self.kids(path[i]).index_of(c);
            assert(self.kids(path[i])[j] == c);
        }
        assert(r.descends(p)) by {
            assert forall|i: int, j: int| 0 <= i && j == i + 1 && j < p.len() implies r.forks(
                #[trigger] p[i],
                #[trigger] p[j],
            ) by {
                assert(p[i] == path[i] && p[j] == path[j]);
                let k = self.lemma_step_at(path, i);
                self.lemma_under(path, i, k);
                assert(r.pages[p[i]] == self.pages[p[i]]);
            }
            assert forall|i: int, j: int| 0 <= i <= j < p.len() implies !r.kids(
                #[trigger] p[j],
            ).contains(#[trigger] p[i]) by {
                if r.kids(p[j]).contains(p[i]) {
                    assert(self.kids(p[j]).contains(p[i]));
                }
            }
            assert forall|i: int, j: int| 0 <= i < p.len() && 0 <= j < p.len() && i
                != j implies p[i] != p[j] by {}
        }
        assert(r.off_way(p, x)) by {
            if p.contains(x) {
                assert(p[p.index_of(x)] == x);
            }
            assert forall|i: int, j: int| 0 <= i && j == i + 1 && j < p.len() implies {
                let cs = r.kids(#[trigger] p[i]);
                let at = cs.index_of(#[trigger] p[j]);
                &&& at > 0 ==> cs[at - 1] != x
                &&& at + 1 < cs.len() ==> cs[at + 1] != x
            } by {
                let cs = r.kids(p[i]);
                assert(cs == self.kids(p[i]));
                let k = self.lemma_step_at(path, i);
                self.lemma_under(path, i, k);
                assert(p[i] == path[i] && p[j] == path[j]);
                let at = cs.index_of(p[j]);
                assert(at == k);
                if at > 0 {
                    assert(self.kids(p[i]).contains(cs[at - 1]));
                }
                if at + 1 < cs.len() {
                    assert(self.kids(p[i]).contains(cs[at + 1]));
                }
            }
        }
        r.lemma_settled_kept(after, min, p, x);
    }
}

/// The page at `i` of the way to `key` holds the fewest keys, and no neighbour of it under its parent
/// holds more.
pub open spec fn stuck<K: Ord + Clone, V>(tree: BPlusTree<K, V>, key: K, i: int) -> bool {
    let path = tree.way(key);
    let cs = tree.nodes()[path[i - 1]].child_seq();
    let min = fewest(tree.max_keys());
    &&& tree.nodes()[path[i]].key_seq().len() == min
    &&& forall|t: int|
        0 <= t < cs.len() && #[trigger] cs[t] == path[i] ==> {
            &&& t > 0 ==> tree.nodes()[cs[t - 1]].key_seq().len() <= min
            &&& t + 1 < cs.len() ==> tree.nodes()[cs[t + 1]].key_seq().len() <= min
        }
}

/// Page `id` is a leaf with `keys` and `values`, and `next` to its right.
pub open spec fn leaf_with<K, V>(
    nodes: Map<PageId, BPlusTreeNode<K, V>>,
    id: PageId,
    keys: Seq<K>,
    values: Seq<V>,
    next: Option<PageId>,
) -> bool {
    &&& nodes.contains_key(id)
    &&& nodes[id] is Leaf
    &&& nodes[id].key_seq() == keys
    &&& nodes[id].value_seq() == values
    &&& nodes[id]->next == next
}

/// Page `id` is an internal node with `keys` and `kids`.
pub open spec fn node_with<K, V>(
    nodes: Map<PageId, BPlusTreeNode<K, V>>,
    id: PageId,
    keys: Seq<K>,
    kids: Seq<PageId>,
) -> bool {
    &&& nodes.contains_key(id)
    &&& nodes[id] is Internal
    &&& nodes[id].key_seq() == keys
    &&& nodes[id].child_seq() == kids
}

/// Every page of `was` other than `a`, `b` and `c` is in `is`, as it was.
pub open spec fn others_kept<K, V>(
    was: Map<PageId, BPlusTreeNode<K, V>>,
    is: Map<PageId, BPlusTreeNode<K, V>>,
    a: PageId,
    b: PageId,
    c: PageId,
) -> bool {
    forall|x: PageId| #[trigger]
        was.contains_key(x) && x != a && x != b && x != c ==> is.contains_key(x) && is[x] == was[x]
}

/// Entry `at` of the leaf on the way to `key` is the one of `key`.
pub open spec fn entry_at<K: Ord + Clone, V>(tree: BPlusTree<K, V>, key: K, at: int) -> bool {
    let keys = tree.nodes()[tree.way(key).last()].key_seq();
    &&& tree.root_page() is Some
    &&& 0 <= at < keys.len()
    &&& same(keys[at], key)
}

/// The way down to a key, and what is made of it by a delete.
proof fn lemma_enter<K: Ord + Clone, V>(
    tree: BPlusTree<K, V>,
    after: BPlusTree<K, V>,
    key: K,
    at: int,
) -> (r: (Shape<K, V>, Shape<K, V>))
    requires
        lawful::<K>(),
        tree.wf(),
        entry_at(tree, key, at),
        tree.shrank(&after, key),
    ensures
        ({
            let s = tree.shape();
            let path = tree.way(key);
            let (m, l) = r;
            let min = fewest(tree.max_keys());
            let leaf = path.last();
            &&& s.down(path)
            &&& s.held_leaf(leaf)
            &&& holds(tree.entries(), key)
            &&& path == s.route(s.root->0, key)
            &&& path.len() > 1 ==> s.lost_entry(m, l, after.shape(), min, path, at)
            &&& path.len() == 1 ==> {
                &&& s.plucked(m, leaf, at)
                &&& l.pages == m.pages
                &&& l.root == m.root
                &&& if l.keys(leaf).len() == 0 {
                    after.shape().root is None && after.shape().pages == l.pages.remove(leaf)
                } else {
                    l.unchanged(after.shape())
                }
            }
        }),
{
    broadcast use group_order;

    let s = tree.shape();
    let path = tree.way(key);
    let min = fewest(tree.max_keys());
    law_way(tree, key);
    s.lemma_root(None);
    s.lemma_page(None, s.root->0);
    s.lemma_route(s.root->0, key);
    s.lemma_route_leaf(key);
    let leaf = path.last();
    s.lemma_page(None, leaf);
    let keys = s.keys(leaf);
    assert forall|j: int| 0 <= j < at implies before(#[trigger] keys[j], key) by {
        assert(before(keys[j], keys[at]));
    }
    s.lemma_rank_of_leaf(leaf, key, at);
    assert(s.down(path)) by {
        reveal(Shape::down);
        assert forall|i: int| 0 <= i < path.len() implies {
            &&& s.pages.contains_key(#[trigger] path[i])
            &&& s.place[path[i]].level == path.len() - 1 - i
            &&& s.keys(path[i]).len() > 0
        } by {
            assert(s.pages.contains_key(path[i]));
        }
    }
    let (m, l) = choose|m: Shape<K, V>, l: Shape<K, V>| #[trigger]
        s.plucked(m, leaf, at) && #[trigger] m.followed(l, path, s.keys(leaf)) && if path.len() == 1
            && l.keys(leaf).len() == 0 {
            after.shape().root is None && after.shape().pages == l.pages.remove(leaf)
        } else {
            l.settled(after.shape(), min, path)
        };
    if path.len() > 1 {
        reveal(Shape::lost_entry);
    } else if l.keys(leaf).len() > 0 {
        l.lemma_settled(after.shape(), min, path);
    }
    (m, l)
}

/// The last entry takes the last page with it.
pub proof fn law_last_entry<K: Ord + Clone, V>(
    tree: BPlusTree<K, V>,
    after: BPlusTree<K, V>,
    key: K,
    at: int,
)
    requires
        lawful::<K>(),
        tree.wf(),
        entry_at(tree, key, at),
        tree.shrank(&after, key),
        tree.way(key).len() == 1,
        tree.nodes()[tree.way(key).last()].key_seq().len() == 1,
    ensures
        after.root_page() is None,
        after.nodes() == tree.nodes().remove(tree.way(key).last()),
        tree.pages_freed(key) == 1,
{
    let (m, l) = lemma_enter(tree, after, key, at);
    assert(after.nodes() =~= tree.nodes().remove(tree.way(key).last()));
}

/// A leaf that keeps enough keys loses the entry and nothing more. Where this was its first key and the
/// leaf has a separator to its left under its parent, this separator becomes a clone of its new first
/// key. No other page changes, and none goes away.
pub proof fn law_out_of_leaf<K: Ord + Clone, V>(
    tree: BPlusTree<K, V>,
    after: BPlusTree<K, V>,
    key: K,
    at: int,
    t: int,
)
    requires
        lawful::<K>(),
        tree.wf(),
        entry_at(tree, key, at),
        tree.shrank(&after, key),
        ({
            let path = tree.way(key);
            let n = tree.nodes()[path.last()].key_seq().len();
            if path.len() == 1 {
                n > 1
            } else {
                let cs = tree.nodes()[path[path.len() - 2]].child_seq();
                n > fewest(tree.max_keys()) && 0 <= t < cs.len() && cs[t] == path.last()
            }
        }),
    ensures
        ({
            let path = tree.way(key);
            let leaf = path.last();
            let was = tree.nodes()[leaf];
            &&& after.root_page() == tree.root_page()
            &&& leaf_with(
                after.nodes(),
                leaf,
                was.key_seq().remove(at),
                was.value_seq().remove(at),
                was->next,
            )
            &&& tree.pages_freed(key) == 0
            &&& path.len() == 1 ==> others_kept(tree.nodes(), after.nodes(), leaf, leaf, leaf)
            &&& path.len() > 1 ==> {
                let q = path[path.len() - 2];
                let up = tree.nodes()[q];
                &&& others_kept(tree.nodes(), after.nodes(), leaf, q, q)
                &&& if at == 0 && t > 0 {
                    let sep = after.nodes()[q].key_seq()[t - 1];
                    &&& node_with(after.nodes(), q, up.key_seq().update(t - 1, sep), up.child_seq())
                    &&& cloned(was.key_seq()[1], sep)
                } else {
                    after.nodes()[q] == up
                }
            }
        }),
{
    let s = tree.shape();
    let path = tree.way(key);
    let (m, l) = lemma_enter(tree, after, key, at);
    let min = fewest(tree.max_keys());
    if path.len() > 1 {
        s.lemma_plucked_pages(m, l, after.shape(), min, path, at, t);
        l.lemma_settled(after.shape(), min, path);
    }
}

/// A leaf that is left with too few keys gets the last entry of its left neighbour, if this one holds
/// more than the fewest; the key of that entry becomes the separator between the two, and the leaf gets
/// a clone of it. No other page changes, and none goes away.
pub proof fn law_leaf_borrows_left<K: Ord + Clone, V>(
    tree: BPlusTree<K, V>,
    after: BPlusTree<K, V>,
    key: K,
    at: int,
    t: int,
)
    requires
        lawful::<K>(),
        tree.wf(),
        entry_at(tree, key, at),
        tree.shrank(&after, key),
        ({
            let path = tree.way(key);
            let cs = tree.nodes()[path[path.len() - 2]].child_seq();
            let min = fewest(tree.max_keys());
            &&& path.len() > 1
            &&& tree.nodes()[path.last()].key_seq().len() == min
            &&& 0 < t < cs.len()
            &&& cs[t] == path.last()
            &&& tree.nodes()[cs[t - 1]].key_seq().len() > min
        }),
    ensures
        ({
            let path = tree.way(key);
            let leaf = path.last();
            let q = path[path.len() - 2];
            let up = tree.nodes()[q];
            let left = up.child_seq()[t - 1];
            let was = tree.nodes()[leaf];
            let lender = tree.nodes()[left];
            let first = after.nodes()[leaf].key_seq()[0];
            &&& after.root_page() == tree.root_page()
            &&& leaf_with(
                after.nodes(),
                left,
                lender.key_seq().drop_last(),
                lender.value_seq().drop_last(),
                lender->next,
            )
            &&& leaf_with(
                after.nodes(),
                leaf,
                seq![first] + was.key_seq().remove(at),
                seq![lender.value_seq().last()] + was.value_seq().remove(at),
                was->next,
            )
            &&& cloned(lender.key_seq().last(), first)
            &&& node_with(
                after.nodes(),
                q,
                up.key_seq().update(t - 1, lender.key_seq().last()),
                up.child_seq(),
            )
            &&& others_kept(tree.nodes(), after.nodes(), left, leaf, q)
            &&& tree.pages_freed(key) == 0
        }),
{
    let s = tree.shape();
    let path = tree.way(key);
    let h = path.len() as int;
    let (m, l) = lemma_enter(tree, after, key, at);
    let min = fewest(tree.max_keys());
    let leaf = path.last();
    let q = path[h - 2];
    let cs = s.kids(q);
    assert(path[h - 2 + 1] == leaf);
    s.lemma_under(path, h - 2, t);
    s.lemma_plucked_pages(m, l, after.shape(), min, path, at, t);
    let left = cs[t - 1];
    assert(s.pages.contains_key(left) && left != leaf && left != q && s.is_leaf(left));
    assert(l.keys(leaf).len() < min);
    l.lemma_settled(after.shape(), min, path);
    reveal_with_fuel(Shape::rebalanced, 1);
    assert(l.lent_right(after.shape(), left, leaf, q, t));
    let last = s.keys(left).last();
    assert(l.keys(q).update(t - 1, last) =~= s.keys(q).update(t - 1, last));
    assert(others_kept(tree.nodes(), after.nodes(), left, leaf, q)) by {
        assert forall|x: PageId| #[trigger]
            tree.nodes().contains_key(x) && x != left && x != leaf && x
                != q implies after.nodes().contains_key(x) && after.nodes()[x]
            == tree.nodes()[x] by {
            assert(l.pages.contains_key(x));
        }
    }
}

/// A leaf that is left with too few keys, and whose left neighbour has none to spare, gets the first
/// entry of its right neighbour, if this one holds more than the fewest; the separator between the two
/// becomes a clone of the new first key of the neighbour, and the one to the left of the leaf a clone of
/// its first key, if this has changed. No other page changes, and none goes away.
pub proof fn law_leaf_borrows_right<K: Ord + Clone, V>(
    tree: BPlusTree<K, V>,
    after: BPlusTree<K, V>,
    key: K,
    at: int,
    t: int,
)
    requires
        lawful::<K>(),
        tree.wf(),
        entry_at(tree, key, at),
        tree.shrank(&after, key),
        ({
            let path = tree.way(key);
            let cs = tree.nodes()[path[path.len() - 2]].child_seq();
            let min = fewest(tree.max_keys());
            &&& path.len() > 1
            &&& tree.nodes()[path.last()].key_seq().len() == min
            &&& 0 <= t < cs.len() - 1
            &&& cs[t] == path.last()
            &&& t > 0 ==> tree.nodes()[cs[t - 1]].key_seq().len() <= min
            &&& tree.nodes()[cs[t + 1]].key_seq().len() > min
        }),
    ensures
        ({
            let path = tree.way(key);
            let leaf = path.last();
            let q = path[path.len() - 2];
            let up = tree.nodes()[q];
            let right = up.child_seq()[t + 1];
            let was = tree.nodes()[leaf];
            let lender = tree.nodes()[right];
            let is = after.nodes()[leaf];
            let seps = after.nodes()[q].key_seq();
            &&& after.root_page() == tree.root_page()
            &&& leaf_with(
                after.nodes(),
                right,
                lender.key_seq().skip(1),
                lender.value_seq().skip(1),
                lender->next,
            )
            &&& leaf_with(
                after.nodes(),
                leaf,
                was.key_seq().remove(at).push(lender.key_seq()[0]),
                was.value_seq().remove(at).push(lender.value_seq()[0]),
                was->next,
            )
            &&& node_with(after.nodes(), q, seps, up.child_seq())
            &&& seps.len() == up.key_seq().len()
            &&& cloned(lender.key_seq()[1], seps[t])
            &&& t > 0 && at == 0 ==> cloned(is.key_seq()[0], seps[t - 1])
            &&& forall|i: int|
                0 <= i < seps.len() && i != t && !(at == 0 && i == t - 1) ==> #[trigger] seps[i]
                    == up.key_seq()[i]
            &&& others_kept(tree.nodes(), after.nodes(), right, leaf, q)
            &&& tree.pages_freed(key) == 0
        }),
{
    let s = tree.shape();
    let path = tree.way(key);
    let h = path.len() as int;
    let (m, l) = lemma_enter(tree, after, key, at);
    let min = fewest(tree.max_keys());
    let leaf = path.last();
    let q = path[h - 2];
    let cs = s.kids(q);
    let a = after.shape();
    assert(path[h - 2 + 1] == leaf);
    s.lemma_under(path, h - 2, t);
    s.lemma_plucked_pages(m, l, a, min, path, at, t);
    let right = cs[t + 1];
    assert(s.pages.contains_key(right) && right != leaf && right != q && s.is_leaf(right));
    if t > 0 {
        assert(s.pages.contains_key(cs[t - 1]) && cs[t - 1] != leaf && cs[t - 1] != q);
    }
    assert(l.keys(leaf).len() < min);
    l.lemma_settled(a, min, path);
    reveal_with_fuel(Shape::rebalanced, 1);
    let r = choose|r: Shape<K, V>| #[trigger]
        l.lent_left(r, leaf, right, q, t) && r.followed(a, path, l.keys(leaf));
    assert(l.lent_left(r, leaf, right, q, t) && r.followed(a, path, l.keys(leaf)));
    assert(r.kids(q) == cs);
    assert(others_kept(tree.nodes(), after.nodes(), right, leaf, q)) by {
        assert forall|x: PageId| #[trigger]
            tree.nodes().contains_key(x) && x != right && x != leaf && x
                != q implies after.nodes().contains_key(x) && after.nodes()[x]
            == tree.nodes()[x] by {
            assert(l.pages.contains_key(x));
            assert(r.pages.contains_key(x));
        }
    }
    assert(r.pages.contains_key(right) && r.pages.contains_key(leaf));
}

/// A leaf that is left with too few keys, and whose neighbours have none to spare, is merged: into its
/// left neighbour, or, as the first child, with its right one, which it takes in. The right one of the
/// two goes away.
pub proof fn law_leaf_merges<K: Ord + Clone, V>(
    tree: BPlusTree<K, V>,
    after: BPlusTree<K, V>,
    key: K,
    at: int,
    t: int,
)
    requires
        lawful::<K>(),
        tree.wf(),
        entry_at(tree, key, at),
        tree.shrank(&after, key),
        ({
            let path = tree.way(key);
            let cs = tree.nodes()[path[path.len() - 2]].child_seq();
            &&& path.len() > 1
            &&& stuck(tree, key, path.len() - 1)
            &&& 0 <= t < cs.len()
            &&& cs[t] == path.last()
        }),
    ensures
        ({
            let path = tree.way(key);
            let leaf = path.last();
            let cs = tree.nodes()[path[path.len() - 2]].child_seq();
            let was = tree.nodes()[leaf];
            let keys = was.key_seq().remove(at);
            let values = was.value_seq().remove(at);
            if t > 0 {
                let left = tree.nodes()[cs[t - 1]];
                &&& leaf_with(
                    after.nodes(),
                    cs[t - 1],
                    left.key_seq() + keys,
                    left.value_seq() + values,
                    was->next,
                )
                &&& !after.nodes().contains_key(leaf)
            } else {
                let right = tree.nodes()[cs[1]];
                &&& leaf_with(
                    after.nodes(),
                    leaf,
                    keys + right.key_seq(),
                    values + right.value_seq(),
                    right->next,
                )
                &&& !after.nodes().contains_key(cs[1])
            }
        }),
{
    let s = tree.shape();
    let path = tree.way(key);
    let h = path.len() as int;
    let (m, l) = lemma_enter(tree, after, key, at);
    let min = fewest(tree.max_keys());
    let a = after.shape();
    let leaf = path.last();
    let cs = s.kids(path[h - 2]);
    assert(path[h - 2 + 1] == leaf);
    assert(s.stuck_at(min, path, h - 1)) by {
        reveal(Shape::stuck_at);
        assert(stuck(tree, key, h - 1));
    }
    let r = s.lemma_sink_leaf(m, l, a, min, path, at, t);
    s.lemma_under(path, h - 2, t);
    let x = if t > 0 {
        cs[t - 1]
    } else {
        leaf
    };
    assert(s.pages.contains_key(x)) by {
        assert(cs[t] == leaf);
    }
    assert(s.place[x].level == 0) by {
        assert(cs[t] == leaf);
    }
    s.lemma_lower_kept(r, a, min, path, h - 2, x);
    r.lemma_settled_shrinks(a, min, path.take(h - 1));
}

/// An internal node that lost a child, and whose neighbours have no key to spare, is merged too: into
/// its left neighbour, or, as the first child, with its right one, which it takes in; the separator
/// between the two comes down. The right one of the two goes away.
pub proof fn law_internal_merges<K: Ord + Clone, V>(
    tree: BPlusTree<K, V>,
    after: BPlusTree<K, V>,
    key: K,
    at: int,
    n: int,
    t: int,
) -> (left_with: (Seq<K>, Seq<PageId>))
    requires
        lawful::<K>(),
        tree.wf(),
        entry_at(tree, key, at),
        tree.shrank(&after, key),
        1 <= n < tree.way(key).len() - 1,
        forall|i: int| n <= i < tree.way(key).len() ==> #[trigger] stuck(tree, key, i),
        ({
            let path = tree.way(key);
            let cs = tree.nodes()[path[n - 1]].child_seq();
            0 <= t < cs.len() && cs[t] == path[n]
        }),
    ensures
        ({
            let path = tree.way(key);
            let up = tree.nodes()[path[n - 1]];
            let cs = up.child_seq();
            let (keys, kids) = left_with;
            &&& lost_child(tree.nodes()[path[n]], keys, kids, path[n + 1])
            &&& if t > 0 {
                let left = tree.nodes()[cs[t - 1]];
                &&& node_with(
                    after.nodes(),
                    cs[t - 1],
                    left.key_seq().push(up.key_seq()[t - 1]) + keys,
                    left.child_seq() + kids,
                )
                &&& !after.nodes().contains_key(path[n])
            } else {
                let right = tree.nodes()[cs[1]];
                &&& node_with(
                    after.nodes(),
                    path[n],
                    keys.push(up.key_seq()[0]) + right.key_seq(),
                    kids + right.child_seq(),
                )
                &&& !after.nodes().contains_key(cs[1])
            }
        }),
{
    let s = tree.shape();
    let path = tree.way(key);
    let (m, l) = lemma_enter(tree, after, key, at);
    let min = fewest(tree.max_keys());
    let a = after.shape();
    let cs = s.kids(path[n - 1]);
    assert forall|i: int| n <= i < path.len() implies #[trigger] s.stuck_at(min, path, i) by {
        reveal(Shape::stuck_at);
        assert(stuck(tree, key, i));
    }
    let b = s.lemma_sink(m, l, a, min, path, at, n);
    assert(s.stuck_at(min, path, n));
    let r = s.lemma_sink_step(b, a, min, path, n, t);
    s.lemma_under(path, n - 1, t);
    let x = if t > 0 {
        cs[t - 1]
    } else {
        path[n]
    };
    assert(s.pages.contains_key(x) && s.place[x].level == path.len() - 1 - n) by {
        assert(cs[t] == path[n]);
    }
    s.lemma_lower_kept(r, a, min, path, n - 1, x);
    r.lemma_settled_shrinks(a, min, path.take(n));
    reveal(Shape::sunk);
    (b.keys(path[n]), b.kids(path[n]))
}

/// Where the merges end: the page at `n` of the way lost a child, as those below it were merged. If it
/// keeps enough keys, it stays without this child, and nothing above it changes. A root without keys
/// gives way to the child that is left. Another page gets a key and a child of its left neighbour, or
/// else of its right one, if one of them holds more than the fewest keys: the key goes up to its parent,
/// and the separator there comes down.
pub proof fn law_settles<K: Ord + Clone, V>(
    tree: BPlusTree<K, V>,
    after: BPlusTree<K, V>,
    key: K,
    at: int,
    n: int,
    t: int,
) -> (left_with: (Seq<K>, Seq<PageId>))
    requires
        lawful::<K>(),
        tree.wf(),
        entry_at(tree, key, at),
        tree.shrank(&after, key),
        0 <= n < tree.way(key).len() - 1,
        forall|i: int| n < i < tree.way(key).len() ==> #[trigger] stuck(tree, key, i),
        n > 0 ==> {
            let path = tree.way(key);
            let cs = tree.nodes()[path[n - 1]].child_seq();
            0 <= t < cs.len() && cs[t] == path[n]
        },
    ensures
        ({
            let path = tree.way(key);
            let min = fewest(tree.max_keys());
            let was = tree.nodes()[path[n]];
            let up = tree.nodes()[path[n - 1]];
            let cs = up.child_seq();
            let (keys, kids) = left_with;
            &&& lost_child(was, keys, kids, path[n + 1])
            &&& keys.len() >= (if n == 0 {
                1
            } else {
                min
            }) ==> {
                &&& after.root_page() == tree.root_page()
                &&& node_with(after.nodes(), path[n], keys, kids)
                &&& forall|i: int|
                    0 <= i < n ==> after.nodes().contains_key(#[trigger] path[i])
                        && after.nodes()[path[i]] == tree.nodes()[path[i]]
            }
            &&& n == 0 && keys.len() == 0 ==> {
                &&& kids.len() == 1
                &&& after.root_page() == Some(kids[0])
                &&& !after.nodes().contains_key(path[0])
            }
            &&& n > 0 && keys.len() < min && t > 0 && tree.nodes()[cs[t - 1]].key_seq().len() > min
                ==> {
                let lender = tree.nodes()[cs[t - 1]];
                &&& after.root_page() == tree.root_page()
                &&& node_with(
                    after.nodes(),
                    cs[t - 1],
                    lender.key_seq().drop_last(),
                    lender.child_seq().drop_last(),
                )
                &&& node_with(
                    after.nodes(),
                    path[n],
                    seq![up.key_seq()[t - 1]] + keys,
                    seq![lender.child_seq().last()] + kids,
                )
                &&& node_with(
                    after.nodes(),
                    path[n - 1],
                    up.key_seq().update(t - 1, lender.key_seq().last()),
                    cs,
                )
            }
            &&& n > 0 && keys.len() < min && !(t > 0 && tree.nodes()[cs[t - 1]].key_seq().len()
                > min) && t + 1 < cs.len() && tree.nodes()[cs[t + 1]].key_seq().len() > min ==> {
                let lender = tree.nodes()[cs[t + 1]];
                &&& after.root_page() == tree.root_page()
                &&& node_with(
                    after.nodes(),
                    cs[t + 1],
                    lender.key_seq().skip(1),
                    lender.child_seq().skip(1),
                )
                &&& node_with(
                    after.nodes(),
                    path[n],
                    keys.push(up.key_seq()[t]),
                    kids.push(lender.child_seq()[0]),
                )
                &&& node_with(
                    after.nodes(),
                    path[n - 1],
                    up.key_seq().update(t, lender.key_seq()[0]),
                    cs,
                )
            }
        }),
{
    let s = tree.shape();
    let path = tree.way(key);
    let (m, l) = lemma_enter(tree, after, key, at);
    let min = fewest(tree.max_keys());
    let a = after.shape();
    assert forall|i: int| n < i < path.len() implies #[trigger] s.stuck_at(min, path, i) by {
        reveal(Shape::stuck_at);
        assert(stuck(tree, key, i));
    }
    let r = s.lemma_sink(m, l, a, min, path, at, n);
    reveal(Shape::sunk);
    let p = path.take(n + 1);
    let u = s.lemma_step_at(path, n);
    s.lemma_under(path, n, u);
    assert(p.last() == path[n]);
    r.lemma_settled(a, min, p);
    let keys = r.keys(path[n]);
    if n == 0 {
        if keys.len() == 0 {
            reveal_with_fuel(Shape::rebalanced, 1);
        }
    } else {
        let q = path[n - 1];
        let cs = s.kids(q);
        s.lemma_under(path, n - 1, t);
        assert(p[p.len() - 2] == q);
        assert(s.pages.contains_key(q) && q != path[n]);
        assert(r.pages[q] == s.pages[q]);
        if t > 0 {
            assert(s.pages.contains_key(cs[t - 1]) && cs[t - 1] != path[n]);
        }
        if t + 1 < cs.len() {
            assert(s.pages.contains_key(cs[t + 1]) && cs[t + 1] != path[n]);
        }
        assert(cs[t] == path[n]);
        if keys.len() < min {
            reveal_with_fuel(Shape::rebalanced, 1);
            assert(!r.is_leaf(path[n]));
            if t > 0 && s.keys(cs[t - 1]).len() > min {
                assert(r.lent_right(a, cs[t - 1], path[n], q, t));
            } else if t + 1 < cs.len() && s.keys(cs[t + 1]).len() > min {
                let v = choose|v: Shape<K, V>| #[trigger]
                    r.lent_left(v, path[n], cs[t + 1], q, t) && v.followed(a, p, keys);
                assert(r.lent_left(v, path[n], cs[t + 1], q, t) && v.followed(a, p, keys));
                assert(v.unchanged(a));
            }
        } else {
            assert forall|i: int| 0 <= i < n implies after.nodes().contains_key(#[trigger] path[i])
                && after.nodes()[path[i]] == tree.nodes()[path[i]] by {
                let k = s.lemma_step_at(path, i);
                s.lemma_under(path, i, k);
                assert(s.pages.contains_key(path[i]));
            }
        }
    }
    (keys, r.kids(path[n]))
}

impl<K: Ord + Clone, V> Shape<K, V> {
    /// Each page of a way that can get no help goes away.
    proof fn lemma_folds_exactly(self, min: nat, path: Seq<PageId>, n: int, k: int)
        requires
            self.down(path),
            0 <= n <= k < path.len(),
            forall|i: int| n < i <= k ==> #[trigger] self.stuck_at(min, path, i),
        ensures
            self.folds(min, path.take(k + 1), self.keys(path[k]).len() - 1) == k - n + self.folds(
                min,
                path.take(n + 1),
                self.keys(path[n]).len() - 1,
            ),
        decreases k - n,
    {
        if k > n {
            let p = path.take(k + 1);
            let t = self.lemma_step_at(path, k - 1);
            self.lemma_under(path, k - 1, t);
            assert(p.last() == path[k] && p[p.len() - 2] == path[k - 1]);
            assert(p.drop_last() =~= path.take(k));
            assert(self.stuck_at(min, path, k));
            assert(self.keys(path[k]).len() == min && !self.spares(min, path[k - 1], path[k])) by {
                reveal(Shape::stuck_at);
                assert(self.kids(path[k - 1])[t] == path[k]);
            }
            self.lemma_folds_exactly(min, path, n, k - 1);
        }
    }
}

/// A delete takes away a page for each merge, from the leaf up to the first page on the way that keeps
/// enough keys or that a neighbour can help, and one more if the root is left without keys.
pub proof fn law_pages_freed_exactly<K: Ord + Clone, V>(
    tree: BPlusTree<K, V>,
    after: BPlusTree<K, V>,
    key: K,
    at: int,
    n: int,
    t: int,
)
    requires
        lawful::<K>(),
        tree.wf(),
        entry_at(tree, key, at),
        tree.shrank(&after, key),
        0 <= n < tree.way(key).len(),
        forall|i: int| n < i < tree.way(key).len() ==> #[trigger] stuck(tree, key, i),
        n > 0 ==> {
            let path = tree.way(key);
            let cs = tree.nodes()[path[n - 1]].child_seq();
            0 <= t < cs.len() && cs[t] == path[n]
        },
    ensures
        ({
            let path = tree.way(key);
            let min = fewest(tree.max_keys());
            let len = tree.nodes()[path[n]].key_seq().len();
            let cs = tree.nodes()[path[n - 1]].child_seq();
            &&& len > (if n == 0 {
                1
            } else {
                min
            }) ==> tree.pages_freed(key) == path.len() - 1 - n
            &&& n == 0 && len == 1 ==> tree.pages_freed(key) == path.len()
            &&& n > 0 && t > 0 && tree.nodes()[cs[t - 1]].key_seq().len() > min
                ==> tree.pages_freed(key) == path.len() - 1 - n
            &&& n > 0 && t + 1 < cs.len() && tree.nodes()[cs[t + 1]].key_seq().len() > min
                ==> tree.pages_freed(key) == path.len() - 1 - n
        }),
{
    let s = tree.shape();
    let path = tree.way(key);
    let h = path.len() as int;
    let (m, l) = lemma_enter(tree, after, key, at);
    let min = fewest(tree.max_keys());
    assert forall|i: int| n < i <= h - 1 implies #[trigger] s.stuck_at(min, path, i) by {
        reveal(Shape::stuck_at);
        assert(stuck(tree, key, i));
    }
    s.lemma_folds_exactly(min, path, n, h - 1);
    assert(path.take(h) =~= path);
    assert(path[h - 1] == path.last());
    let p = path.take(n + 1);
    assert(p.last() == path[n]);
    if n > 0 {
        s.lemma_under(path, n - 1, t);
        assert(p[p.len() - 2] == path[n - 1]);
    }
}

/// A delete leaves the separators of an aligned tree where they belong unless the key is the first one of
/// its leaf and the leaf is the first child of its parent, but not the leftmost of all.
pub proof fn law_stays_aligned<K: Ord + Clone, V>(tree: BPlusTree<K, V>, key: K, at: int)
    requires
        lawful::<K>(),
        tree.wf(),
        entry_at(tree, key, at),
    ensures
        at > 0 ==> !tree.uncovers(key),
        tree.way(key).len() < 2 ==> !tree.uncovers(key),
        tree.way(key).len() >= 2 && tree.nodes()[tree.way(key)[tree.way(key).len() - 2]].child_seq()[0]
            != tree.way(key).last() ==> !tree.uncovers(key),
        leads_left(tree.nodes(), tree.way(key)) ==> !tree.uncovers(key),
{
    broadcast use group_order;

    let s = tree.shape();
    let path = tree.way(key);
    s.lemma_route_leaf(key);
    let leaf = path.last();
    s.lemma_page(None, leaf);
    let keys = s.keys(leaf);
    assert forall|j: int| 0 <= j < at implies before(#[trigger] keys[j], key) by {
        assert(before(keys[j], keys[at]));
    }
    s.lemma_rank_of_leaf(leaf, key, at);
}

/// A page is no child of another that is not an internal node among the pages, and the error says so; of
/// an internal node the error says that it lacks the child.
pub proof fn law_no_child<K: Ord + Clone, V>(
    tree: BPlusTree<K, V>,
    child: PageId,
    parent: PageId,
    stack: Seq<PageId>,
)
    requires
        stack.len() > 0,
        stack.last() == parent,
    ensures
        match tree.unhung(child, parent) {
            TreeError::NotAChild(c, p) => {
                &&& c == child
                &&& p == parent
                &&& tree.nodes().contains_key(parent)
                &&& tree.nodes()[parent] is Internal
            },
            TreeError::NotInternal(p) => {
                &&& p == parent
                &&& !(tree.nodes().contains_key(parent) && tree.nodes()[parent] is Internal)
            },
            _ => false,
        },
        tree.hangs(child, stack) <==> {
            &&& tree.nodes().contains_key(parent)
            &&& tree.nodes()[parent] is Internal
            &&& exists|i: int|
                0 <= i < tree.nodes()[parent].child_seq().len()
                    && #[trigger] tree.nodes()[parent].child_seq()[i] == child
        },
{
}

} // verus!
