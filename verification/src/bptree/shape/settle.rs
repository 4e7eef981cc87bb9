//! What a tree looks like after nodes lost keys: which pages change, and how.

use super::Shape;
use crate::bptree::entries::{holds, rank};
use crate::bptree::PageId;
use crate::order::{before, lawful, lemma_before_asymmetric, same};
use vstd::prelude::*;

verus! {

impl<K: Ord + Clone, V> Shape<K, V> {
    /// Page `id` is held, and is a leaf.
    pub open spec fn held_leaf(self, id: PageId) -> bool {
        self.pages.contains_key(id) && self.pages[id] is Leaf
    }

    /// Page `id` is held, and is an internal node.
    pub open spec fn held_internal(self, id: PageId) -> bool {
        self.pages.contains_key(id) && self.pages[id] is Internal
    }

    /// Page `id` is an internal node with `keys` and `kids`.
    pub open spec fn has_internal(self, id: PageId, keys: Seq<K>, kids: Seq<PageId>) -> bool {
        self.held_internal(id) && self.keys(id) == keys && self.kids(id) == kids
    }

    /// The values of page `id`.
    pub open spec fn vals(self, id: PageId) -> Seq<V> {
        self.pages[id].value_seq()
    }

    /// Pages `a` and `b` are children `j` and `j + 1` of `q`.
    pub open spec fn stands(self, q: PageId, j: int, a: PageId, b: PageId) -> bool {
        &&& self.held_internal(q)
        &&& 0 <= j < self.keys(q).len()
        &&& j + 1 < self.kids(q).len()
        &&& self.kids(q)[j] == a
        &&& self.kids(q)[j + 1] == b
    }

    /// No page and no root has changed.
    pub open spec fn unchanged(self, after: Self) -> bool {
        after.root == self.root && after.pages == self.pages
    }

    /// Every page other than `a`, `b` and `c` is as it was, and no page is new.
    pub open spec fn kept_but(self, after: Self, a: PageId, b: PageId, c: PageId) -> bool {
        &&& after.pages.dom().subset_of(self.pages.dom())
        &&& forall|x: PageId| #[trigger]
            self.pages.contains_key(x) && x != a && x != b && x != c ==> after.pages.contains_key(x)
                && after.pages[x] == self.pages[x]
    }

    /// No page came or went, nor changed its place, its children or its number of keys.
    pub open spec fn lifted(self, after: Self) -> bool {
        forall|x: PageId| #[trigger]
            self.pages.contains_key(x) ==> {
                &&& after.pages.contains_key(x)
                &&& after.place[x].level == self.place[x].level
                &&& after.place[x].up == self.place[x].up
                &&& after.kids(x) == self.kids(x)
                &&& after.keys(x).len() == self.keys(x).len()
                &&& self.is_leaf(x) ==> after.pages[x] == self.pages[x]
            }
    }

    /// The pages as high as `q` and above stand where they stood, and but for `q` are what they were.
    pub open spec fn upheld(self, after: Self, q: PageId) -> bool {
        forall|x: PageId| #[trigger]
            self.pages.contains_key(x) && self.place[x].level >= self.place[q].level ==> {
                &&& after.pages.contains_key(x)
                &&& after.place[x].level == self.place[x].level
                &&& after.place[x].up == self.place[x].up
                &&& x != q ==> after.pages[x] == self.pages[x]
            }
    }

    /// `id`, child `at` of `q`, got the last key of `left`, its left neighbour.
    pub open spec fn lent_right(
        self,
        after: Self,
        left: PageId,
        id: PageId,
        q: PageId,
        at: int,
    ) -> bool {
        let last = self.keys(left).last();
        &&& after.root == self.root
        &&& self.kept_but(after, left, id, q)
        &&& after.has_internal(q, self.keys(q).update(at - 1, last), self.kids(q))
        &&& if self.is_leaf(id) {
            &&& after.has_leaf(
                left,
                self.keys(left).drop_last(),
                self.vals(left).drop_last(),
                self.pages[left]->next,
            )
            &&& after.has_leaf(
                id,
                seq![after.keys(id)[0]] + self.keys(id),
                seq![self.vals(left).last()] + self.vals(id),
                self.pages[id]->next,
            )
            &&& cloned(last, after.keys(id)[0])
        } else {
            &&& after.has_internal(
                left,
                self.keys(left).drop_last(),
                self.kids(left).drop_last(),
            )
            &&& after.has_internal(
                id,
                seq![self.keys(q)[at - 1]] + self.keys(id),
                seq![self.kids(left).last()] + self.kids(id),
            )
        }
    }

    /// `id`, child `at` of `q`, got the first key of `right`, its right neighbour.
    pub open spec fn lent_left(
        self,
        after: Self,
        id: PageId,
        right: PageId,
        q: PageId,
        at: int,
    ) -> bool {
        let first = self.keys(right)[0];
        &&& after.root == self.root
        &&& self.kept_but(after, id, right, q)
        &&& if self.is_leaf(id) {
            &&& after.has_leaf(
                right,
                self.keys(right).skip(1),
                self.vals(right).skip(1),
                self.pages[right]->next,
            )
            &&& after.has_leaf(
                id,
                self.keys(id).push(first),
                self.vals(id).push(self.vals(right)[0]),
                self.pages[id]->next,
            )
            &&& after.has_internal(
                q,
                self.keys(q).update(at, after.keys(q)[at]),
                self.kids(q),
            )
            &&& cloned(self.keys(right)[1], after.keys(q)[at])
        } else {
            &&& after.has_internal(right, self.keys(right).skip(1), self.kids(right).skip(1))
            &&& after.has_internal(
                id,
                self.keys(id).push(self.keys(q)[at]),
                self.kids(id).push(self.kids(right)[0]),
            )
            &&& after.has_internal(q, self.keys(q).update(at, first), self.kids(q))
        }
    }

    /// `b`, child `j + 1` of `q`, was merged into `a`, child `j`.
    pub open spec fn paired(self, after: Self, a: PageId, b: PageId, q: PageId, j: int) -> bool {
        &&& after.root == self.root
        &&& self.kept_but(after, a, b, q)
        &&& !after.pages.contains_key(b)
        &&& after.has_internal(q, self.keys(q).remove(j), self.kids(q).remove(j + 1))
        &&& if self.is_leaf(a) {
            after.has_leaf(
                a,
                self.keys(a) + self.keys(b),
                self.vals(a) + self.vals(b),
                self.pages[b]->next,
            )
        } else {
            after.has_internal(
                a,
                self.keys(a).push(self.keys(q)[j]) + self.keys(b),
                self.kids(a) + self.kids(b),
            )
        }
    }

    /// Child `at` of `q` was merged into its left neighbour, or, as the first child, took in its right
    /// one.
    pub open spec fn joined(self, after: Self, q: PageId, at: int) -> bool {
        let cs = self.kids(q);
        if at > 0 {
            self.paired(after, cs[at - 1], cs[at], q, at - 1)
        } else {
            self.paired(after, cs[at], cs[at + 1], q, at)
        }
    }

    /// The separator to the left of `id` under its parent `q` became a clone of `first`. The first
    /// child has none there, and then nothing was done.
    pub open spec fn moved(self, after: Self, q: PageId, id: PageId, first: K) -> bool {
        let at = self.kids(q).index_of(id);
        if at > 0 {
            &&& after.root == self.root
            &&& self.kept_but(after, q, q, q)
            &&& after.has_internal(
                q,
                self.keys(q).update(at - 1, after.keys(q)[at - 1]),
                self.kids(q),
            )
            &&& cloned(first, after.keys(q)[at - 1])
        } else {
            self.unchanged(after)
        }
    }

    /// Where the last page of `path` is a leaf whose first key is not that of `was`, the separator to
    /// its left under its parent followed it.
    pub open spec fn followed(self, after: Self, path: Seq<PageId>, was: Seq<K>) -> bool {
        let id = path.last();
        if path.len() > 1 && self.held_leaf(id) && self.keys(id).len() > 0 && (was.len() == 0
            || was[0] != self.keys(id)[0]) {
            self.moved(after, path[path.len() - 2], id, self.keys(id)[0])
        } else {
            self.unchanged(after)
        }
    }

    /// The last page of `path`, which leads down from the root, was rebalanced.
    ///
    /// It borrowed from its left neighbour, or else from its right one, or else was merged into its
    /// left neighbour, or took in its right one: whichever comes first where a neighbour can spare a
    /// key if it holds more than `min`. A merge costs its parent a separator, so that the parent is
    /// settled next. A root without keys gives way to its only child.
    #[verifier::opaque]
    pub open spec fn rebalanced(self, after: Self, min: nat, path: Seq<PageId>) -> bool
        decreases path.len(), 0nat,
    {
        let id = path.last();
        if path.len() <= 1 {
            if self.held_internal(id) && self.keys(id).len() == 0 && self.kids(id).len() == 1 {
                after.root == Some(self.kids(id)[0]) && after.pages == self.pages.remove(id)
            } else {
                self.unchanged(after)
            }
        } else {
            let q = path[path.len() - 2];
            let cs = self.kids(q);
            let at = cs.index_of(id);
            if at > 0 && self.keys(cs[at - 1]).len() > min {
                self.lent_right(after, cs[at - 1], id, q, at)
            } else if at + 1 < cs.len() && self.keys(cs[at + 1]).len() > min {
                exists|m: Self| #[trigger]
                    self.lent_left(m, id, cs[at + 1], q, at) && m.followed(after, path, self.keys(id))
            } else {
                exists|m: Self| #[trigger]
                    self.joined(m, q, at) && m.settled(after, min, path.drop_last())
            }
        }
    }

    /// The last page of `path` was rebalanced if it is short of keys, and else stayed as it was. A
    /// root is short of keys if it has none.
    #[verifier::opaque]
    pub open spec fn settled(self, after: Self, min: nat, path: Seq<PageId>) -> bool
        decreases path.len(), 1nat,
    {
        if self.keys(path.last()).len() < (if path.len() <= 1 {
            1
        } else {
            min
        }) {
            self.rebalanced(after, min, path)
        } else {
            self.unchanged(after)
        }
    }

    /// Leaf `id` lost its entry `at`.
    pub open spec fn plucked(self, after: Self, id: PageId, at: int) -> bool {
        &&& after.root == self.root
        &&& self.kept_but(after, id, id, id)
        &&& after.has_leaf(
            id,
            self.keys(id).remove(at),
            self.vals(id).remove(at),
            self.pages[id]->next,
        )
    }

    /// `key` was taken out of the leaf at the end of `path`, which leads down to it from the root.
    pub open spec fn shrunk(self, after: Self, min: nat, path: Seq<PageId>, key: K) -> bool {
        let id = path.last();
        let at = rank(self.pages[id].entry_seq(), key) as int;
        if holds(self.pages[id].entry_seq(), key) {
            exists|m: Self, n: Self| #[trigger]
                self.plucked(m, id, at) && #[trigger] m.followed(n, path, self.keys(id)) && if path.len()
                    == 1 && n.keys(id).len() == 0 {
                    after.root is None && after.pages == n.pages.remove(id)
                } else {
                    n.settled(after, min, path)
                }
        } else {
            self.unchanged(after)
        }
    }

    /// A neighbour of `id` among the children of `q` holds more than `min` keys.
    pub open spec fn spares(self, min: nat, q: PageId, id: PageId) -> bool {
        let kids = self.kids(q);
        let at = kids.index_of(id);
        ||| at > 0 && self.keys(kids[at - 1]).len() > min
        ||| at + 1 < kids.len() && self.keys(kids[at + 1]).len() > min
    }

    /// How many pages go away when the last page of `path`, which leads down from the root, is
    /// rebalanced: none if a neighbour can spare a key, and else one, and those that go away because
    /// its parent loses a key.
    pub open spec fn sheds(self, min: nat, path: Seq<PageId>) -> nat
        decreases path.len(), 0nat,
    {
        if path.len() <= 1 {
            1
        } else if self.spares(min, path[path.len() - 2], path.last()) {
            0
        } else {
            1 + self.folds(min, path.drop_last(), self.keys(path[path.len() - 2]).len() - 1)
        }
    }

    /// How many pages go away once the last page of `path` is left with `n` keys.
    pub open spec fn folds(self, min: nat, path: Seq<PageId>, n: int) -> nat
        decreases path.len(), 1nat,
    {
        if n < (if path.len() <= 1 {
            1
        } else {
            min as int
        }) {
            self.sheds(min, path)
        } else {
            0
        }
    }

    /// A page that is short of keys is settled by rebalancing it.
    pub proof fn lemma_settled(self, after: Self, min: nat, path: Seq<PageId>)
        ensures
            self.settled(after, min, path) <==> if self.keys(path.last()).len() < (if path.len()
                <= 1 {
                1
            } else {
                min
            }) {
                self.rebalanced(after, min, path)
            } else {
                self.unchanged(after)
            },
    {
        reveal_with_fuel(Shape::settled, 1);
        reveal_with_fuel(Shape::rebalanced, 1);
    }

    /// A page with a key from its left neighbour is rebalanced.
    pub proof fn lemma_lent_right(self, after: Self, min: nat, path: Seq<PageId>)
        requires
            path.len() > 1,
            ({
                let q = path[path.len() - 2];
                let cs = self.kids(q);
                let at = cs.index_of(path.last());
                &&& at > 0
                &&& self.keys(cs[at - 1]).len() > min
                &&& self.lent_right(after, cs[at - 1], path.last(), q, at)
            }),
        ensures
            self.rebalanced(after, min, path),
    {
        reveal_with_fuel(Shape::rebalanced, 1);
    }

    /// A page with a key from its right neighbour is rebalanced, once the separator to its left has
    /// followed its first key.
    pub proof fn lemma_lent_left(self, m: Self, after: Self, min: nat, path: Seq<PageId>)
        requires
            path.len() > 1,
            ({
                let q = path[path.len() - 2];
                let cs = self.kids(q);
                let at = cs.index_of(path.last());
                &&& at > 0 ==> self.keys(cs[at - 1]).len() <= min
                &&& at + 1 < cs.len()
                &&& self.keys(cs[at + 1]).len() > min
                &&& self.lent_left(m, path.last(), cs[at + 1], q, at)
                &&& m.followed(after, path, self.keys(path.last()))
            }),
        ensures
            self.rebalanced(after, min, path),
    {
        reveal_with_fuel(Shape::rebalanced, 1);
    }

    /// A page that was merged with a neighbour is rebalanced, once its parent is settled.
    pub proof fn lemma_merged(self, m: Self, after: Self, min: nat, path: Seq<PageId>)
        requires
            path.len() > 1,
            ({
                let q = path[path.len() - 2];
                let cs = self.kids(q);
                let at = cs.index_of(path.last());
                &&& at > 0 ==> self.keys(cs[at - 1]).len() <= min
                &&& at + 1 < cs.len() ==> self.keys(cs[at + 1]).len() <= min
                &&& self.joined(m, q, at)
                &&& m.settled(after, min, path.drop_last())
            }),
        ensures
            self.rebalanced(after, min, path),
    {
        reveal_with_fuel(Shape::rebalanced, 1);
        reveal_with_fuel(Shape::settled, 1);
    }

    /// Page `x` is neither among `path` nor next to one of its pages among the children of the page
    /// before it.
    pub open spec fn off_way(self, path: Seq<PageId>, x: PageId) -> bool {
        &&& !path.contains(x)
        &&& forall|i: int, j: int|
            0 <= i && j == i + 1 && j < path.len() ==> {
                let cs = self.kids(#[trigger] path[i]);
                let at = cs.index_of(#[trigger] path[j]);
                &&& at > 0 ==> cs[at - 1] != x
                &&& at + 1 < cs.len() ==> cs[at + 1] != x
            }
    }

    /// Page `c` is one of two or more children of `q`.
    pub open spec fn forks(self, q: PageId, c: PageId) -> bool {
        self.kids(q).contains(c) && self.kids(q).len() > 1
    }

    /// Each page of `path` but the first is a child of the one before it, and no child of a later one.
    pub open spec fn descends(self, path: Seq<PageId>) -> bool {
        &&& forall|i: int, j: int|
            0 <= i && j == i + 1 && j < path.len() ==> self.forks(
                #[trigger] path[i],
                #[trigger] path[j],
            )
        &&& forall|i: int, j: int|
            0 <= i <= j < path.len() ==> !self.kids(#[trigger] path[j]).contains(#[trigger] path[i])
        &&& path.no_duplicates()
    }

    /// Settling the last page of a path leaves every page off the path as it was.
    pub proof fn lemma_settled_kept(self, after: Self, min: nat, path: Seq<PageId>, x: PageId)
        requires
            self.settled(after, min, path),
            path.len() > 0,
            self.descends(path),
            self.off_way(path, x),
            self.pages.contains_key(x),
            forall|i: int| 0 <= i < path.len() ==> self.pages.contains_key(#[trigger] path[i]),
        ensures
            after.pages.contains_key(x),
            after.pages[x] == self.pages[x],
        decreases path.len(), 1nat,
    {
        self.lemma_settled(after, min, path);
        if !self.unchanged(after) {
            self.lemma_rebalanced_kept(after, min, path, x);
        }
    }

    /// Rebalancing the last page of a path leaves every page off the path as it was.
    pub proof fn lemma_rebalanced_kept(self, after: Self, min: nat, path: Seq<PageId>, x: PageId)
        requires
            self.rebalanced(after, min, path),
            path.len() > 0,
            self.descends(path),
            self.off_way(path, x),
            self.pages.contains_key(x),
            forall|i: int| 0 <= i < path.len() ==> self.pages.contains_key(#[trigger] path[i]),
        ensures
            after.pages.contains_key(x),
            after.pages[x] == self.pages[x],
        decreases path.len(), 0nat,
    {
        reveal_with_fuel(Shape::rebalanced, 1);
        reveal_with_fuel(Shape::settled, 1);
        let id = path.last();
        assert(path[path.len() - 1] == id);
        assert(x != id);
        if path.len() > 1 {
            let q = path[path.len() - 2];
            let cs = self.kids(q);
            let at = cs.index_of(id);
            let up = path.drop_last();
            assert(self.forks(q, id));
            assert(cs[at] == id);
            assert(x != q);
            if at > 0 && self.keys(cs[at - 1]).len() > min {
            } else if at + 1 < cs.len() && self.keys(cs[at + 1]).len() > min {
                let m = choose|m: Self| #[trigger]
                    self.lent_left(m, id, cs[at + 1], q, at) && m.followed(
                        after,
                        path,
                        self.keys(id),
                    );
                assert(m.pages.contains_key(x) && m.pages[x] == self.pages[x]);
            } else {
                let n = choose|n: Self| #[trigger]
                    self.joined(n, q, at) && n.settled(after, min, path.drop_last());
                assert(n.pages.contains_key(x) && n.pages[x] == self.pages[x]);
                assert forall|i: int| 0 <= i < up.len() implies {
                    &&& n.pages.contains_key(#[trigger] up[i])
                    &&& i < up.len() - 1 ==> n.kids(up[i]) == self.kids(up[i])
                    &&& forall|c: PageId| n.kids(up[i]).contains(c) ==> self.kids(up[i]).contains(c)
                } by {
                    assert(up[i] == path[i]);
                    assert(self.pages.contains_key(path[i]));
                    assert(!cs.contains(path[i]));
                    if at > 0 {
                        assert(cs.contains(cs[at - 1]));
                    } else {
                        assert(cs.contains(cs[at + 1]));
                    }
                    if i < up.len() - 1 {
                        assert(path[i] != q);
                        assert(n.pages[path[i]] == self.pages[path[i]]);
                    }
                    assert(n.pages.contains_key(path[i]));
                    if i == up.len() - 1 {
                        let j = if at > 0 {
                            at
                        } else {
                            at + 1
                        };
                        let fewer = n.kids(q);
                        assert(fewer == cs.remove(j));
                        assert forall|c: PageId| fewer.contains(c) implies cs.contains(c) by {
                            let k = fewer.index_of(c);
                            assert(fewer[k] == c);
                            assert(cs[if k < j {
                                k
                            } else {
                                k + 1
                            }] == c);
                        }
                    }
                }
                assert forall|i: int, j: int| 0 <= i && j == i + 1 && j < up.len() implies n.forks(
                    #[trigger] up[i],
                    #[trigger] up[j],
                ) by {
                    assert(path[i] == up[i] && path[j] == up[j]);
                    assert(self.forks(path[i], path[j]));
                }
                assert forall|i: int, j: int| 0 <= i <= j < up.len() implies !n.kids(
                    #[trigger] up[j],
                ).contains(#[trigger] up[i]) by {
                    assert(path[i] == up[i] && path[j] == up[j]);
                    assert(!self.kids(path[j]).contains(path[i]));
                }
                assert(up.no_duplicates()) by {
                    assert forall|i: int, j: int| 0 <= i < up.len() && 0 <= j < up.len() && i
                        != j implies up[i] != up[j] by {
                        assert(path[i] == up[i] && path[j] == up[j]);
                    }
                }
                assert(n.off_way(up, x)) by {
                    if up.contains(x) {
                        assert(path[up.index_of(x)] == x);
                    }
                    assert forall|i: int, j: int| 0 <= i && j == i + 1 && j < up.len() implies {
                        let cs = n.kids(#[trigger] up[i]);
                        let at = cs.index_of(#[trigger] up[j]);
                        &&& at > 0 ==> cs[at - 1] != x
                        &&& at + 1 < cs.len() ==> cs[at + 1] != x
                    } by {
                        assert(path[i] == up[i] && path[j] == up[j]);
                    }
                }
                n.lemma_settled_kept(after, min, up, x);
            }
        }
    }

    /// What a delete leaves as it was.
    pub proof fn lemma_delete_kept(
        self,
        m: Self,
        n: Self,
        after: Self,
        min: nat,
        path: Seq<PageId>,
        x: PageId,
    )
        requires
            path.len() > 0,
            self.descends(path),
            self.off_way(path, x),
            self.pages.contains_key(x),
            forall|i: int| 0 <= i < path.len() ==> self.pages.contains_key(#[trigger] path[i]),
            self.held_leaf(path.last()),
            self.kept_but(m, path.last(), path.last(), path.last()),
            m.held_leaf(path.last()),
            m.followed(n, path, self.keys(path.last())),
            if path.len() == 1 && n.keys(path.last()).len() == 0 {
                after.pages == n.pages.remove(path.last())
            } else {
                n.settled(after, min, path)
            },
        ensures
            after.pages.contains_key(x),
            after.pages[x] == self.pages[x],
    {
        let leaf = path.last();
        assert(path[path.len() - 1] == leaf);
        assert forall|p: PageId| #[trigger] self.pages.contains_key(p) implies {
            &&& n.pages.contains_key(p)
            &&& n.kids(p) == self.kids(p)
            &&& !path.contains(p) ==> n.pages[p] == self.pages[p]
        } by {
            assert(m.pages.contains_key(p));
            if path.len() > 1 {
                assert(path.contains(path[path.len() - 2]));
            }
        }
        if !(path.len() == 1 && n.keys(leaf).len() == 0) {
            assert(n.descends(path));
            n.lemma_settled_kept(after, min, path, x);
        }
    }

    /// Entry `at` taken out of leaf `id`, which leaves the separators of all leaves but this one where
    /// they belong, and of this one too unless its first key has changed.
    pub proof fn lemma_plucked(self, s1: Self, id: PageId, at: int, key: K)
        requires
            lawful::<K>(),
            self.tree_ok(None),
            self.held_leaf(id),
            s1 == self.write(id, s1.pages[id]),
            0 <= at < self.keys(id).len(),
            forall|j: int| 0 <= j < at ==> before(#[trigger] self.keys(id)[j], key),
            same(key, self.keys(id)[at]),
            s1.is_leaf(id),
            s1.pages[id]->next == self.pages[id]->next,
            s1.keys(id) == self.keys(id).remove(at),
            s1.vals(id) == self.vals(id).remove(at),
        ensures
            self.plucked(s1, id, at),
            self.tight(None) ==> s1.tight(Some(id)),
            self.tight(None) && (at > 0 || s1.keys(id).len() == 0) ==> s1.tight(None),
            rank(self.pages[id].entry_seq(), key) == at,
            holds(self.pages[id].entry_seq(), key),
            s1.keys(id).len() > 0 ==> (s1.keys(id)[0] == self.keys(id)[0] <==> at > 0),
    {
        self.lemma_rank_of_leaf(id, key, at);
        self.lemma_page(None, id);
        if at == 0 && s1.keys(id).len() > 0 {
            assert(before(self.keys(id)[0], self.keys(id)[1]));
            lemma_before_asymmetric(self.keys(id)[0], self.keys(id)[1]);
        }
        assert forall|x: PageId| #[trigger]
            self.tight(None) && s1.pages.contains_key(x) && s1.is_leaf(x) && s1.keys(x).len() > 0
                && s1.place[x].lo is Some && (x != id || at > 0) implies same(
            s1.place[x].lo->0,
            s1.keys(x)[0],
        ) by {
            assert(self.pages.contains_key(x));
        }
    }

    /// A child of the last page of `stack` stands below it.
    pub proof fn lemma_stack_down(self, stack: Seq<PageId>, id: PageId)
        requires
            stack.len() > 0,
            self.stack_ok(stack.drop_last(), stack.last()),
            self.pages.contains_key(id),
            self.place[id].up == Some(stack.last()),
            self.place[stack.last()].level == self.place[id].level + 1,
        ensures
            self.stack_ok(stack, id),
    {
        let up = stack.drop_last().push(stack.last());
        let path = stack.push(id);
        assert(up =~= stack);
        assert(path[0] == up[0]);
        assert forall|i: int| 0 <= i < path.len() implies self.pages.contains_key(#[trigger] path[i])
            && self.place[path[i]].level == self.place[id].level + (stack.len() - i) by {
            if i < stack.len() {
                assert(path[i] == up[i]);
            }
        }
        assert forall|i: int, j: int| 0 <= i && j == i + 1 && j < path.len() implies self.place[
        #[trigger] path[j]].up == Some(#[trigger] path[i]) by {
            assert(path[i] == up[i]);
            if j < stack.len() {
                assert(path[j] == up[j]);
            }
        }
    }

    /// Whether pages go away depends on the key counts of the pages on the way up and of their
    /// neighbours.
    pub proof fn lemma_folds_kept(self, s2: Self, min: nat, stack: Seq<PageId>, id: PageId, n: int)
        requires
            lawful::<K>(),
            self.tree_ok(None),
            self.stack_ok(stack, id),
            forall|x: PageId| #[trigger]
                self.pages.contains_key(x) && self.place[x].level > self.place[id].level
                    ==> s2.kids(x) == self.kids(x),
            forall|x: PageId| #[trigger]
                self.pages.contains_key(x) && self.place[x].level >= self.place[id].level && x != id
                    ==> s2.keys(x).len() == self.keys(x).len(),
        ensures
            s2.folds(min, stack.push(id), n) == self.folds(min, stack.push(id), n),
            s2.sheds(min, stack.push(id)) == self.sheds(min, stack.push(id)),
        decreases stack.len(),
    {
        let path = stack.push(id);
        if stack.len() > 0 {
            let q = stack.last();
            self.lemma_stack_up(stack, id);
            self.lemma_stack_apart(stack, id);
            self.lemma_page(None, q);
            self.lemma_alike(q);
            self.lemma_kids_distinct(None, q);
            assert(self.pages.contains_key(id) && self.kids(q).contains(id)) by {
                assert(path[stack.len() as int] == id);
                self.lemma_page(None, id);
                assert(self.root != Some(id));
            }
            let kids = self.kids(q);
            let at = kids.index_of(id);
            assert(kids[at] == id);
            if at > 0 {
                assert(self.pages.contains_key(kids[at - 1]) && kids[at - 1] != id);
            }
            if at + 1 < kids.len() {
                assert(self.pages.contains_key(kids[at + 1]) && kids[at + 1] != id);
            }
            assert(s2.spares(min, q, id) == self.spares(min, q, id));
            assert(path.drop_last() =~= stack);
            assert(stack.drop_last().push(q) =~= stack);
            assert(path[path.len() - 2] == q);
            self.lemma_folds_kept(s2, min, stack.drop_last(), q, self.keys(q).len() - 1);
        }
    }
}

} // verus!
