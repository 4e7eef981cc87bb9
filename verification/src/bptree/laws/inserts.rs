//! What an insert does to the pages.

use super::super::entries::{holds, lemma_rank_bounds, lemma_turn, rank, turn};
use super::super::shape::{capped, floored, raised, Shape};
use super::super::{BPlusTree, BPlusTreeNode, PageId};
use super::{law_way, steers};
use crate::order::{before, group_order, lawful, lemma_before_asymmetric, lemma_clone_same};
use vstd::prelude::*;

verus! {

/// `key` belongs at position `at` of `keys`: what is to the left of it comes before it, and what is to
/// the right after it.
pub open spec fn fits<K: Ord>(keys: Seq<K>, key: K, at: int) -> bool {
    &&& 0 <= at <= keys.len()
    &&& forall|i: int| 0 <= i < at ==> before(#[trigger] keys[i], key)
    &&& forall|i: int| at <= i < keys.len() ==> before(key, #[trigger] keys[i])
}

/// `keys` and `kids` are the separators and the children of `was`, with `right` put behind its child
/// `left` and `sep` between the two.
pub open spec fn took_in<K, V>(
    was: BPlusTreeNode<K, V>,
    keys: Seq<K>,
    kids: Seq<PageId>,
    left: PageId,
    right: PageId,
    sep: K,
) -> bool {
    exists|t: int|
        {
            &&& 0 <= t < was.child_seq().len()
            &&& #[trigger] was.child_seq()[t] == left
            &&& keys == was.key_seq().insert(t, sep)
            &&& kids == was.child_seq().insert(t + 1, right)
        }
}

/// The page of the right half of the page that stands at `i` on a way of `height` pages, where `issued`
/// page numbers were handed out before: the leaf gets the first new page, its parent the next one.
pub open spec fn right_half(issued: nat, height: nat, i: int) -> PageId {
    (issued + (height - 1 - i)) as PageId
}

/// The internal node at `i` of the way to `key` was cut in two: it kept the left half, `seps[i]` went up,
/// and the halves together are what it was with the new child of the level below. The halves hold the
/// same number of keys, or the left one more.
pub open spec fn handed_up<K: Ord + Clone, V>(
    tree: BPlusTree<K, V>,
    after: BPlusTree<K, V>,
    key: K,
    seps: Seq<K>,
    i: int,
) -> bool {
    let path = tree.way(key);
    let r = right_half(tree.pages_issued(), path.len(), i);
    let left = after.nodes()[path[i]];
    let right = after.nodes()[r];
    &&& after.nodes().contains_key(path[i])
    &&& after.nodes().contains_key(r)
    &&& left is Internal
    &&& right is Internal
    &&& 0 <= left.key_seq().len() - right.key_seq().len() <= 1
    &&& took_in(
        tree.nodes()[path[i]],
        left.key_seq().push(seps[i]) + right.key_seq(),
        left.child_seq() + right.child_seq(),
        path[i + 1],
        right_half(tree.pages_issued(), path.len(), i + 1),
        seps[i + 1],
    )
}

impl<K: Ord + Clone, V> Shape<K, V> {
    /// A separator within the bounds of the child that `key` belongs to stands next to this child.
    proof fn lemma_same_turn(self, q: PageId, c: PageId, key: K, sep: K) -> (t: int)
        requires
            lawful::<K>(),
            self.tree_ok(None),
            self.held_internal(q),
            steers(self.pages[q], key, c),
            floored(self.place[c].lo, sep),
            capped(sep, self.place[c].hi),
        ensures
            0 <= t < self.kids(q).len(),
            self.kids(q)[t] == c,
            t <= self.keys(q).len(),
            turn(self.keys(q), sep) == t,
            floored(self.place[q].lo, sep),
            capped(sep, self.place[q].hi),
    {
        broadcast use group_order;

        self.lemma_page(None, q);
        let node = self.pages[q];
        let keys = self.keys(q);
        let t = choose|i: int|
            {
                &&& 0 <= i < node.child_seq().len()
                &&& #[trigger] node.child_seq()[i] == c
                &&& i > 0 ==> !before(key, node.key_seq()[i - 1])
                &&& i < node.key_seq().len() ==> before(key, node.key_seq()[i])
            };
        assert(self.link_ok(None, q, t));
        assert forall|i: int| 0 <= i < t implies !before(sep, #[trigger] keys[i]) by {
            if i < t - 1 {
                assert(before(keys[i], keys[t - 1]));
            }
        }
        lemma_turn(keys, sep, t);
        if t > 0 {
            assert(raised(self.place[q].lo, keys[t - 1]));
        }
        if t < keys.len() {
            assert(capped(keys[t], self.place[q].hi));
        }
        t
    }

    /// What the leaf at the end of a way hands up when it is cut in two.
    proof fn lemma_climb_leaf(
        self,
        after: Self,
        max: nat,
        path: Seq<PageId>,
        key: K,
        value: V,
        fresh: int,
    ) -> (sep: K)
        requires
            lawful::<K>(),
            self.tree_ok(None),
            path.len() > 0,
            self.held_leaf(path.last()),
            floored(self.place[path.last()].lo, key),
            capped(key, self.place[path.last()].hi),
            !holds(self.pages[path.last()].entry_seq(), key),
            self.grown(after, max, path, key, value, fresh),
            self.keys(path.last()).len() == max,
        ensures
            floored(self.place[path.last()].lo, sep),
            capped(sep, self.place[path.last()].hi),
            self.adopted(
                after,
                max,
                path.last(),
                fresh as PageId,
                sep,
                path.take(path.len() - 1),
                fresh + 1,
            ),
            cloned(after.keys(fresh as PageId)[0], sep),
    {
        broadcast use group_order;

        let leaf = path.last();
        let node = self.pages[leaf];
        let at = rank(node.entry_seq(), key) as int;
        lemma_rank_bounds(node.entry_seq(), key);
        let keys = node.key_seq().insert(at, key);
        let mid = keys.len() as int / 2;
        let sep = choose|sep: K|
            #![trigger cloned(keys[mid], sep)]
            cloned(keys[mid], sep) && self.adopted(
                after,
                max,
                leaf,
                fresh as PageId,
                sep,
                path.drop_last(),
                fresh + 1,
            );
        lemma_clone_same(keys[mid], sep);
        self.lemma_page(None, leaf);
        if mid != at {
            let j = if mid < at {
                mid
            } else {
                mid - 1
            };
            assert(keys[mid] == node.key_seq()[j]);
            assert(floored(self.place[leaf].lo, node.key_seq()[j]));
        }
        assert(path.drop_last() =~= path.take(path.len() - 1));
        sep
    }

    /// What a full page hands up when it takes in a new child and is cut in two.
    proof fn lemma_climb_step(
        self,
        after: Self,
        max: nat,
        stack: Seq<PageId>,
        c: PageId,
        right: PageId,
        key: K,
        sep: K,
        fresh: int,
    ) -> (up: K)
        requires
            lawful::<K>(),
            self.tree_ok(None),
            stack.len() > 0,
            self.held_internal(stack.last()),
            steers(self.pages[stack.last()], key, c),
            floored(self.place[c].lo, sep),
            capped(sep, self.place[c].hi),
            self.keys(stack.last()).len() == max,
            self.adopted(after, max, c, right, sep, stack, fresh),
        ensures
            ({
                let q = stack.last();
                let left = after.pages[q];
                let new = after.pages[fresh as PageId];
                &&& floored(self.place[q].lo, up)
                &&& capped(up, self.place[q].hi)
                &&& self.adopted(
                    after,
                    max,
                    q,
                    fresh as PageId,
                    up,
                    stack.drop_last(),
                    fresh + 1,
                )
                &&& after.pages.contains_key(q)
                &&& after.pages.contains_key(fresh as PageId)
                &&& left is Internal
                &&& new is Internal
                &&& 0 <= left.key_seq().len() - new.key_seq().len() <= 1
                &&& took_in(
                    self.pages[q],
                    left.key_seq().push(up) + new.key_seq(),
                    left.child_seq() + new.child_seq(),
                    c,
                    right,
                    sep,
                )
            }),
    {
        let q = stack.last();
        self.lemma_page(None, q);
        let t = self.lemma_same_turn(q, c, key, sep);
        let keys = self.keys(q).insert(t, sep);
        let kids = self.kids(q).insert(t + 1, right);
        let mid = keys.len() as int / 2;
        let new = fresh as PageId;
        assert(keys.len() == max + 1);
        assert(Self::halved_internal(after, keys, kids, q, new));
        let up = keys[mid];
        if mid != t {
            let j = if mid < t {
                mid
            } else {
                mid - 1
            };
            assert(up == self.keys(q)[j]);
            assert(raised(self.place[q].lo, self.keys(q)[j]));
            if let Some(lo) = self.place[q].lo {
                lemma_before_asymmetric(lo, up);
            }
        }
        assert(after.keys(q).push(up) + after.keys(new) =~= keys);
        assert(after.kids(q) + after.kids(new) =~= kids);
        assert(self.pages[q].child_seq()[t] == c);
        up
    }

    /// How the splits go up the way to `key`, from the leaf to page `n`, where all these pages are full.
    proof fn lemma_climb(
        self,
        after: Self,
        max: nat,
        path: Seq<PageId>,
        key: K,
        value: V,
        fresh: int,
        n: int,
    ) -> (seps: Seq<K>)
        requires
            lawful::<K>(),
            self.tree_ok(None),
            0 <= n < path.len(),
            self.held_leaf(path.last()),
            floored(self.place[path.last()].lo, key),
            capped(key, self.place[path.last()].hi),
            !holds(self.pages[path.last()].entry_seq(), key),
            self.grown(after, max, path, key, value, fresh),
            forall|i: int| n <= i < path.len() ==> self.keys(#[trigger] path[i]).len() == max,
            forall|i: int, j: int|
                0 <= i && j == i + 1 && j < path.len() ==> self.leads(
                    #[trigger] path[i],
                    #[trigger] path[j],
                    key,
                ),
        ensures
            seps.len() == path.len(),
            floored(self.place[path[n]].lo, seps[n]),
            capped(seps[n], self.place[path[n]].hi),
            self.adopted(
                after,
                max,
                path[n],
                (fresh + (path.len() - 1 - n)) as PageId,
                seps[n],
                path.take(n),
                fresh + (path.len() - n),
            ),
            cloned(after.keys(fresh as PageId)[0], seps[path.len() - 1]),
            forall|i: int|
                n <= i < path.len() - 1 ==> #[trigger] self.rose(after, path, fresh, seps, i),
        decreases path.len() - n,
    {
        let h = path.len() as int;
        assert(path[h - 1] == path.last());
        assert(self.keys(path[n]).len() == max);
        if n == h - 1 {
            let sep = self.lemma_climb_leaf(after, max, path, key, value, fresh);
            Seq::new(path.len(), |i: int| sep)
        } else {
            let below = self.lemma_climb(after, max, path, key, value, fresh, n + 1);
            let stack = path.take(n + 1);
            assert(stack.last() == path[n]);
            assert(stack.drop_last() =~= path.take(n));
            assert(self.leads(path[n], path[n + 1], key));
            let up = self.lemma_climb_step(
                after,
                max,
                stack,
                path[n + 1],
                (fresh + (h - 2 - n)) as PageId,
                key,
                below[n + 1],
                fresh + (h - 1 - n),
            );
            let seps = below.update(n, up);
            assert forall|i: int| n <= i < h - 1 implies #[trigger] self.rose(
                after,
                path,
                fresh,
                seps,
                i,
            ) by {
                if i > n {
                    assert(self.rose(after, path, fresh, below, i));
                }
            }
            seps
        }
    }

    /// Page `q` is an internal node, and `c` the child of it that `key` belongs to.
    spec fn leads(self, q: PageId, c: PageId, key: K) -> bool {
        self.held_internal(q) && steers(self.pages[q], key, c)
    }

    /// Page `i` of `path` was cut in two and handed `seps[i]` up.
    spec fn rose(
        self,
        after: Self,
        path: Seq<PageId>,
        fresh: int,
        seps: Seq<K>,
        i: int,
    ) -> bool {
        let h = path.len() as int;
        let r = (fresh + (h - 1 - i)) as PageId;
        let left = after.pages[path[i]];
        let right = after.pages[r];
        &&& after.pages.contains_key(path[i])
        &&& after.pages.contains_key(r)
        &&& left is Internal
        &&& right is Internal
        &&& 0 <= left.key_seq().len() - right.key_seq().len() <= 1
        &&& took_in(
            self.pages[path[i]],
            left.key_seq().push(seps[i]) + right.key_seq(),
            left.child_seq() + right.child_seq(),
            path[i + 1],
            (fresh + (h - 2 - i)) as PageId,
            seps[i + 1],
        )
    }
}

/// The first entry makes a tree of one leaf.
pub proof fn law_first_entry<K: Ord + Clone, V>(
    tree: BPlusTree<K, V>,
    after: BPlusTree<K, V>,
    key: K,
    value: V,
)
    requires
        tree.wf(),
        tree.root_page() is None,
        tree.grew(&after, key, value),
    ensures
        ({
            let page = tree.pages_issued() as PageId;
            let leaf = after.nodes()[page];
            &&& after.root_page() == Some(page)
            &&& after.nodes().dom() == set![page]
            &&& leaf is Leaf
            &&& leaf.key_seq() == seq![key]
            &&& leaf.value_seq() == seq![value]
            &&& leaf->next is None
        }),
{
}

/// A new key goes to its place in its leaf, with its value; where the leaf has room for it nothing else
/// changes and no page is needed.
pub proof fn law_into_leaf<K: Ord + Clone, V>(
    tree: BPlusTree<K, V>,
    after: BPlusTree<K, V>,
    key: K,
    value: V,
) -> (at: int)
    requires
        lawful::<K>(),
        tree.wf(),
        tree.root_page() is Some,
        !holds(tree.entries(), key),
        tree.nodes()[tree.way(key).last()].key_seq().len() < tree.max_keys(),
        tree.grew(&after, key, value),
    ensures
        tree.pages_needed(key) == 0,
        after.root_page() == tree.root_page(),
        ({
            let leaf = tree.way(key).last();
            let was = tree.nodes()[leaf];
            let is = after.nodes()[leaf];
            &&& after.nodes().contains_key(leaf)
            &&& is is Leaf
            &&& fits(was.key_seq(), key, at)
            &&& is.key_seq() == was.key_seq().insert(at, key)
            &&& is.value_seq() == was.value_seq().insert(at, value)
            &&& is->next == was->next
            &&& forall|x: PageId| #[trigger]
                tree.nodes().contains_key(x) && x != leaf ==> after.nodes().contains_key(x)
                    && after.nodes()[x] == tree.nodes()[x]
        }),
{
    let s = tree.shape();
    s.lemma_route_leaf(key);
    let leaf = tree.way(key).last();
    let at = lemma_fits(tree, key);
    assert(s.route(s.root->0, key).len() > 0) by {
        law_way(tree, key);
    }
    assert forall|x: PageId| #[trigger]
        tree.nodes().contains_key(x) && x != leaf implies after.nodes().contains_key(x)
        && after.nodes()[x] == tree.nodes()[x] by {
        assert(!seq![leaf].contains(x));
    }
    at
}

/// The place of a new key in its leaf is its rank there.
proof fn lemma_fits<K: Ord + Clone, V>(tree: BPlusTree<K, V>, key: K) -> (at: int)
    requires
        lawful::<K>(),
        tree.wf(),
        tree.root_page() is Some,
        !holds(tree.entries(), key),
    ensures
        ({
            let leaf = tree.nodes()[tree.way(key).last()];
            &&& at == rank(leaf.entry_seq(), key)
            &&& fits(leaf.key_seq(), key, at)
            &&& leaf is Leaf
            &&& leaf.value_seq().len() == leaf.key_seq().len()
            &&& !holds(leaf.entry_seq(), key)
        }),
{
    broadcast use group_order;

    let s = tree.shape();
    s.lemma_route_leaf(key);
    let id = tree.way(key).last();
    s.lemma_page(None, id);
    let leaf = s.pages[id];
    let here = leaf.entry_seq();
    let at = rank(here, key) as int;
    lemma_rank_bounds(here, key);
    assert forall|i: int| 0 <= i < at implies before(#[trigger] leaf.key_seq()[i], key) by {
        assert(before(here[i].0, key));
    }
    assert forall|i: int| at <= i < leaf.key_seq().len() implies before(
        key,
        #[trigger] leaf.key_seq()[i],
    ) by {
        assert(before(key, here[at].0));
        if i > at {
            assert(before(leaf.key_seq()[at], leaf.key_seq()[i]));
        }
    }
    at
}

/// A full leaf is cut in the middle: it keeps the first half of the entries, the new one among them in
/// its place, and the rest, as many or one more, goes to the next new page, which follows it in the
/// chain.
pub proof fn law_leaf_split<K: Ord + Clone, V>(
    tree: BPlusTree<K, V>,
    after: BPlusTree<K, V>,
    key: K,
    value: V,
) -> (at: int)
    requires
        lawful::<K>(),
        tree.wf(),
        tree.root_page() is Some,
        !holds(tree.entries(), key),
        tree.nodes()[tree.way(key).last()].key_seq().len() == tree.max_keys(),
        tree.grew(&after, key, value),
    ensures
        ({
            let leaf = tree.way(key).last();
            let new = tree.pages_issued() as PageId;
            let was = tree.nodes()[leaf];
            let left = after.nodes()[leaf];
            let right = after.nodes()[new];
            &&& after.nodes().contains_key(leaf)
            &&& after.nodes().contains_key(new)
            &&& left is Leaf
            &&& right is Leaf
            &&& fits(was.key_seq(), key, at)
            &&& left.key_seq() + right.key_seq() == was.key_seq().insert(at, key)
            &&& left.value_seq() + right.value_seq() == was.value_seq().insert(at, value)
            &&& left.value_seq().len() == left.key_seq().len()
            &&& 0 <= right.key_seq().len() - left.key_seq().len() <= 1
            &&& left->next == Some(new)
            &&& right->next == was->next
        }),
{
    let s = tree.shape();
    let at = lemma_fits(tree, key);
    let leaf = tree.way(key).last();
    let new = tree.pages_issued() as PageId;
    let was = s.pages[leaf];
    let keys = was.key_seq().insert(at, key);
    let values = was.value_seq().insert(at, value);
    assert(after.shape().keys(leaf) + after.shape().keys(new) =~= keys);
    assert(after.nodes()[leaf].value_seq() + after.nodes()[new].value_seq() =~= values);
    at
}

/// How the splits of an insert go up: from the leaf, up to the page at `n` of the way, every page is
/// full. Each of these pages is cut in two, hands a separator up, and its right half gets the next new
/// page, which the page above takes in behind it; the leaf hands up a clone of the first key of its
/// right half. The page above the last of them that has room takes the new child in, and nothing
/// further up changes; where there is none, a new root with the two halves of the old one is made.
pub proof fn law_climb<K: Ord + Clone, V>(
    tree: BPlusTree<K, V>,
    after: BPlusTree<K, V>,
    key: K,
    value: V,
    n: int,
) -> (seps: Seq<K>)
    requires
        lawful::<K>(),
        tree.wf(),
        !holds(tree.entries(), key),
        tree.grew(&after, key, value),
        0 <= n < tree.way(key).len(),
        forall|i: int|
            n <= i < tree.way(key).len() ==> tree.nodes()[#[trigger] tree.way(
                key,
            )[i]].key_seq().len() == tree.max_keys(),
    ensures
        ({
            let path = tree.way(key);
            let h = path.len();
            let right = right_half(tree.pages_issued(), h, n);
            &&& seps.len() == h
            &&& cloned(
                after.nodes()[right_half(tree.pages_issued(), h, h - 1)].key_seq()[0],
                seps[h - 1],
            )
            &&& forall|i: int| n <= i < h - 1 ==> #[trigger] handed_up(tree, after, key, seps, i)
            &&& n > 0 && tree.nodes()[path[n - 1]].key_seq().len() < tree.max_keys() ==> {
                let q = path[n - 1];
                &&& after.root_page() == tree.root_page()
                &&& after.nodes().contains_key(q)
                &&& after.nodes()[q] is Internal
                &&& took_in(
                    tree.nodes()[q],
                    after.nodes()[q].key_seq(),
                    after.nodes()[q].child_seq(),
                    path[n],
                    right,
                    seps[n],
                )
                &&& forall|i: int|
                    0 <= i < n - 1 ==> after.nodes()[#[trigger] path[i]] == tree.nodes()[path[i]]
            }
            &&& n == 0 ==> {
                let top = right_half(tree.pages_issued(), h, -1);
                &&& after.root_page() == Some(top)
                &&& after.nodes().contains_key(top)
                &&& after.nodes()[top] is Internal
                &&& after.nodes()[top].key_seq() == seq![seps[0]]
                &&& after.nodes()[top].child_seq() == seq![path[0], right]
            }
        }),
{
    let s = tree.shape();
    let path = tree.way(key);
    let h = path.len() as int;
    let max = tree.max_keys();
    let fresh = tree.pages_issued() as int;
    let t = after.shape();
    law_way(tree, key);
    let at = lemma_fits(tree, key);
    s.lemma_root(None);
    s.lemma_page(None, s.root->0);
    s.lemma_route(s.root->0, key);
    assert forall|i: int| n <= i < path.len() implies s.keys(#[trigger] path[i]).len() == max by {
        assert(tree.nodes()[tree.way(key)[i]].key_seq().len() == tree.max_keys());
    }
    assert forall|i: int, j: int| 0 <= i && j == i + 1 && j < path.len() implies s.leads(
        #[trigger] path[i],
        #[trigger] path[j],
        key,
    ) by {
        assert(s.pages.contains_key(path[i]));
        s.lemma_page(None, path[i]);
    }
    let seps = s.lemma_climb(t, max, path, key, value, fresh, n);
    assert forall|i: int| n <= i < h - 1 implies #[trigger] handed_up(tree, after, key, seps, i) by {
        assert(s.rose(t, path, fresh, seps, i));
    }
    if n > 0 && tree.nodes()[path[n - 1]].key_seq().len() < max {
        let q = path[n - 1];
        let stack = path.take(n);
        assert(stack.last() == q);
        assert(s.pages.contains_key(q));
        s.lemma_page(None, q);
        assert(steers(s.pages[path[n - 1]], key, path[n]));
        let at = s.lemma_same_turn(q, path[n], key, seps[n]);
        assert(s.pages[q].child_seq()[at] == path[n]);
        assert forall|i: int| 0 <= i < n - 1 implies after.nodes()[#[trigger] path[i]]
            == tree.nodes()[path[i]] by {
            assert(stack[i] == path[i]);
            assert(s.pages.contains_key(path[i]));
        }
    }
    seps
}

/// An insert of a new key takes a page for each full node at the end of the way, and one more for a new
/// root if all of them are full.
pub proof fn law_pages_needed_exactly<K: Ord + Clone, V>(tree: BPlusTree<K, V>, key: K, n: nat)
    requires
        lawful::<K>(),
        tree.wf(),
        !holds(tree.entries(), key),
        n <= tree.way(key).len(),
        forall|i: int|
            tree.way(key).len() - n <= i < tree.way(key).len() ==> tree.nodes()[#[trigger] tree.way(
                key,
            )[i]].key_seq().len() == tree.max_keys(),
        n < tree.way(key).len() ==> tree.nodes()[tree.way(key)[tree.way(key).len() - n
            - 1]].key_seq().len() < tree.max_keys(),
    ensures
        tree.pages_needed(key) == n + (if n == tree.way(key).len() {
            1int
        } else {
            0
        }),
{
    let s = tree.shape();
    law_way(tree, key);
    if s.root is Some {
        let path = tree.way(key);
        assert forall|i: int| path.len() - n <= i < path.len() implies s.keys(
            #[trigger] path[i],
        ).len() == tree.max_keys() by {
            assert(tree.nodes()[tree.way(key)[i]].key_seq().len() == tree.max_keys());
        }
        s.lemma_splits_exactly(tree.max_keys(), path, n);
    }
}

impl<K: Ord + Clone, V> Shape<K, V> {
    /// As many pages split as are full at the end of the path.
    proof fn lemma_splits_exactly(self, max: nat, path: Seq<PageId>, n: nat)
        requires
            n <= path.len(),
            forall|i: int|
                path.len() - n <= i < path.len() ==> self.keys(#[trigger] path[i]).len() == max,
            n < path.len() ==> self.keys(path[path.len() - n - 1]).len() < max,
        ensures
            self.splits(max, path) == n + (if n == path.len() {
                1int
            } else {
                0
            }),
        decreases n,
    {
        if n > 0 {
            let up = path.drop_last();
            assert(self.keys(path[path.len() - 1]).len() == max);
            assert forall|i: int| up.len() - (n - 1) <= i < up.len() implies self.keys(
                #[trigger] up[i],
            ).len() == max by {
                assert(up[i] == path[i]);
            }
            self.lemma_splits_exactly(max, up, (n - 1) as nat);
        }
    }
}

} // verus!
