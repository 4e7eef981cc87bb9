//! The structure of a tree, and what makes it well formed.

mod grow;
mod settle;
mod shrink;
mod tight;

pub use tight::lemma_reflexive;

use crate::bptree::entries::{holds, lemma_rank, rank, sorted, turn};
use crate::bptree::{BPlusTreeNode, PageId};
use crate::order::{before, group_order, lawful};
use vstd::prelude::*;

verus! {

/// Where a page stands in the tree.
pub struct Place<K> {
    /// The distance to the leaves.
    pub level: nat,
    /// Every key under the page is at or above `lo`, and before `hi`.
    pub lo: Option<K>,
    pub hi: Option<K>,
    /// The parent page.
    pub up: Option<PageId>,
}

/// The pages of a tree, each with its place, and the leaves from left to right.
pub struct Shape<K, V> {
    pub pages: Map<PageId, BPlusTreeNode<K, V>>,
    pub place: Map<PageId, Place<K>>,
    pub chain: Seq<PageId>,
    pub root: Option<PageId>,
}

/// `lo <= k`.
pub open spec fn floored<K: Ord>(lo: Option<K>, k: K) -> bool {
    lo matches Some(l) ==> !before(k, l)
}

/// `lo < k`.
pub open spec fn raised<K: Ord>(lo: Option<K>, k: K) -> bool {
    lo matches Some(l) ==> before(l, k)
}

/// `k < hi`.
pub open spec fn capped<K: Ord>(k: K, hi: Option<K>) -> bool {
    hi matches Some(h) ==> before(k, h)
}

/// `lo < hi`.
pub open spec fn roomy<K: Ord>(lo: Option<K>, hi: Option<K>) -> bool {
    lo matches Some(l) ==> hi matches Some(h) ==> before(l, h)
}

/// The lower bound of child `i` of a node with lower bound `lo` and separators `keys`.
pub open spec fn lo_at<K>(lo: Option<K>, keys: Seq<K>, i: int) -> Option<K> {
    if i == 0 {
        lo
    } else {
        Some(keys[i - 1])
    }
}

/// The upper bound of child `i` of a node with upper bound `hi` and separators `keys`.
pub open spec fn hi_at<K>(hi: Option<K>, keys: Seq<K>, i: int) -> Option<K> {
    if i == keys.len() {
        hi
    } else {
        Some(keys[i])
    }
}

/// The entries of the leaves `chain`, from left to right.
pub open spec fn flat<K, V>(
    pages: Map<PageId, BPlusTreeNode<K, V>>,
    chain: Seq<PageId>,
) -> Seq<(K, V)>
    decreases chain.len(),
{
    if chain.len() == 0 {
        Seq::empty()
    } else {
        flat(pages, chain.drop_last()) + pages[chain.last()].entry_seq()
    }
}

/// The two halves of a node that was split.
pub struct Halves {
    pub left: PageId,
    pub right: PageId,
}

/// A split that the parent does not know of yet.
pub type Pending = Option<Halves>;

impl<K: Ord + Clone, V> Shape<K, V> {
    /// Page `id` is a leaf.
    pub open spec fn is_leaf(self, id: PageId) -> bool {
        self.pages[id] is Leaf
    }

    /// The keys of page `id`.
    pub open spec fn keys(self, id: PageId) -> Seq<K> {
        self.pages[id].key_seq()
    }

    /// The children of page `id`.
    pub open spec fn kids(self, id: PageId) -> Seq<PageId> {
        self.pages[id].child_seq()
    }

    /// The upper bound of what the parent takes `id` for.
    pub open spec fn reach(self, pend: Pending, id: PageId) -> Option<K> {
        if pend is Some && pend->0.left == id {
            self.place[pend->0.right].hi
        } else {
            self.place[id].hi
        }
    }

    /// Child `i` of `id` stands where the separators of `id` say.
    pub open spec fn link_ok(self, pend: Pending, id: PageId, i: int) -> bool {
        let p = self.place[id];
        let c = self.kids(id)[i];
        &&& self.pages.contains_key(c)
        &&& self.place[c].level + 1 == p.level
        &&& self.place[c].up == Some(id)
        &&& self.place[c].lo == lo_at(p.lo, self.keys(id), i)
        &&& self.reach(pend, c) == hi_at(p.hi, self.keys(id), i)
    }

    /// The node of page `id` is in order, and its children stand where it says.
    pub open spec fn node_ok(self, pend: Pending, id: PageId) -> bool {
        let n = self.pages[id];
        let p = self.place[id];
        &&& roomy(p.lo, p.hi)
        &&& sorted(n.key_seq())
        &&& if n is Leaf {
            &&& p.level == 0
            &&& n.value_seq().len() == n.key_seq().len()
            &&& forall|i: int|
                0 <= i < n.key_seq().len() ==> floored(p.lo, #[trigger] n.key_seq()[i]) && capped(
                    n.key_seq()[i],
                    p.hi,
                )
        } else {
            &&& p.level > 0
            &&& n.child_seq().len() == n.key_seq().len() + 1
            &&& forall|i: int|
                0 <= i < n.key_seq().len() ==> raised(p.lo, #[trigger] n.key_seq()[i]) && capped(
                    n.key_seq()[i],
                    p.hi,
                )
            &&& forall|i: int| 0 <= i < n.child_seq().len() ==> #[trigger] self.link_ok(pend, id, i)
        }
    }

    /// Page `id` is the root, or one of the children of its parent.
    pub open spec fn up_ok(self, pend: Pending, id: PageId) -> bool {
        let p = self.place[id];
        if self.root == Some(id) {
            &&& p.up is None
            &&& p.lo is None
            &&& self.reach(pend, id) is None
        } else {
            &&& p.level < self.place[self.root->0].level
            &&& p.up matches Some(q) && self.pages.contains_key(q) && self.kids(q).contains(id)
        }
    }

    /// Both halves of a pending split stand side by side.
    pub open spec fn halves_ok(self, pend: Pending) -> bool {
        pend matches Some(Halves { left: l, right: r }) ==> {
            &&& l != r
            &&& self.pages.contains_key(l)
            &&& self.pages.contains_key(r)
            &&& self.root != Some(r)
            &&& self.place[l].hi is Some
            &&& self.place[l].hi == self.place[r].lo
            &&& self.place[l].level == self.place[r].level
            &&& self.place[l].up == self.place[r].up
        }
    }

    /// Every page has its place in one tree.
    #[verifier::opaque]
    pub open spec fn tree_ok(self, pend: Pending) -> bool {
        &&& self.place.dom() == self.pages.dom()
        &&& self.root is None ==> self.pages.dom() == Set::<PageId>::empty()
        &&& self.root is Some ==> self.pages.contains_key(self.root->0)
        &&& self.halves_ok(pend)
        &&& forall|id: PageId| #[trigger] self.pages.contains_key(id) ==> self.node_ok(pend, id)
        &&& forall|id: PageId| #[trigger]
            self.pages.contains_key(id) && !(pend is Some && pend->0.right == id) ==> self.up_ok(
                pend,
                id,
            )
    }

    /// The leaves hang together from left to right, in key order.
    #[verifier::opaque]
    pub open spec fn chain_ok(self) -> bool {
        &&& self.chain.no_duplicates()
        &&& forall|i: int|
            0 <= i < self.chain.len() ==> self.pages.contains_key(#[trigger] self.chain[i])
                && self.is_leaf(self.chain[i])
        &&& forall|id: PageId|
            self.pages.contains_key(id) && #[trigger] self.is_leaf(id) ==> self.chain.contains(id)
        &&& self.chain.len() > 0 ==> self.place[self.chain[0]].lo is None
            && self.place[self.chain.last()].hi is None && self.pages[self.chain.last()]->next is None
        &&& forall|i: int, j: int|
            0 <= i && j == i + 1 && j < self.chain.len() ==> {
                &&& self.pages[self.chain[i]]->next == Some(self.chain[j])
                &&& self.place[#[trigger] self.chain[i]].hi is Some
                &&& self.place[self.chain[i]].hi == self.place[#[trigger] self.chain[j]].lo
            }
    }

    /// No node holds more than `max` keys, and none but the root fewer than `min`; `lean` may hold
    /// fewer, and `fat` one more.
    pub open spec fn fill_ok(
        self,
        min: nat,
        max: nat,
        lean: Option<PageId>,
        fat: Option<PageId>,
    ) -> bool {
        forall|id: PageId| #[trigger]
            self.pages.contains_key(id) ==> {
                &&& self.keys(id).len() <= max + (if fat == Some(id) {
                    1int
                } else {
                    0
                })
                &&& lean != Some(id) ==> self.keys(id).len() >= (if self.root == Some(id) {
                    1
                } else {
                    min
                })
            }
    }

    /// The pages on the way from `id` down to the leaf of `key`.
    pub open spec fn route(self, id: PageId, key: K) -> Seq<PageId>
        decreases self.place[id].level,
    {
        let c = self.kids(id)[turn(self.keys(id), key) as int];
        if self.is_leaf(id) || self.place[c].level >= self.place[id].level {
            seq![id]
        } else {
            seq![id] + self.route(c, key)
        }
    }

    /// How many pages are made when one more key comes to the last page of `path`: each full node
    /// splits and hands a key to the one above it, and a full root gets a new root above it.
    pub open spec fn splits(self, max: nat, path: Seq<PageId>) -> nat
        decreases path.len(),
    {
        if path.len() == 0 {
            1
        } else if self.keys(path.last()).len() < max {
            0
        } else {
            1 + self.splits(max, path.drop_last())
        }
    }

    /// `stack` holds the pages above `id`, from the root down.
    pub open spec fn stack_ok(self, stack: Seq<PageId>, id: PageId) -> bool {
        let path = stack.push(id);
        &&& self.root == Some(path[0])
        &&& forall|i: int|
            0 <= i < path.len() ==> self.pages.contains_key(#[trigger] path[i])
                && self.place[path[i]].level == self.place[id].level + (stack.len() - i)
        &&& forall|i: int, j: int|
            0 <= i && j == i + 1 && j < path.len() ==> self.place[#[trigger] path[j]].up == Some(
                #[trigger] path[i],
            )
    }

    /// The entries of the whole tree, in key order.
    pub open spec fn entries(self) -> Seq<(K, V)> {
        flat(self.pages, self.chain)
    }
}

/// The entries of two chains are those of the one and then those of the other.
pub proof fn lemma_flat_split<K, V>(
    pages: Map<PageId, BPlusTreeNode<K, V>>,
    a: Seq<PageId>,
    b: Seq<PageId>,
)
    ensures
        flat(pages, a + b) == flat(pages, a) + flat(pages, b),
    decreases b.len(),
{
    if b.len() == 0 {
        assert(a + b =~= a);
        assert(flat(pages, a) + flat(pages, b) =~= flat(pages, a));
    } else {
        lemma_flat_split(pages, a, b.drop_last());
        assert((a + b).drop_last() =~= a + b.drop_last());
        assert((a + b).last() == b.last());
        assert(flat(pages, a + b) =~= flat(pages, a) + flat(pages, b));
    }
}

/// The entries of a single leaf.
pub proof fn lemma_flat_one<K, V>(pages: Map<PageId, BPlusTreeNode<K, V>>, id: PageId)
    ensures
        flat(pages, seq![id]) == pages[id].entry_seq(),
{
    let s = seq![id];
    assert(s.drop_last() =~= Seq::<PageId>::empty());
    assert(flat(pages, s.drop_last()) =~= Seq::<(K, V)>::empty());
    assert(flat(pages, s) =~= pages[id].entry_seq());
}

/// The entries of a chain are those of its leaves.
pub proof fn lemma_flat_same<K, V>(
    p: Map<PageId, BPlusTreeNode<K, V>>,
    q: Map<PageId, BPlusTreeNode<K, V>>,
    chain: Seq<PageId>,
)
    requires
        forall|i: int|
            0 <= i < chain.len() ==> p[#[trigger] chain[i]].entry_seq() == q[chain[i]].entry_seq(),
    ensures
        flat(p, chain) == flat(q, chain),
    decreases chain.len(),
{
    if chain.len() > 0 {
        assert forall|i: int| 0 <= i < chain.drop_last().len() implies p[#[trigger] chain.drop_last()[i]].entry_seq()
            == q[chain.drop_last()[i]].entry_seq() by {
            assert(chain.drop_last()[i] == chain[i]);
        }
        lemma_flat_same(p, q, chain.drop_last());
        assert(chain.last() == chain[chain.len() - 1]);
    }
}

/// The entries of leaf `i` stand between those of the leaves to its left and to its right.
pub proof fn lemma_flat_at<K, V>(
    pages: Map<PageId, BPlusTreeNode<K, V>>,
    chain: Seq<PageId>,
    i: int,
)
    requires
        0 <= i < chain.len(),
    ensures
        flat(pages, chain) == flat(pages, chain.take(i)) + pages[chain[i]].entry_seq() + flat(
            pages,
            chain.skip(i + 1),
        ),
{
    lemma_flat_split(pages, chain.take(i), chain.skip(i));
    lemma_flat_split(pages, seq![chain[i]], chain.skip(i + 1));
    lemma_flat_one(pages, chain[i]);
    assert(chain =~= chain.take(i) + chain.skip(i));
    assert(chain.skip(i) =~= seq![chain[i]] + chain.skip(i + 1));
    assert(flat(pages, chain) =~= flat(pages, chain.take(i)) + pages[chain[i]].entry_seq() + flat(
        pages,
        chain.skip(i + 1),
    ));
}

/// What holds of every entry of every leaf holds of every entry of the chain.
pub proof fn lemma_flat_all<K, V>(
    pages: Map<PageId, BPlusTreeNode<K, V>>,
    chain: Seq<PageId>,
    f: spec_fn((K, V)) -> bool,
)
    requires
        forall|i: int, j: int|
            0 <= i < chain.len() && 0 <= j < pages[chain[i]].entry_seq().len() ==> f(
                #[trigger] pages[chain[i]].entry_seq()[j],
            ),
    ensures
        forall|k: int| 0 <= k < flat(pages, chain).len() ==> f(#[trigger] flat(pages, chain)[k]),
    decreases chain.len(),
{
    if chain.len() > 0 {
        let rest = chain.drop_last();
        assert forall|i: int, j: int|
            0 <= i < rest.len() && 0 <= j < pages[rest[i]].entry_seq().len() implies f(
            #[trigger] pages[rest[i]].entry_seq()[j],
        ) by {
            assert(rest[i] == chain[i]);
            assert(f(pages[chain[i]].entry_seq()[j]));
        }
        lemma_flat_all(pages, rest, f);
        assert forall|k: int| 0 <= k < flat(pages, chain).len() implies f(
            #[trigger] flat(pages, chain)[k],
        ) by {
            let n = flat(pages, rest).len();
            if k >= n {
                assert(flat(pages, chain)[k] == pages[chain[chain.len() - 1]].entry_seq()[k - n]);
            } else {
                assert(flat(pages, chain)[k] == flat(pages, rest)[k]);
            }
        }
    }
}

/// The places of `place`, where the pages `kids` have the parent `to`.
pub open spec fn reparent<K>(
    place: Map<PageId, Place<K>>,
    kids: Seq<PageId>,
    to: PageId,
) -> Map<PageId, Place<K>> {
    Map::new(
        |x: PageId| place.contains_key(x),
        |x: PageId|
            if kids.contains(x) {
                Place { up: Some(to), ..place[x] }
            } else {
                place[x]
            },
    )
}

impl<K: Ord + Clone, V> Shape<K, V> {
    /// What a well-formed tree says of one of its pages.
    pub proof fn lemma_page(self, pend: Pending, id: PageId)
        requires
            self.tree_ok(pend),
            self.pages.contains_key(id),
        ensures
            self.root is Some,
            self.pages.contains_key(self.root->0),
            self.place.contains_key(self.root->0),
            self.place.contains_key(id),
            self.halves_ok(pend),
            self.node_ok(pend, id),
            !(pend is Some && pend->0.right == id) ==> self.up_ok(pend, id),
    {
        reveal(Shape::tree_ok);
    }

    /// A well-formed tree has its root among its pages.
    pub proof fn lemma_root(self, pend: Pending)
        requires
            self.tree_ok(pend),
            self.root is Some,
        ensures
            self.pages.contains_key(self.root->0),
    {
        reveal(Shape::tree_ok);
    }

    /// Below every page there is a leaf.
    pub proof fn lemma_leaf_below(self, id: PageId) -> (leaf: PageId)
        requires
            self.tree_ok(None),
            self.pages.contains_key(id),
        ensures
            self.pages.contains_key(leaf),
            self.is_leaf(leaf),
        decreases self.place[id].level,
    {
        self.lemma_page(None, id);
        if self.is_leaf(id) {
            id
        } else {
            assert(self.link_ok(None, id, 0));
            self.lemma_leaf_below(self.kids(id)[0])
        }
    }

    /// Every leaf has its place in the chain.
    pub proof fn lemma_leaf(self, id: PageId) -> (i: int)
        requires
            self.chain_ok(),
            self.pages.contains_key(id),
            self.is_leaf(id),
        ensures
            0 <= i < self.chain.len(),
            self.chain[i] == id,
    {
        reveal(Shape::chain_ok);
        assert(self.chain.contains(id));
        self.chain.index_of(id)
    }

    /// What stands in the chain is a leaf.
    pub proof fn lemma_chain_at(self, i: int)
        requires
            self.chain_ok(),
            0 <= i < self.chain.len(),
        ensures
            self.pages.contains_key(self.chain[i]),
            self.is_leaf(self.chain[i]),
    {
        reveal(Shape::chain_ok);
    }

    /// The lower bounds of a node's children rise from left to right.
    pub proof fn lemma_kids_rise(self, pend: Pending, id: PageId, i: int, j: int)
        requires
            lawful::<K>(),
            self.node_ok(pend, id),
            !self.is_leaf(id),
            0 <= i < j < self.kids(id).len(),
        ensures
            self.place[self.kids(id)[j]].lo is Some,
            raised(self.place[self.kids(id)[i]].lo, self.place[self.kids(id)[j]].lo->0),
            self.kids(id)[i] != self.kids(id)[j],
    {
        broadcast use group_order;

        assert(self.link_ok(pend, id, i));
        assert(self.link_ok(pend, id, j));
        if i == 0 {
            assert(raised(self.place[id].lo, self.keys(id)[j - 1]));
        } else {
            assert(before(self.keys(id)[i - 1], self.keys(id)[j - 1]));
        }
    }

    /// No page is two children of one node.
    pub proof fn lemma_kids_distinct(self, pend: Pending, id: PageId)
        requires
            lawful::<K>(),
            self.node_ok(pend, id),
            !self.is_leaf(id),
        ensures
            self.kids(id).no_duplicates(),
    {
        assert forall|i: int, j: int|
            0 <= i < self.kids(id).len() && 0 <= j < self.kids(id).len() && i
                != j implies self.kids(id)[i] != self.kids(id)[j] by {
            if i < j {
                self.lemma_kids_rise(pend, id, i, j);
            } else {
                self.lemma_kids_rise(pend, id, j, i);
            }
        }
    }

    /// Leaves further right hold later keys.
    pub proof fn lemma_chain_order(self, pend: Pending, i: int, j: int)
        requires
            lawful::<K>(),
            self.tree_ok(pend),
            self.chain_ok(),
            0 <= i < j < self.chain.len(),
        ensures
            self.place[self.chain[i]].hi is Some,
            self.place[self.chain[j]].lo is Some,
            !before(self.place[self.chain[j]].lo->0, self.place[self.chain[i]].hi->0),
        decreases j - i,
    {
        reveal(Shape::tree_ok);
        reveal(Shape::chain_ok);
        broadcast use group_order;

        assert(self.pages.contains_key(self.chain[i]));
        assert(self.node_ok(pend, self.chain[i]));
        if j == i + 1 {
            assert(self.place[self.chain[i]].hi == self.place[self.chain[j]].lo);
            let h = self.place[self.chain[i]].hi->0;
            if before(h, h) {
                crate::order::lemma_before_asymmetric(h, h);
            }
        } else {
            self.lemma_chain_order(pend, i, j - 1);
            let m = self.chain[j - 1];
            assert(self.pages.contains_key(m));
            assert(self.node_ok(pend, m));
            assert(self.place[m].hi == self.place[self.chain[j]].lo);
            assert(before(self.place[m].lo->0, self.place[m].hi->0));
        }
    }

    /// Every entry to the left of leaf `i` is before its lower bound, and every entry to its right
    /// at or after its upper bound.
    pub proof fn lemma_sides(self, pend: Pending, i: int)
        requires
            lawful::<K>(),
            self.tree_ok(pend),
            self.chain_ok(),
            0 <= i < self.chain.len(),
        ensures
            ({
                let p = self.place[self.chain[i]];
                let pre = flat(self.pages, self.chain.take(i));
                let post = flat(self.pages, self.chain.skip(i + 1));
                &&& forall|k: int|
                    0 <= k < pre.len() ==> p.lo is Some && before((#[trigger] pre[k]).0, p.lo->0)
                &&& forall|k: int|
                    0 <= k < post.len() ==> p.hi is Some && !before((#[trigger] post[k]).0, p.hi->0)
            }),
    {
        reveal(Shape::tree_ok);
        reveal(Shape::chain_ok);
        broadcast use group_order;

        let p = self.place[self.chain[i]];
        let left = self.chain.take(i);
        let right = self.chain.skip(i + 1);
        let f = |e: (K, V)| p.lo is Some && before(e.0, p.lo->0);
        assert forall|a: int, b: int|
            0 <= a < left.len() && 0 <= b < self.pages[left[a]].entry_seq().len() implies f(
            #[trigger] self.pages[left[a]].entry_seq()[b],
        ) by {
            assert(left[a] == self.chain[a]);
            self.lemma_chain_order(pend, a, i);
            assert(self.pages.contains_key(self.chain[a]));
            assert(self.node_ok(pend, self.chain[a]));
            let k = self.pages[self.chain[a]].key_seq()[b];
            assert(capped(k, self.place[self.chain[a]].hi));
        }
        lemma_flat_all(self.pages, left, f);
        let g = |e: (K, V)| p.hi is Some && !before(e.0, p.hi->0);
        assert forall|a: int, b: int|
            0 <= a < right.len() && 0 <= b < self.pages[right[a]].entry_seq().len() implies g(
            #[trigger] self.pages[right[a]].entry_seq()[b],
        ) by {
            assert(right[a] == self.chain[i + 1 + a]);
            self.lemma_chain_order(pend, i, i + 1 + a);
            assert(self.pages.contains_key(self.chain[i + 1 + a]));
            assert(self.node_ok(pend, self.chain[i + 1 + a]));
            let k = self.pages[self.chain[i + 1 + a]].key_seq()[b];
            assert(floored(self.place[self.chain[i + 1 + a]].lo, k));
        }
        lemma_flat_all(self.pages, right, g);
        if right.len() > 0 {
            self.lemma_chain_order(pend, i, i + 1);
        }
        let pre = flat(self.pages, left);
        let post = flat(self.pages, right);
        assert forall|k: int| 0 <= k < pre.len() implies p.lo is Some && before(
            (#[trigger] pre[k]).0,
            p.lo->0,
        ) by {
            assert(f(pre[k]));
        }
        assert forall|k: int| 0 <= k < post.len() implies p.hi is Some && !before(
            (#[trigger] post[k]).0,
            p.hi->0,
        ) by {
            assert(g(post[k]));
        }
    }

    /// A key within the bounds of leaf `i` is searched for in that leaf: `at` parts the keys of
    /// the leaf that are before it from the others.
    pub proof fn lemma_rank_in_leaf(self, i: int, key: K, at: int)
        requires
            lawful::<K>(),
            self.tree_ok(None),
            self.chain_ok(),
            0 <= i < self.chain.len(),
            floored(self.place[self.chain[i]].lo, key),
            capped(key, self.place[self.chain[i]].hi),
            0 <= at <= self.keys(self.chain[i]).len(),
            forall|j: int| 0 <= j < at ==> before(#[trigger] self.keys(self.chain[i])[j], key),
            at < self.keys(self.chain[i]).len() ==> !before(self.keys(self.chain[i])[at], key),
        ensures
            ({
                let n = flat(self.pages, self.chain.take(i)).len() as int;
                let keys = self.keys(self.chain[i]);
                &&& rank(self.entries(), key) == n + at
                &&& at < keys.len() ==> self.entries()[n + at] == self.pages[self.chain[i]].entry_seq()[at]
                &&& holds(self.entries(), key) <==> at < keys.len() && !before(key, keys[at])
            }),
    {
        reveal(Shape::tree_ok);
        reveal(Shape::chain_ok);
        broadcast use group_order;

        let id = self.chain[i];
        let pre = flat(self.pages, self.chain.take(i));
        let mid = self.pages[id].entry_seq();
        let post = flat(self.pages, self.chain.skip(i + 1));
        let all = self.entries();
        lemma_flat_at(self.pages, self.chain, i);
        self.lemma_sides(None, i);
        let p = pre.len() + at;
        assert forall|k: int| 0 <= k < p implies before((#[trigger] all[k]).0, key) by {
            if k < pre.len() {
                assert(all[k] == pre[k]);
            } else {
                assert(all[k] == mid[k - pre.len()]);
                assert(mid[k - pre.len()].0 == self.keys(id)[k - pre.len()]);
            }
        }
        if p < all.len() {
            if at < mid.len() {
                assert(all[p] == mid[at]);
            } else {
                assert(all[p] == post[0]);
                assert(before(key, post[0].0));
            }
        }
        lemma_rank(all, key, p);
    }
}

} // verus!
