//! In-memory B+ tree with split on insert and borrow-or-merge on delete.
//!
//! Start with [`BPlusTree`]: [`BPlusTree::new`], [`BPlusTree::insert`], [`BPlusTree::get`],
//! [`BPlusTree::delete`], [`BPlusTree::iter`], [`BPlusTree::range`].
//!
//! * All values live in leaf nodes. Leaves are linked with `next` so keys can be scanned in order.
//! * Internal nodes only hold separator keys plus child pointers.
//! * A node may hold at most `max_keys` keys. Inserting one more splits the node in half and pushes
//!   one key up to the parent.
//! * Only splitting the root makes the tree taller.
//! * On delete, a node that drops below `min_keys` first tries to borrow from a sibling; if neither
//!   sibling can spare a key it merges with a sibling and removes the separator from the parent,
//!   which may itself underflow and propagate upward.
//!
//! The contracts speak of a tree by its [`entries`](BPlusTree::entries), a sequence in key order;
//! [`entries`] says what the operations do to it, and [`laws`] what holds of the tree as a whole.

mod delete;
pub mod entries;
pub mod error;
mod insert;
mod iter;
pub mod laws;
mod rebalance;
mod search;
mod shape;

pub use error::TreeError;
pub use iter::Iter;

use crate::order::{group_order, lawful};
use crate::pager::PageManager;
use entries::{holds, lemma_turn, lookup, rank, sorted, turn};
use search::{binary_search, partition_point};
use shape::{capped, floored, Place, Shape};
use std::rc::Rc;
use std::sync::Arc;
use vstd::prelude::*;

verus! {

/// The number of a page in the page store.
pub type PageId = u64;

/// One node of the tree. Nodes live in the page store and are addressed by [`PageId`], which plays
/// the role of a disk page number.
pub enum BPlusTreeNode<K, V> {
    /// Sorted keys, where `keys[i]` belongs to `values[i]`. `next` is the leaf to the right, used
    /// for range scans.
    Leaf { next: Option<PageId>, keys: Vec<K>, values: Vec<V> },
    /// Separator keys with one more child than keys: child `i` holds the keys from `keys[i - 1]` on
    /// up to, but without, `keys[i]`.
    Internal { keys: Vec<K>, children: Vec<PageId> },
}

impl<K, V> BPlusTreeNode<K, V> {
    /// The keys of the node, whatever its kind.
    pub open spec fn key_seq(self) -> Seq<K> {
        match self {
            BPlusTreeNode::Leaf { keys, .. } => keys@,
            BPlusTreeNode::Internal { keys, .. } => keys@,
        }
    }

    /// The values of a leaf.
    pub open spec fn value_seq(self) -> Seq<V> {
        match self {
            BPlusTreeNode::Leaf { values, .. } => values@,
            BPlusTreeNode::Internal { .. } => Seq::empty(),
        }
    }

    /// The children of an internal node.
    pub open spec fn child_seq(self) -> Seq<PageId> {
        match self {
            BPlusTreeNode::Leaf { .. } => Seq::empty(),
            BPlusTreeNode::Internal { children, .. } => children@,
        }
    }

    /// The entries of a leaf.
    pub open spec fn entry_seq(self) -> Seq<(K, V)> {
        Seq::new(
            self.key_seq().len(),
            |i: int| (self.key_seq()[i], self.value_seq()[i]),
        )
    }
}

/// A key, or a reference to one.
pub trait AsKey<K> {
    /// The key itself.
    spec fn key(&self) -> K;

    /// Borrow the key.
    fn as_key(&self) -> (key: &K)
        ensures
            *key == self.key(),
    ;
}

impl<K> AsKey<K> for K {
    open spec fn key(&self) -> K {
        *self
    }

    fn as_key(&self) -> (key: &K) {
        self
    }
}

impl<'a, K> AsKey<K> for &'a K {
    open spec fn key(&self) -> K {
        **self
    }

    fn as_key(&self) -> (key: &K) {
        *self
    }
}

impl<'a, K> AsKey<K> for &'a mut K {
    open spec fn key(&self) -> K {
        **self
    }

    fn as_key(&self) -> (key: &K) {
        &**self
    }
}

impl<K> AsKey<K> for Box<K> {
    open spec fn key(&self) -> K {
        **self
    }

    fn as_key(&self) -> (key: &K) {
        &**self
    }
}

impl<K> AsKey<K> for Rc<K> {
    open spec fn key(&self) -> K {
        **self
    }

    fn as_key(&self) -> (key: &K) {
        &**self
    }
}

impl<K> AsKey<K> for Arc<K> {
    open spec fn key(&self) -> K {
        **self
    }

    fn as_key(&self) -> (key: &K) {
        &**self
    }
}

/// A key to look for: one that is at hand, or one that was made for the search.
pub enum Sought<'a, K> {
    Held(&'a K),
    Made(K),
}

impl<'a, K> Sought<'a, K> {
    /// The key itself.
    pub open spec fn key(&self) -> K {
        match *self {
            Sought::Held(k) => *k,
            Sought::Made(k) => k,
        }
    }

    /// Borrow the key.
    fn as_key(&self) -> (key: &K)
        ensures
            *key == self.key(),
    {
        match self {
            Sought::Held(k) => *k,
            Sought::Made(k) => k,
        }
    }
}

/// What a key of type `K` can be looked up by: a key, or what it holds.
pub trait Probe<K> {
    /// `key` is what is looked for.
    spec fn stands_for(&self, key: K) -> bool;

    /// The key to look for.
    fn sought(&self) -> (key: Sought<'_, K>)
        ensures
            self.stands_for(key.key()),
    ;
}

impl<K> Probe<K> for K {
    open spec fn stands_for(&self, key: K) -> bool {
        key == *self
    }

    fn sought(&self) -> (key: Sought<'_, K>) {
        Sought::Held(self)
    }
}

impl Probe<String> for str {
    open spec fn stands_for(&self, key: String) -> bool {
        key@ == self@
    }

    fn sought(&self) -> (key: Sought<'_, String>) {
        Sought::Made(self.to_owned())
    }
}

impl<T: Clone> Probe<Vec<T>> for [T] {
    open spec fn stands_for(&self, key: Vec<T>) -> bool {
        &&& key@.len() == self@.len()
        &&& forall|i: int| 0 <= i < key@.len() ==> cloned(self@[i], #[trigger] key@[i])
    }

    fn sought(&self) -> (key: Sought<'_, Vec<T>>) {
        let mut key: Vec<T> = Vec::new();
        let mut i: usize = 0;
        while i < self.len()
            invariant
                i <= self.len(),
                key@.len() == i,
                forall|j: int| 0 <= j < i ==> cloned(self@[j], #[trigger] key@[j]),
            decreases self.len() - i,
        {
            key.push(self[i].clone());
            i += 1;
        }
        Sought::Made(key)
    }
}

impl<T: Clone> Probe<Box<T>> for T {
    open spec fn stands_for(&self, key: Box<T>) -> bool {
        cloned(*self, *key)
    }

    fn sought(&self) -> (key: Sought<'_, Box<T>>) {
        Sought::Made(Box::new(self.clone()))
    }
}

impl<T: Clone> Probe<Rc<T>> for T {
    open spec fn stands_for(&self, key: Rc<T>) -> bool {
        cloned(*self, *key)
    }

    fn sought(&self) -> (key: Sought<'_, Rc<T>>) {
        Sought::Made(Rc::new(self.clone()))
    }
}

impl<T: Clone> Probe<Arc<T>> for T {
    open spec fn stands_for(&self, key: Arc<T>) -> bool {
        cloned(*self, *key)
    }

    fn sought(&self) -> (key: Sought<'_, Arc<T>>) {
        Sought::Made(Arc::new(self.clone()))
    }
}

/// The fewest keys that a node other than the root holds, where no node holds more than `max`.
pub open spec fn fewest(max: nat) -> nat {
    if max < 2 {
        1
    } else {
        max / 2
    }
}

/// Page `id` is an internal node with its separators in order, and `child` the child of it that `key`
/// belongs to.
pub open spec fn points<K: Ord, V>(
    nodes: Map<PageId, BPlusTreeNode<K, V>>,
    id: PageId,
    key: K,
    child: PageId,
) -> bool {
    let node = nodes[id];
    let at = turn(node.key_seq(), key) as int;
    &&& nodes.contains_key(id)
    &&& node is Internal
    &&& sorted(node.key_seq())
    &&& at < node.child_seq().len()
    &&& node.child_seq()[at] == child
}

/// The first of `kids` is `child`.
pub open spec fn heads(kids: Seq<PageId>, child: PageId) -> bool {
    kids.len() > 0 && kids[0] == child
}

/// The pages lead down the tree, each one the first child of the one before it.
pub open spec fn leads_left<K, V>(
    nodes: Map<PageId, BPlusTreeNode<K, V>>,
    path: Seq<PageId>,
) -> bool {
    &&& path.len() > 0
    &&& forall|i: int, j: int|
        0 <= i && j == i + 1 && j < path.len() ==> heads(
            nodes[#[trigger] path[i]].child_seq(),
            #[trigger] path[j],
        )
}

/// An ordered map that keeps its entries in the leaves of a B+ tree.
///
/// Besides what the code works on, a tree knows where each page stands (`place`) and which leaves
/// there are from left to right (`chain`), for the proofs alone.
#[verifier::reject_recursive_types(K)]
#[verifier::reject_recursive_types(V)]
pub struct BPlusTree<K: Ord + Clone, V> {
    root: Option<PageId>,
    max_keys: usize,
    pager: PageManager<K, V>,
    place: Ghost<Map<PageId, Place<K>>>,
    chain: Ghost<Seq<PageId>>,
}

impl<K: Ord + Clone, V> BPlusTree<K, V> {
    /// The pages of the tree with their places.
    spec fn shape(&self) -> Shape<K, V> {
        Shape { pages: self.pager@, place: self.place@, chain: self.chain@, root: self.root }
    }

    /// The fewest keys of a node other than the root.
    spec fn spec_min(&self) -> nat {
        fewest(self.max_keys as nat)
    }

    /// The pages make up one tree, in which `lean` may hold fewer keys than it should, and `fat`
    /// one more.
    spec fn sound(&self, lean: Option<PageId>, fat: Option<PageId>) -> bool {
        &&& self.max_keys >= 2
        &&& self.pager.wf()
        &&& self.shape().tree_ok(None)
        &&& self.shape().chain_ok()
        &&& self.shape().fill_ok(self.spec_min(), self.max_keys as nat, lean, fat)
    }

    /// The pages make up one well-formed tree.
    pub closed spec fn wf(&self) -> bool {
        self.sound(None, None)
    }

    /// The entries of the tree, in key order.
    pub closed spec fn entries(&self) -> Seq<(K, V)> {
        self.shape().entries()
    }

    /// The nodes of the tree, by page number.
    pub closed spec fn nodes(&self) -> Map<PageId, BPlusTreeNode<K, V>> {
        self.pager@
    }

    /// The page of the root node.
    pub closed spec fn root_page(&self) -> Option<PageId> {
        self.root
    }

    /// Each separator, at whatever level it stands, has the rank of the first key to its right.
    pub closed spec fn aligned(&self) -> bool {
        self.shape().tight(None)
    }

    /// `key` is the first key of a leaf that is the first child of its parent, but not the leftmost
    /// leaf of all: the separator to its left stands further up than its parent.
    pub open spec fn uncovers(&self, key: K) -> bool {
        let path = self.way(key);
        let n = path.len();
        &&& holds(self.entries(), key)
        &&& n >= 2
        &&& rank(self.nodes()[path[n - 1]].entry_seq(), key) == 0
        &&& self.nodes()[path[n - 2]].child_seq()[0] == path[n - 1]
        &&& exists|i: int, j: int|
            0 <= i && j == i + 1 && j < n - 1 && self.nodes()[#[trigger] path[i]].child_seq()[0]
                != #[trigger] path[j]
    }

    /// `path` is the way down for `key`, by the separators, and ends with `error`: at an unknown page,
    /// or at an internal node without a child where the key belongs.
    pub open spec fn strays(&self, key: K, path: Seq<PageId>, error: TreeError) -> bool {
        let id = path.last();
        let node = self.nodes()[id];
        &&& path.len() > 0
        &&& self.root_page() == Some(path[0])
        &&& forall|i: int, j: int|
            0 <= i && j == i + 1 && j < path.len() ==> points(
                self.nodes(),
                #[trigger] path[i],
                key,
                #[trigger] path[j],
            )
        &&& if self.nodes().contains_key(id) {
            &&& node is Internal
            &&& sorted(node.key_seq())
            &&& turn(node.key_seq(), key) >= node.child_seq().len()
            &&& error == TreeError::CorruptInternal(id)
        } else {
            error == TreeError::UnknownPage
        }
    }

    /// The way down for `key` ends with `error`.
    pub open spec fn misleads(&self, key: K, error: TreeError) -> bool {
        exists|path: Seq<PageId>| #[trigger] self.strays(key, path, error)
    }

    /// The way down for `key` meets an unknown page, or an internal node with too few children.
    pub open spec fn misled(&self, key: K) -> bool {
        exists|error: TreeError| #[trigger] self.misleads(key, error)
    }

    /// `path` leads down along first children, to an unknown page or to an internal node without
    /// children.
    pub open spec fn strays_left(&self, path: Seq<PageId>) -> bool {
        let id = path.last();
        &&& leads_left(self.nodes(), path)
        &&& self.root_page() == Some(path[0])
        &&& forall|i: int|
            0 <= i < path.len() - 1 ==> self.nodes().contains_key(#[trigger] path[i])
                && self.nodes()[path[i]] is Internal
        &&& self.nodes().contains_key(id) ==> self.nodes()[id] is Internal
            && self.nodes()[id].child_seq().len() == 0
    }

    /// The way down along first children meets an unknown page, or an internal node without children.
    pub open spec fn astray(&self) -> bool {
        exists|path: Seq<PageId>| #[trigger] self.strays_left(path)
    }

    /// The number of levels of the tree.
    pub closed spec fn height(&self) -> nat {
        if self.root is None {
            0
        } else {
            self.place@[self.root->0].level + 1
        }
    }

    /// The most keys that a node may hold.
    pub closed spec fn max_keys(&self) -> nat {
        self.max_keys as nat
    }

    /// How many page numbers were handed out so far.
    pub closed spec fn pages_issued(&self) -> nat {
        self.pager.next_id() as nat
    }

    /// How many pages the tree takes up.
    pub closed spec fn pages_held(&self) -> nat {
        self.pager@.dom().len()
    }

    /// The pages on the way from the root down to the leaf of `key`.
    pub closed spec fn way(&self, key: K) -> Seq<PageId> {
        if self.root is None {
            Seq::empty()
        } else {
            self.shape().route(self.root->0, key)
        }
    }

    /// How many new pages it takes to insert `key`.
    pub closed spec fn pages_needed(&self, key: K) -> nat {
        if holds(self.entries(), key) {
            0
        } else if self.root is None {
            1
        } else {
            self.shape().splits(
                self.max_keys as nat,
                self.shape().route(self.root->0, key),
            )
        }
    }

    /// How many pages it takes away to delete `key`.
    pub closed spec fn pages_freed(&self, key: K) -> nat {
        if holds(self.entries(), key) {
            let path = self.shape().route(self.root->0, key);
            self.shape().folds(
                self.spec_min(),
                path,
                self.shape().keys(path.last()).len() - 1,
            )
        } else {
            0
        }
    }

    /// The pages of `after` are those of the tree with `value` put under `key`: the leaf of the key
    /// took the entry in, and from there upward every node that this made too full was cut in half
    /// and handed a key to its parent. Every other page is as it was.
    pub closed spec fn grew(&self, after: &Self, key: K, value: V) -> bool {
        let fresh = self.pager.next_id();
        if self.root is None {
            &&& after.root == Some(fresh)
            &&& after.pager@.dom() == set![fresh]
            &&& after.shape().has_leaf(fresh, seq![key], seq![value], None)
        } else {
            self.shape().grown(
                after.shape(),
                self.max_keys as nat,
                self.shape().route(self.root->0, key),
                key,
                value,
                fresh as int,
            )
        }
    }

    /// The pages of `after` are those of the tree with `key` taken out: the leaf of the key lost its
    /// entry, and from there upward every node that this left short of keys borrowed from its left
    /// neighbour, or else from its right one, or else was merged with one of them, which cost its
    /// parent a key. Where the first key of a leaf changed, the separator to its left under its parent
    /// followed. Every other page is as it was.
    pub closed spec fn shrank(&self, after: &Self, key: K) -> bool {
        if self.root is None {
            after.root is None && after.pager@ == self.pager@
        } else {
            self.shape().shrunk(
                after.shape(),
                self.spec_min(),
                self.shape().route(self.root->0, key),
                key,
            )
        }
    }

    /// The pages make up one tree in which page `id`, below the pages `stack`, may be one key short.
    pub closed spec fn wanting(&self, id: PageId, stack: Seq<PageId>) -> bool {
        let s = self.shape();
        &&& lawful::<K>()
        &&& self.sound(Some(id), None)
        &&& s.stack_ok(stack, id)
        &&& if stack.len() == 0 {
            s.is_leaf(id) ==> s.keys(id).len() > 0
        } else {
            s.keys(id).len() + 1 >= self.spec_min()
        }
    }

    /// The keys of page `id`, as many as a small sibling holds and, but for leaves, the separator
    /// between them fit into one node.
    pub open spec fn slender(&self, id: PageId) -> bool {
        self.nodes()[id].key_seq().len() + fewest(self.max_keys()) + (if self.nodes()[id] is Leaf {
            0int
        } else {
            1
        }) <= self.max_keys()
    }

    /// Page `id` is not an emptied leaf that is the first child of the last page of `stack` and has a
    /// separator to its left further up.
    pub closed spec fn anchored(&self, id: PageId, stack: Seq<PageId>) -> bool {
        let s = self.shape();
        s.is_leaf(id) && s.keys(id).len() == 0 && stack.len() > 0 && s.kids(
            stack.last(),
        ).index_of(id) == 0 ==> s.place[id].lo is None
    }

    /// The pages of `after` are those of the tree with page `id`, below the pages `stack`, rebalanced.
    pub closed spec fn mended(&self, after: &Self, id: PageId, stack: Seq<PageId>) -> bool {
        self.shape().rebalanced(after.shape(), self.spec_min(), stack.push(id))
    }

    /// How many pages go away when page `id`, below the pages `stack`, is rebalanced.
    pub closed spec fn pages_shed(&self, id: PageId, stack: Seq<PageId>) -> nat {
        if stack.len() == 0 && self.shape().keys(id).len() > 0 {
            0
        } else {
            self.shape().sheds(self.spec_min(), stack.push(id))
        }
    }

    /// The last page of `stack` is an internal node, and `child` one of its children.
    pub open spec fn hangs(&self, child: PageId, stack: Seq<PageId>) -> bool {
        &&& self.nodes().contains_key(stack.last())
        &&& self.nodes()[stack.last()] is Internal
        &&& self.nodes()[stack.last()].child_seq().contains(child)
    }

    /// Why `child` is no child of page `parent`.
    pub open spec fn unhung(&self, child: PageId, parent: PageId) -> TreeError {
        if self.nodes().contains_key(parent) && self.nodes()[parent] is Internal {
            TreeError::NotAChild(child, parent)
        } else {
            TreeError::NotInternal(parent)
        }
    }

    /// Create an empty tree that holds up to `max_keys` keys per node, which must be at least 2.
    ///
    /// # Examples
    ///
    /// ```
    /// use libnucleus::BPlusTree;
    ///
    /// let tree: BPlusTree<i32, String> = BPlusTree::new(4);
    /// assert!(tree.is_empty());
    /// ```
    pub fn new(max_keys: usize) -> (tree: Self)
        requires
            max_keys >= 2,
        ensures
            tree.wf(),
            tree.aligned(),
            tree.entries() == Seq::<(K, V)>::empty(),
            tree.max_keys() == max_keys,
            tree.pages_issued() == 0,
            tree.pages_held() == 0,
            tree.height() == 0,
    {
        let tree = Self {
            root: None,
            max_keys,
            pager: PageManager::new(),
            place: Ghost(Map::empty()),
            chain: Ghost(Seq::empty()),
        };
        proof {
            reveal(Shape::tree_ok);
            reveal(Shape::chain_ok);
            assert(tree.shape().place.dom() =~= tree.shape().pages.dom());
        }
        tree
    }

    /// True when the tree holds no keys.
    ///
    /// # Examples
    ///
    /// ```
    /// use libnucleus::BPlusTree;
    ///
    /// let mut tree: BPlusTree<i32, i32> = BPlusTree::new(3);
    /// assert!(tree.is_empty());
    /// tree.insert(1, 1).unwrap();
    /// assert!(!tree.is_empty());
    /// ```
    pub fn is_empty(&self) -> (empty: bool)
        ensures
            empty == (self.root_page() is None),
            self.wf() ==> empty == (self.entries().len() == 0),
    {
        proof {
            let s = self.shape();
            if self.wf() {
                if s.root is Some {
                    s.lemma_root(None);
                    let leaf = s.lemma_leaf_below(s.root->0);
                    s.lemma_start_of(leaf);
                } else {
                    s.lemma_empty();
                }
            }
        }
        self.root.is_none()
    }

    /// Minimum key count a non root node must keep after a delete.
    ///
    /// This is `floor(max_keys / 2)`, at least 1. The floor matters: with this bound a node that is
    /// one key short, a minimal sibling and the separator pulled down between them always fit back
    /// into a single node.
    ///
    /// # Examples
    ///
    /// ```
    /// use libnucleus::BPlusTree;
    ///
    /// let tree: BPlusTree<i32, i32> = BPlusTree::new(4);
    /// assert_eq!(tree.min_keys(), 2);
    /// let tree: BPlusTree<i32, i32> = BPlusTree::new(3);
    /// assert_eq!(tree.min_keys(), 1);
    /// ```
    pub fn min_keys(&self) -> (n: usize)
        ensures
            n == fewest(self.max_keys()),
    {
        let half: usize = self.max_keys / 2;
        if half < 1 {
            1
        } else {
            half
        }
    }

    /// Find the leaf that should contain `key`.
    ///
    /// Returns the leaf id plus the ancestor stack from the root down to the leaf parent. Returns
    /// `None` for an empty tree. Fails if the way down meets an unknown page or an internal node with too
    /// few children.
    fn find_leaf(&self, key: &K) -> (found: Result<Option<(PageId, Vec<PageId>)>, TreeError>)
        requires
            lawful::<K>(),
            self.wf() || self.misled(*key),
        ensures
            match found {
                Ok(None) => self.wf() && self.root is None,
                Ok(Some((leaf, stack))) => {
                    let s = self.shape();
                    &&& self.wf()
                    &&& s.root is Some
                    &&& s.pages.contains_key(leaf)
                    &&& s.is_leaf(leaf)
                    &&& floored(s.place[leaf].lo, *key)
                    &&& capped(*key, s.place[leaf].hi)
                    &&& s.stack_ok(stack@, leaf)
                    &&& s.route(s.root->0, *key) == stack@.push(leaf)
                },
                Err(e) => !self.wf() && self.misleads(*key, e),
            },
    {
        let mut pg: Option<PageId> = self.root;
        let mut stack: Vec<PageId> = Vec::new();
        let ghost s = self.shape();
        proof {
            if self.wf() && s.root is Some {
                s.lemma_root(None);
                s.lemma_page(None, s.root->0);
            }
        }
        let ghost error = choose|error: TreeError| #[trigger] self.misleads(*key, error);
        let ghost path = choose|path: Seq<PageId>| #[trigger] self.strays(*key, path, error);
        loop
            invariant
                lawful::<K>(),
                s == self.shape(),
                !self.wf() ==> {
                    &&& self.strays(*key, path, error)
                    &&& stack@.len() < path.len()
                    &&& pg == Some(path[stack@.len() as int])
                },
                s.root is None ==> pg is None,
                s.root is Some && self.wf() ==> {
                    &&& pg matches Some(id) && s.stack_ok(stack@, id)
                    &&& floored(s.place[pg->0].lo, *key)
                    &&& capped(*key, s.place[pg->0].hi)
                    &&& s.route(s.root->0, *key) == stack@ + s.route(pg->0, *key)
                },
            decreases
                (if !self.wf() {
                    path.len() - stack@.len()
                } else if pg is Some {
                    s.place[pg->0].level + 1int
                } else {
                    0
                }),
        {
            let pgid: PageId = match pg {
                Some(id) => id,
                None => {
                    return Ok(None);
                },
            };
            proof {
                if self.wf() {
                    assert(s.pages.contains_key(stack@.push(pgid).last()));
                    s.lemma_page(None, pgid);
                } else {
                    let n = stack@.len() as int;
                    assert(path[n] == pgid);
                    if n + 1 < path.len() {
                        assert(points(self.nodes(), path[n], *key, path[n + 1]));
                    } else {
                        assert(path.last() == pgid);
                    }
                }
            }
            match self.pager.get(pgid) {
                Some(BPlusTreeNode::Leaf { .. }) => {
                    return Ok(Some((pgid, stack)));
                },
                Some(BPlusTreeNode::Internal { keys, children }) => {
                    let idx: usize = partition_point(keys, key);
                    proof {
                        lemma_turn(keys@, *key, idx as int);
                    }
                    if idx >= children.len() {
                        return Err(TreeError::CorruptInternal(pgid));
                    }
                    let child: PageId = children[idx];
                    let ghost stack0 = stack@;
                    stack.push(pgid);
                    pg = Some(child);
                    proof {
                        if self.wf() {
                            assert(s.link_ok(None, pgid, idx as int));
                            assert(stack@ + s.route(child, *key) =~= stack0 + s.route(pgid, *key));
                            assert forall|i: int|
                                0 <= i < stack@.push(child).len() implies s.pages.contains_key(
                                #[trigger] stack@.push(child)[i],
                            ) && s.place[stack@.push(child)[i]].level == s.place[child].level + (
                            stack@.len() - i) by {
                                if i <= stack0.len() {
                                    assert(stack@.push(child)[i] == stack0.push(pgid)[i]);
                                }
                            }
                            assert forall|i: int, j: int|
                                0 <= i && j == i + 1 && j
                                    < stack@.push(child).len() implies s.place[#[trigger] stack@.push(
                                child,
                            )[j]].up == Some(#[trigger] stack@.push(child)[i]) by {
                                assert(stack@.push(child)[i] == stack0.push(pgid)[i]);
                                if j <= stack0.len() {
                                    assert(stack@.push(child)[j] == stack0.push(pgid)[j]);
                                }
                            }
                            assert(stack@.push(child)[0] == stack0.push(pgid)[0]);
                        }
                    }
                },
                None => {
                    return Err(TreeError::UnknownPage);
                },
            }
        }
    }

    /// Look up a key and borrow its value.
    ///
    /// Returns `None` when the tree is empty or the key is absent. Fails if the way down meets an
    /// unknown page or an internal node with too few children.
    ///
    /// # Examples
    ///
    /// ```
    /// use libnucleus::BPlusTree;
    ///
    /// let mut tree: BPlusTree<i32, i32> = BPlusTree::new(4);
    /// tree.insert(7, 70).unwrap();
    /// assert_eq!(tree.get(&7).unwrap(), Some(&70));
    /// assert_eq!(tree.get(&99).unwrap(), None);
    /// ```
    pub fn get<Q: Probe<K> + ?Sized>(&self, key: &Q) -> (value: Result<Option<&V>, TreeError>)
        requires
            lawful::<K>(),
            self.wf() || forall|k: K| #[trigger] key.stands_for(k) ==> self.misled(k),
        ensures
            !self.wf() ==> value is Err && exists|k: K| #[trigger]
                key.stands_for(k) && self.misleads(k, value->Err_0),
            self.wf() ==> value is Ok && exists|k: K| #[trigger]
                key.stands_for(k) && match value->Ok_0 {
                    Some(v) => lookup(self.entries(), k) == Some(*v),
                    None => lookup(self.entries(), k) is None,
                },
    {
        let sought: Sought<'_, K> = key.sought();
        assert(key.stands_for(sought.key()));
        let key: &K = sought.as_key();
        let leaf_id: PageId = match self.find_leaf(key) {
            Ok(Some((id, _))) => id,
            Ok(None) => {
                proof {
                    self.shape().lemma_empty();
                }
                return Ok(None);
            },
            Err(e) => {
                return Err(e);
            },
        };
        let ghost s = self.shape();
        proof {
            s.lemma_page(None, leaf_id);
        }
        let ghost i = s.lemma_leaf(leaf_id);
        match self.pager.get(leaf_id) {
            Some(BPlusTreeNode::Leaf { keys, values, .. }) => match binary_search(keys, key) {
                Ok(idx) => {
                    proof {
                        s.lemma_rank_in_leaf(i, *key, idx as int);
                    }
                    Ok(Some(&values[idx]))
                },
                Err(idx) => {
                    proof {
                        broadcast use group_order;

                        s.lemma_rank_in_leaf(i, *key, idx as int);
                    }
                    Ok(None)
                },
            },
            _ => Err(TreeError::NoLeafFound),
        }
    }
}

} // verus!
