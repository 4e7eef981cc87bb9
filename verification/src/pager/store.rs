//! The page store of the B+ tree.
//!
//! A fake disk: a map from page number to node. Real databases read and write fixed size pages
//! from a file; here [`PageManager::new_page`] hands out the next free [`PageId`], so the tree code
//! looks like it uses disk pages while everything stays in memory.

use crate::bptree::{BPlusTreeNode, PageId};
use std::collections::hash_map::Entry;
use std::collections::HashMap;
use vstd::prelude::*;

verus! {

broadcast use vstd::std_specs::hash::group_hash_axioms;

/// Owns every tree node, keyed by page id.
#[verifier::reject_recursive_types(K)]
#[verifier::reject_recursive_types(V)]
pub struct PageManager<K, V> {
    pages: HashMap<PageId, BPlusTreeNode<K, V>>,
    next_page_id: PageId,
}

impl<K: Ord + Clone, V> PageManager<K, V> {
    /// The stored nodes.
    pub closed spec fn view(&self) -> Map<PageId, BPlusTreeNode<K, V>> {
        self.pages@
    }

    /// The number that the next page gets.
    pub closed spec fn next_id(&self) -> PageId {
        self.next_page_id
    }

    /// Every page has a number that was handed out.
    pub open spec fn wf(&self) -> bool {
        &&& self@.dom().finite()
        &&& forall|id: PageId| #[trigger] self@.contains_key(id) ==> id < self.next_id()
    }

    /// Create an empty page store.
    ///
    /// # Examples
    ///
    /// ```
    /// use libnucleus::pager::PageManager;
    ///
    /// let store: PageManager<i32, i32> = PageManager::new();
    /// assert!(store.get(0).is_none());
    /// ```
    pub fn new() -> (store: Self)
        ensures
            store.wf(),
            store@ == Map::<PageId, BPlusTreeNode<K, V>>::empty(),
            store.next_id() == 0,
    {
        Self { pages: HashMap::new(), next_page_id: 0 }
    }

    /// Store a node and get back its page number.
    ///
    /// Page numbers increase monotonically from zero, so that no page is ever overwritten.
    ///
    /// # Examples
    ///
    /// ```
    /// use libnucleus::pager::PageManager;
    /// use libnucleus::BPlusTreeNode;
    ///
    /// let mut store = PageManager::new();
    /// let id = store.new_page(BPlusTreeNode::Leaf {
    ///     next: None,
    ///     keys: vec![1],
    ///     values: vec![10],
    /// });
    /// assert_eq!(id, 0);
    /// assert!(store.get(0).is_some());
    /// ```
    pub fn new_page(&mut self, node: BPlusTreeNode<K, V>) -> (page_id: PageId)
        requires
            old(self).next_id() < PageId::MAX,
        ensures
            page_id == old(self).next_id(),
            final(self).next_id() == old(self).next_id() + 1,
            final(self)@ == old(self)@.insert(page_id, node),
            old(self).wf() ==> !old(self)@.contains_key(page_id) && final(self).wf(),
    {
        let page_id: PageId = self.next_page_id;
        self.next_page_id += 1;
        self.pages.insert(page_id, node);
        page_id
    }

    /// Read-only lookup by page id.
    ///
    /// # Examples
    ///
    /// ```
    /// use libnucleus::pager::PageManager;
    /// use libnucleus::BPlusTreeNode;
    ///
    /// let mut store = PageManager::new();
    /// let id = store.new_page(BPlusTreeNode::Leaf {
    ///     next: None,
    ///     keys: vec![1],
    ///     values: vec![10],
    /// });
    /// assert!(matches!(store.get(id), Some(BPlusTreeNode::Leaf { .. })));
    /// ```
    pub fn get(&self, page_id: PageId) -> (node: Option<&BPlusTreeNode<K, V>>)
        ensures
            match node {
                Some(n) => self@.contains_key(page_id) && *n == self@[page_id],
                None => !self@.contains_key(page_id),
            },
    {
        self.pages.get(&page_id)
    }

    /// Mutable lookup, used to insert keys or fix pointers.
    ///
    /// # Examples
    ///
    /// ```
    /// use libnucleus::pager::PageManager;
    /// use libnucleus::BPlusTreeNode;
    ///
    /// let mut store = PageManager::new();
    /// let id = store.new_page(BPlusTreeNode::Leaf {
    ///     next: None,
    ///     keys: vec![1],
    ///     values: vec![10],
    /// });
    /// if let Some(BPlusTreeNode::Leaf { keys, .. }) = store.get_mut(id) {
    ///     keys.push(2);
    /// }
    /// assert!(store.get(id).is_some());
    /// ```
    pub fn get_mut(&mut self, page_id: PageId) -> (node: Option<&mut BPlusTreeNode<K, V>>)
        ensures
            final(self).next_id() == old(self).next_id(),
            old(self).wf() ==> final(self).wf(),
            match node {
                Some(n) => {
                    &&& old(self)@.contains_key(page_id)
                    &&& *n == old(self)@[page_id]
                    &&& final(self)@ == old(self)@.insert(page_id, *final(n))
                },
                None => !old(self)@.contains_key(page_id) && final(self)@ == old(self)@,
            },
    {
        match self.pages.entry(page_id) {
            Entry::Occupied(slot) => Some(slot.into_mut()),
            Entry::Vacant(_) => None,
        }
    }

    /// Release a page freed by a merge or by clearing the root.
    ///
    /// # Examples
    ///
    /// ```
    /// use libnucleus::pager::PageManager;
    /// use libnucleus::BPlusTreeNode;
    ///
    /// let mut store = PageManager::new();
    /// let id = store.new_page(BPlusTreeNode::Leaf {
    ///     next: None,
    ///     keys: vec![1],
    ///     values: vec![10],
    /// });
    /// store.free(id);
    /// assert!(store.get(id).is_none());
    /// ```
    pub fn free(&mut self, page_id: PageId)
        ensures
            final(self)@ == old(self)@.remove(page_id),
            final(self).next_id() == old(self).next_id(),
            old(self).wf() ==> final(self).wf(),
    {
        self.pages.remove(&page_id);
    }
}

/// A page that was stored is found again under its number, which no page had before; every other page is
/// as it was.
pub proof fn law_store_then_get<K: Ord + Clone, V>(
    store: &mut PageManager<K, V>,
    node: BPlusTreeNode<K, V>,
    id: PageId,
    is: &PageManager<K, V>,
    asked: PageId,
    found: Option<&BPlusTreeNode<K, V>>,
)
    requires
        old(store).wf(),
        call_ensures(PageManager::<K, V>::new_page, (store, node), id),
        *is == *final(store),
        call_ensures(PageManager::<K, V>::get, (is, asked), found),
    ensures
        !old(store)@.contains_key(id),
        final(store).wf(),
        final(store).next_id() == id + 1,
        old(store).next_id() == id,
        asked == id ==> found == Some(&node),
        asked != id && old(store)@.contains_key(asked) ==> found == Some(&old(store)@[asked]),
        asked != id && !old(store)@.contains_key(asked) ==> found is None,
{
}

/// A page that was freed is gone, and its number is not handed out again; every other page is as it was.
pub proof fn law_free_then_get<K: Ord + Clone, V>(
    store: &mut PageManager<K, V>,
    id: PageId,
    is: &PageManager<K, V>,
    asked: PageId,
    found: Option<&BPlusTreeNode<K, V>>,
)
    requires
        call_ensures(PageManager::<K, V>::free, (store, id), ()),
        *is == *final(store),
        call_ensures(PageManager::<K, V>::get, (is, asked), found),
    ensures
        final(store).next_id() == old(store).next_id(),
        asked == id ==> found is None,
        asked != id && old(store)@.contains_key(asked) ==> found == Some(&old(store)@[asked]),
        asked != id && !old(store)@.contains_key(asked) ==> found is None,
{
}

/// A new store holds nothing, and numbers its pages from zero.
pub proof fn law_new_store<K: Ord + Clone, V>(
    store: PageManager<K, V>,
    asked: PageId,
    found: Option<&BPlusTreeNode<K, V>>,
)
    requires
        call_ensures(PageManager::<K, V>::new, (), store),
        call_ensures(PageManager::<K, V>::get, (&store, asked), found),
    ensures
        found is None,
        store.next_id() == 0,
        store.wf(),
{
}

} // verus!
