//! Separators that mirror the keys of the leaves.

use super::{floored, Shape};
use crate::bptree::{BPlusTreeNode, PageId};
use crate::order::{before, group_order, lawful, lemma_before_asymmetric, same};
use vstd::prelude::*;

verus! {

impl<K: Ord + Clone, V> Shape<K, V> {
    /// The separator to the left of every leaf but `but`, at whatever level it stands, has the rank
    /// of the first key of the leaf.
    pub open spec fn tight(self, but: Option<PageId>) -> bool {
        forall|id: PageId| #[trigger]
            self.pages.contains_key(id) && self.is_leaf(id) && but != Some(id) && self.keys(id).len()
                > 0 && self.place[id].lo is Some ==> same(self.place[id].lo->0, self.keys(id)[0])
    }

    /// Leaves that stay as they are keep the separators to their left.
    pub proof fn lemma_tight_kept(self, s1: Self, but: Option<PageId>)
        requires
            forall|x: PageId| #[trigger]
                s1.pages.contains_key(x) && s1.is_leaf(x) ==> {
                    &&& self.pages.contains_key(x)
                    &&& self.pages[x] == s1.pages[x]
                    &&& self.place[x].lo == s1.place[x].lo
                },
        ensures
            self.tight(but) ==> s1.tight(but),
    {
    }

    /// A key that belongs into leaf `id` does not come before its first key, unless no separator
    /// stands to the left of the leaf.
    pub proof fn lemma_tight_write(self, id: PageId, node: BPlusTreeNode<K, V>)
        requires
            lawful::<K>(),
            self.pages.contains_key(id),
            self.is_leaf(id),
            node is Leaf,
            node.key_seq().len() > 0,
            self.keys(id).len() > 0,
            floored(self.place[id].lo, node.key_seq()[0]),
            !before(self.keys(id)[0], node.key_seq()[0]),
        ensures
            self.tight(None) ==> self.write(id, node).tight(None),
    {
        broadcast use group_order;

        let s1 = self.write(id, node);
        assert forall|x: PageId| #[trigger]
            self.tight(None) && s1.pages.contains_key(x) && s1.is_leaf(x) && s1.keys(x).len() > 0
                && s1.place[x].lo is Some implies same(s1.place[x].lo->0, s1.keys(x)[0]) by {
            assert(self.pages.contains_key(x));
        }
    }
}

/// A key has its own rank.
pub proof fn lemma_reflexive<K: Ord + Clone>(k: K)
    requires
        lawful::<K>(),
    ensures
        same(k, k),
{
    if before(k, k) {
        lemma_before_asymmetric(k, k);
    }
}

} // verus!
