//! Deletion: the key is taken out of its leaf, and a leaf that is left with too few keys is
//! rebalanced.

use super::entries::{holds, lemma_rank, recloned, removed};
use super::search::binary_search;
use super::{AsKey, BPlusTree, BPlusTreeNode, PageId, TreeError};
use crate::order::{lawful, lemma_before_asymmetric, lemma_clone_same, same};
use vstd::prelude::*;

verus! {

impl<K: Ord + Clone, V> BPlusTree<K, V> {
    /// Delete `key` using borrow or merge rebalancing.
    ///
    /// Returns `true` when the key was present and `false` for a miss. Accepts both owned and
    /// borrowed keys, so `delete(k)` and `delete(&k)` both work.
    ///
    /// The steps are: descend to the leaf, remove the key, repair the parent separator when the
    /// first leaf key changed, return early when the leaf still holds enough keys, and otherwise
    /// borrow from a sibling or merge, possibly shrinking the tree. A key that a leaf borrows from
    /// its left sibling becomes the separator, and the leaf gets a clone of it.
    ///
    /// Fails, and changes nothing, if the way down to the key meets an unknown page or an internal node
    /// with too few children.
    ///
    /// # Examples
    ///
    /// ```
    /// use libnucleus::BPlusTree;
    ///
    /// let mut tree: BPlusTree<i32, i32> = BPlusTree::new(3);
    /// tree.insert(1, 10).unwrap();
    /// tree.insert(2, 20).unwrap();
    /// assert_eq!(tree.delete(1).unwrap(), true);
    /// assert_eq!(tree.get(&1).unwrap(), None);
    /// assert_eq!(tree.delete(99).unwrap(), false);
    /// ```
    #[verifier::rlimit(40)]
    pub fn delete<Q: AsKey<K>>(&mut self, key: Q) -> (deleted: Result<bool, TreeError>)
        requires
            lawful::<K>(),
            old(self).wf() || old(self).misled(key.key()),
        ensures
            !old(self).wf() ==> {
                &&& deleted matches Err(e) && old(self).misleads(key.key(), e)
                &&& *final(self) == *old(self)
            },
            old(self).wf() ==> {
                &&& deleted == Ok::<bool, TreeError>(holds(old(self).entries(), key.key()))
                &&& final(self).wf()
                &&& old(self).aligned() && !old(self).uncovers(key.key()) ==> final(self).aligned()
                &&& recloned(removed(old(self).entries(), key.key()), final(self).entries())
                &&& !holds(old(self).entries(), key.key()) ==> final(self).entries() == old(
                    self,
                ).entries()
                &&& final(self).max_keys() == old(self).max_keys()
                &&& old(self).shrank(final(self), key.key())
                &&& final(self).pages_issued() == old(self).pages_issued()
                &&& final(self).pages_held() + old(self).pages_freed(key.key()) == old(
                    self,
                ).pages_held()
                &&& final(self).height() + (if 0 < old(self).height() == old(self).pages_freed(
                    key.key(),
                ) {
                    1int
                } else {
                    0
                }) == old(self).height()
            },
    {
        let ghost s0 = self.shape();
        let key: &K = key.as_key();
        let (leaf_node_id, stack) = match self.find_leaf(key) {
            Ok(Some(found)) => found,
            Ok(None) => {
                // Empty tree, so there is nothing to remove.
                proof {
                    s0.lemma_empty();
                    lemma_rank(s0.entries(), *key, 0);
                }
                return Ok(false);
            },
            Err(e) => {
                return Err(e);
            },
        };
        proof {
            s0.lemma_page(None, leaf_node_id);
        }
        let ghost i = s0.lemma_leaf(leaf_node_id);
        // Remove the key while capturing the leaf length.
        let (removed_pos, remaining) = match self.pager.get_mut(leaf_node_id) {
            Some(BPlusTreeNode::Leaf { keys, values, .. }) => match binary_search(keys, key) {
                Ok(pos) => {
                    keys.remove(pos);
                    values.remove(pos);
                    (pos, keys.len())
                },
                Err(at) => {
                    proof {
                        if at < s0.keys(leaf_node_id).len() {
                            lemma_before_asymmetric(*key, s0.keys(leaf_node_id)[at as int]);
                        }
                        s0.lemma_rank_in_leaf(i, *key, at as int);
                        s0.lemma_rank_of_leaf(leaf_node_id, *key, at as int);
                        assert(stack@.push(leaf_node_id).last() == leaf_node_id);
                    }
                    assert(self.pager@ =~= s0.pages);
                    assert(self.shape() == s0);
                    return Ok(false);
                },
            },
            Some(BPlusTreeNode::Internal { .. }) => {
                return Err(TreeError::NoLeafFound);
            },
            None => {
                return Err(TreeError::UnknownPage);
            },
        };
        let ghost n1 = self.pager@[leaf_node_id];
        let ghost s1 = s0.write(leaf_node_id, n1);
        let ghost path = stack@.push(leaf_node_id);
        proof {
            assert(self.shape() == s1);
            s0.lemma_leaf_remove(i, removed_pos as int, *key, n1);
            s0.lemma_stack_kept(s1, stack@, leaf_node_id);
            s1.lemma_height(stack@, leaf_node_id);
            s0.lemma_plucked(s1, leaf_node_id, removed_pos as int, *key);
            assert(path.last() == leaf_node_id);
            if stack@.len() == 0 {
                assert(path[0] == leaf_node_id);
            } else {
                s0.lemma_page(None, path[0]);
                assert(s0.root == Some(path[0]));
                s1.lemma_stack_up(stack@, leaf_node_id);
                assert(path[path.len() - 2] == stack@.last());
            }
        }
        // A lone root leaf needs no rebalancing. Clearing it when empty lets the tree be reused as
        // if freshly created.
        if stack.len() == 0 {
            proof {
                assert(s1.followed(s1, path, s0.keys(leaf_node_id)));
            }
            if remaining == 0 {
                self.root = None;
                self.pager.free(leaf_node_id);
                let ghost s2 = s1.clear(leaf_node_id);
                self.place = Ghost(s2.place);
                self.chain = Ghost(s2.chain);
                proof {
                    assert(self.shape() == s2);
                    s1.lemma_clear(leaf_node_id);
                }
            }
            proof {
                s1.lemma_settled(self.shape(), self.spec_min(), path);
            }
            return Ok(true);
        }
        // The separator to the left of the leaf follows its first key. An emptied leaf has no first
        // key; its separator follows the key that it borrows, or goes in a merge.
        if removed_pos == 0 && remaining > 0 {
            let parent_id: PageId = stack[stack.len() - 1];
            match self.mirror_first(leaf_node_id, parent_id, Ghost(Some(leaf_node_id))) {
                Ok(()) => {},
                Err(e) => {
                    return Err(e);
                },
            }
        }
        let ghost s2 = self.shape();
        proof {
            assert(s1.followed(s2, path, s0.keys(leaf_node_id)));
            assert forall|x: PageId| #[trigger] s0.pages.contains_key(x) implies {
                &&& s2.pages.contains_key(x)
                &&& s2.place[x].level == s0.place[x].level
                &&& s2.place[x].up == s0.place[x].up
                &&& x != leaf_node_id ==> s2.keys(x).len() == s0.keys(x).len() && s2.kids(x)
                    == s0.kids(x)
            } by {
                assert(s1.pages.contains_key(x));
            }
            assert(s1.pages.contains_key(leaf_node_id));
            s0.lemma_stack_kept(s2, stack@, leaf_node_id);
            s0.lemma_folds_kept(
                s2,
                self.spec_min(),
                stack@,
                leaf_node_id,
                remaining as int,
            );
        }
        proof {
            assert forall|i: int, j: int| 0 <= i && j == i + 1 && j < path.len() implies s0.kids(
                #[trigger] path[i],
            ).contains(#[trigger] path[j]) by {
                assert(s0.place[path[j]].up == Some(path[i]));
                s0.lemma_page(None, path[j]);
            }
            s0.lemma_uncovered(path);
            let q = path[path.len() - 2];
            assert(old(self).way(*key) == path);
            assert(path[path.len() - 1] == leaf_node_id);
            assert(s0.kids(q).contains(path[path.len() - 1]));
            assert(s0.kids(q)[s0.kids(q).index_of(leaf_node_id)] == leaf_node_id);
            if !old(self).uncovers(*key) && removed_pos == 0 && s0.kids(q).index_of(leaf_node_id)
                == 0 {
                assert(s0.place[leaf_node_id].lo is None);
            }
            assert(s1.place == s0.place && s1.kids(q) == s0.kids(q));
            if s0.tight(None) && !old(self).uncovers(*key) {
                assert(s2.tight(None));
            }
        }
        // Enough keys remain, so the tree is still valid.
        if remaining >= self.min_keys() {
            proof {
                s2.lemma_settled(s2, self.spec_min(), path);
            }
            return Ok(true);
        }
        // Too few keys remain, so borrow from a sibling or merge.
        proof {
            s2.lemma_stack_up(stack@, leaf_node_id);
            s2.lemma_page(None, leaf_node_id);
            s2.lemma_page(None, stack@.last());
        }
        match self.fix_underflow(leaf_node_id, stack) {
            Ok(()) => {
                proof {
                    s2.lemma_settled(self.shape(), self.spec_min(), path);
                }
                Ok(true)
            },
            Err(e) => Err(e),
        }
    }

    /// Move the separator to the left of a leaf, under its parent, to the first key of the leaf. A
    /// leaf that is the first child has none there.
    pub(super) fn mirror_first(
        &mut self,
        leaf_id: PageId,
        parent_id: PageId,
        Ghost(lean): Ghost<Option<PageId>>,
    ) -> (done: Result<(), TreeError>)
        requires
            lawful::<K>(),
            old(self).sound(lean, None),
            old(self).shape().held_leaf(leaf_id),
            old(self).shape().keys(leaf_id).len() > 0,
            old(self).shape().place[leaf_id].up == Some(parent_id),
        ensures
            done is Ok,
            final(self).sound(lean, None),
            final(self).max_keys == old(self).max_keys,
            final(self).pager.next_id() == old(self).pager.next_id(),
            final(self).root == old(self).root,
            final(self).shape().entries() == old(self).shape().entries(),
            final(self).shape().pages.dom() == old(self).shape().pages.dom(),
            final(self).height() == old(self).height(),
            old(self).shape().lifted(final(self).shape()),
            old(self).shape().moved(
                final(self).shape(),
                parent_id,
                leaf_id,
                old(self).shape().keys(leaf_id)[0],
            ),
            old(self).shape().tight(Some(leaf_id)) && (old(self).shape().place[leaf_id].lo is None
                || old(self).shape().kids(parent_id).index_of(leaf_id) > 0)
                ==> final(self).shape().tight(None),
    {
        let ghost s0 = self.shape();
        let ghost first = s0.keys(leaf_id)[0];
        proof {
            s0.lemma_page(None, leaf_id);
            s0.lemma_page(None, parent_id);
            s0.lemma_alike(parent_id);
            s0.lemma_kids_distinct(None, parent_id);
        }
        let child_idx: usize = match self.child_index(parent_id, leaf_id) {
            Ok(i) => i,
            Err(e) => {
                return Err(e);
            },
        };
        assert(s0.kids(parent_id).index_of(leaf_id) == child_idx);
        if child_idx > 0 {
            let new_first: K = match self.pager.get(leaf_id) {
                Some(BPlusTreeNode::Leaf { keys, .. }) => keys[0].clone(),
                _ => {
                    return Err(TreeError::NotALeaf(leaf_id));
                },
            };
            let ghost sep = new_first;
            match self.pager.get_mut(parent_id) {
                Some(BPlusTreeNode::Internal { keys, .. }) => {
                    keys[child_idx - 1] = new_first;
                },
                _ => {
                    return Err(TreeError::ParentNotInternal(parent_id));
                },
            }
            let ghost node = self.pager@[parent_id];
            let ghost j = child_idx - 1;
            let ghost s1 = s0.shift(
                parent_id,
                j,
                s0.pages[s0.kids(parent_id)[j]],
                s0.pages[leaf_id],
                node,
                sep,
            );
            self.place = Ghost(s1.place);
            proof {
                assert(s0.kids(parent_id)[j + 1] == leaf_id);
                assert(node.key_seq() =~= s0.keys(parent_id).update(j, sep));
                s0.lemma_mirror(parent_id, j, node, sep);
                lemma_clone_same(first, sep);
                assert(self.shape() == s1);
                assert(s1.pages.dom() =~= s0.pages.dom());
                assert forall|x: PageId| #[trigger]
                    s0.tight(Some(leaf_id)) && s1.pages.contains_key(x) && s1.is_leaf(x)
                        && s1.keys(x).len() > 0 && s1.place[x].lo is Some implies same(
                    s1.place[x].lo->0,
                    s1.keys(x)[0],
                ) by {
                    assert(s0.pages.contains_key(x));
                }
            }
        }
        Ok(())
    }

    /// Position of a child inside its parent children vector.
    ///
    /// The index also locates the separators around the child: child `i` sits between `keys[i - 1]`
    /// on the left and `keys[i]` on the right.
    pub(super) fn child_index(&self, parent_id: PageId, child_id: PageId) -> (at: Result<usize, TreeError>)
        ensures
            ({
                let s = self.shape();
                let internal = s.pages.contains_key(parent_id) && !s.is_leaf(parent_id);
                match at {
                    Ok(i) => {
                        &&& internal
                        &&& i < s.kids(parent_id).len()
                        &&& s.kids(parent_id)[i as int] == child_id
                        &&& forall|j: int| 0 <= j < i ==> #[trigger] s.kids(parent_id)[j] != child_id
                    },
                    Err(TreeError::NotAChild(c, p)) => internal && !s.kids(parent_id).contains(
                        child_id,
                    ) && c == child_id && p == parent_id,
                    Err(TreeError::NotInternal(p)) => !internal && p == parent_id,
                    Err(_) => false,
                }
            }),
    {
        match self.pager.get(parent_id) {
            Some(BPlusTreeNode::Internal { keys: _, children }) => {
                let mut i: usize = 0;
                while i < children.len()
                    invariant
                        self.pager@.contains_key(parent_id),
                        self.pager@[parent_id] is Internal,
                        self.pager@[parent_id].child_seq() == children@,
                        i <= children.len(),
                        forall|j: int| 0 <= j < i ==> #[trigger] children[j] != child_id,
                    decreases children.len() - i,
                {
                    if children[i] == child_id {
                        return Ok(i);
                    }
                    i += 1;
                }
                Err(TreeError::NotAChild(child_id, parent_id))
            },
            _ => Err(TreeError::NotInternal(parent_id)),
        }
    }

    /// Child `i` of an internal node.
    pub(super) fn child_at(&self, parent_id: PageId, i: usize) -> (child: Result<PageId, TreeError>)
        requires
            i < self.shape().kids(parent_id).len(),
        ensures
            match child {
                Ok(id) => {
                    &&& self.shape().pages.contains_key(parent_id)
                    &&& !self.shape().is_leaf(parent_id)
                    &&& id == self.shape().kids(parent_id)[i as int]
                },
                Err(TreeError::ParentNotInternal(p)) => p == parent_id && !(
                self.shape().pages.contains_key(parent_id) && !self.shape().is_leaf(parent_id)),
                Err(_) => false,
            },
    {
        match self.pager.get(parent_id) {
            Some(BPlusTreeNode::Internal { keys: _, children }) => Ok(children[i]),
            _ => Err(TreeError::ParentNotInternal(parent_id)),
        }
    }

    /// How many children an internal node has.
    pub(super) fn child_count(&self, parent_id: PageId) -> (n: Result<usize, TreeError>)
        ensures
            match n {
                Ok(n) => {
                    &&& self.shape().pages.contains_key(parent_id)
                    &&& !self.shape().is_leaf(parent_id)
                    &&& n == self.shape().kids(parent_id).len()
                },
                Err(TreeError::ParentNotInternal(p)) => p == parent_id && !(
                self.shape().pages.contains_key(parent_id) && !self.shape().is_leaf(parent_id)),
                Err(_) => false,
            },
    {
        match self.pager.get(parent_id) {
            Some(BPlusTreeNode::Internal { keys: _, children }) => Ok(children.len()),
            _ => Err(TreeError::ParentNotInternal(parent_id)),
        }
    }

    /// How many keys a sibling leaf holds.
    pub(super) fn leaf_len(&self, id: PageId) -> (n: Result<usize, TreeError>)
        ensures
            match n {
                Ok(n) => {
                    &&& self.shape().pages.contains_key(id)
                    &&& self.shape().is_leaf(id)
                    &&& n == self.shape().keys(id).len()
                },
                Err(TreeError::SiblingNotALeaf(p)) => p == id && !(self.shape().pages.contains_key(id)
                    && self.shape().is_leaf(id)),
                Err(_) => false,
            },
    {
        match self.pager.get(id) {
            Some(BPlusTreeNode::Leaf { keys, .. }) => Ok(keys.len()),
            _ => Err(TreeError::SiblingNotALeaf(id)),
        }
    }

    /// How many keys a sibling internal node holds.
    pub(super) fn internal_len(&self, id: PageId) -> (n: Result<usize, TreeError>)
        ensures
            match n {
                Ok(n) => {
                    &&& self.shape().pages.contains_key(id)
                    &&& !self.shape().is_leaf(id)
                    &&& n == self.shape().keys(id).len()
                },
                Err(TreeError::SiblingNotInternal(p)) => p == id && !(self.shape().pages.contains_key(id)
                    && !self.shape().is_leaf(id)),
                Err(_) => false,
            },
    {
        match self.pager.get(id) {
            Some(BPlusTreeNode::Internal { keys, .. }) => Ok(keys.len()),
            _ => Err(TreeError::SiblingNotInternal(id)),
        }
    }
}

} // verus!
