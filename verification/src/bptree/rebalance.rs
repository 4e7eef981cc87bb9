//! Rebalancing: a node with too few keys borrows from a sibling, or merges with one.

use super::entries::recloned;
use super::shape::Shape;
use super::{BPlusTree, BPlusTreeNode, PageId, TreeError};
use crate::order::{lawful, lemma_clone_same, same};
use vstd::prelude::*;

verus! {

impl<K: Ord + Clone, V> BPlusTree<K, V> {
    /// Children `j` and `j + 1` of `parent` are `page`, which may lack keys, and `from`, which has
    /// one to spare that `page` has room for.
    spec fn lends(&self, page: PageId, from: PageId, parent: PageId, j: int) -> bool {
        let s = self.shape();
        &&& lawful::<K>()
        &&& self.sound(Some(page), None)
        &&& s.stands(parent, j, page, from) || s.stands(parent, j, from, page)
        &&& s.keys(from).len() > self.spec_min()
        &&& self.spec_min() <= s.keys(page).len() + 1 <= self.max_keys
    }

    /// Children `j` and `j + 1` of `parent` are `page`, which may lack keys, and `other`, and fit
    /// into one node.
    spec fn joins(&self, page: PageId, other: PageId, parent: PageId, j: int) -> bool {
        let s = self.shape();
        &&& lawful::<K>()
        &&& self.sound(Some(page), None)
        &&& s.stands(parent, j, page, other) || s.stands(parent, j, other, page)
        &&& s.keys(page).len() + s.keys(other).len() + (if s.is_leaf(page) {
            0int
        } else {
            1
        }) <= self.max_keys
    }

    /// What `page` and its neighbours under `parent` are in a tree.
    proof fn lemma_siblings(&self, page: PageId, parent: PageId, j: int)
        requires
            lawful::<K>(),
            self.sound(Some(page), None),
            self.shape().held_internal(parent),
            0 <= j < self.shape().keys(parent).len(),
        ensures
            ({
                let s = self.shape();
                let a = s.kids(parent)[j];
                let b = s.kids(parent)[j + 1];
                &&& s.kids(parent).len() == s.keys(parent).len() + 1
                &&& s.kids(parent).no_duplicates()
                &&& s.pages.contains_key(a)
                &&& s.pages.contains_key(b)
                &&& a != b
                &&& a != parent
                &&& b != parent
                &&& s.node_ok(None, a)
                &&& s.node_ok(None, b)
                &&& s.is_leaf(a) == s.is_leaf(b)
                &&& s.root is Some
                &&& s.pages.contains_key(s.root->0)
                &&& s.place.contains_key(a)
                &&& s.place.contains_key(b)
                &&& s.root != Some(a)
                &&& s.root != Some(b)
                &&& s.place[a].level + 1 == s.place[parent].level
                &&& s.place[b].level + 1 == s.place[parent].level
            }),
    {
        let s = self.shape();
        s.lemma_page(None, parent);
        s.lemma_alike(parent);
        s.lemma_kids_distinct(None, parent);
        s.lemma_page(None, s.kids(parent)[j]);
        s.lemma_page(None, s.kids(parent)[j + 1]);
    }

    /// Rebalance an underflowing node by borrowing or merging.
    ///
    /// The stack runs from the root down to the direct parent. An empty stack means that the page is
    /// the root, which only ever shrinks. Otherwise the order is: borrow from the left sibling,
    /// borrow from the right sibling, merge into the left sibling, or merge the right sibling into
    /// this page.
    ///
    /// Fails, and changes nothing, if the page is not a child of the last page of the stack.
    #[verifier::rlimit(40)]
    pub(crate) fn fix_underflow(&mut self, page_id: PageId, stack: Vec<PageId>) -> (done: Result<
        (),
        TreeError,
    >)
        requires
            ({
                ||| stack@.len() == 0
                ||| !old(self).hangs(page_id, stack@)
                ||| old(self).wanting(page_id, stack@) && old(self).slender(page_id)
            }),
        ensures
            done is Err <==> stack@.len() > 0 && !old(self).hangs(page_id, stack@),
            done matches Err(e) ==> *final(self) == *old(self) && e == old(self).unhung(
                page_id,
                stack@.last(),
            ),
            final(self).max_keys() == old(self).max_keys(),
            final(self).pages_issued() == old(self).pages_issued(),
            done is Ok ==> old(self).mended(final(self), page_id, stack@),
            old(self).wanting(page_id, stack@) && (stack@.len() > 0 ==> old(self).slender(page_id))
                ==> {
                &&& done is Ok
                &&& final(self).wf()
                &&& old(self).aligned() && old(self).anchored(page_id, stack@)
                    ==> final(self).aligned()
                &&& recloned(old(self).entries(), final(self).entries())
                &&& old(self).nodes()[page_id] is Internal ==> final(self).entries() == old(
                    self,
                ).entries()
                &&& final(self).pages_held() + old(self).pages_shed(page_id, stack@) == old(
                    self,
                ).pages_held()
                &&& final(self).height() + (if old(self).pages_shed(page_id, stack@) == stack@.len()
                    + 1 {
                    1int
                } else {
                    0
                }) == old(self).height()
            },
        decreases stack@.len(), 1nat,
    {
        let ghost s0 = self.shape();
        let ghost path = stack@.push(page_id);
        let ghost fits = self.wanting(page_id, stack@) && (stack@.len() > 0 ==> self.slender(
            page_id,
        ));
        proof {
            if fits {
                assert(s0.pages.contains_key(path[stack@.len() as int]));
                s0.lemma_page(None, page_id);
                s0.lemma_height(stack@, page_id);
                if stack@.len() > 0 {
                    s0.lemma_stack_up(stack@, page_id);
                    s0.lemma_page(None, stack@.last());
                }
            }
        }
        // A root never merges. An internal root with one child is replaced by that child, which
        // lowers the tree height by one.
        if stack.len() == 0 {
            assert(path[0] == page_id);
            let only_child: Option<PageId> = match self.pager.get(page_id) {
                Some(BPlusTreeNode::Internal { keys, children }) => if keys.len() == 0
                    && children.len() == 1 {
                    Some(children[0])
                } else {
                    None
                },
                _ => None,
            };
            proof {
                reveal_with_fuel(Shape::rebalanced, 1);
            }
            if let Some(child) = only_child {
                self.root = Some(child);
                self.pager.free(page_id);
                let ghost s1 = s0.lower(page_id, child);
                proof {
                    if fits {
                        self.place@ = s1.place;
                        assert(s0.kids(page_id) =~= seq![child]);
                        assert(s0.link_ok(None, page_id, 0));
                        assert(self.shape() == s1);
                        s0.lemma_lower(page_id, child);
                        s0.lemma_tight_kept(s1, None);
                    }
                }
            }
            return Ok(());
        }
        let parent_id: PageId = stack[stack.len() - 1];
        let idx: usize = match self.child_index(parent_id, page_id) {
            Ok(i) => i,
            Err(e) => {
                return Err(e);
            },
        };
        assert(s0.kids(parent_id).contains(page_id));
        let is_leaf: bool = match self.pager.get(page_id) {
            Some(BPlusTreeNode::Leaf { .. }) => true,
            _ => false,
        };
        if is_leaf {
            self.relieve_leaf(page_id, parent_id, idx, stack)
        } else {
            self.relieve_internal(page_id, parent_id, idx, stack)
        }
    }

    /// Give an underflowing leaf a key of a neighbour, or merge it with one.
    #[verifier::rlimit(60)]
    fn relieve_leaf(
        &mut self,
        page_id: PageId,
        parent_id: PageId,
        idx: usize,
        stack: Vec<PageId>,
    ) -> (done: Result<(), TreeError>)
        requires
            old(self).wanting(page_id, stack@),
            old(self).slender(page_id),
            stack@.len() > 0,
            parent_id == stack@.last(),
            old(self).shape().held_internal(parent_id),
            idx < old(self).shape().kids(parent_id).len(),
            old(self).shape().kids(parent_id)[idx as int] == page_id,
            old(self).shape().is_leaf(page_id),
        ensures
            done is Ok,
            final(self).wf(),
            old(self).aligned() && old(self).anchored(page_id, stack@) ==> final(self).aligned(),
            final(self).max_keys == old(self).max_keys,
            final(self).pager.next_id() == old(self).pager.next_id(),
            ({
                let s = old(self).shape();
                let gone = s.sheds(old(self).spec_min(), stack@.push(page_id));
                &&& recloned(s.entries(), final(self).shape().entries())
                &&& final(self).pages_held() + gone == old(self).pages_held()
                &&& final(self).height() + (if gone == stack@.len() + 1 {
                    1int
                } else {
                    0
                }) == old(self).height()
            }),
            old(self).shape().rebalanced(
                final(self).shape(),
                old(self).spec_min(),
                stack@.push(page_id),
            ),
        decreases stack@.len(), 0nat,
    {
        let mut stack: Vec<PageId> = stack;
        let ghost s0 = self.shape();
        let ghost path = stack@.push(page_id);
        let ghost above = stack@.drop_last();
        let min: usize = self.min_keys();
        proof {
            s0.lemma_page(None, parent_id);
            s0.lemma_alike(parent_id);
            s0.lemma_kids_distinct(None, parent_id);
            s0.lemma_stack_up(stack@, page_id);
            s0.lemma_height(above, parent_id);
            assert(s0.kids(parent_id).index_of(page_id) == idx);
            assert(path[path.len() - 2] == parent_id);
            assert(path.drop_last() =~= stack@);
            assert(above.push(parent_id) =~= stack@);
            assert forall|i: int| 0 <= i < s0.kids(parent_id).len() implies s0.root != Some(
                #[trigger] s0.kids(parent_id)[i],
            ) && s0.node_ok(None, s0.kids(parent_id)[i]) && s0.pages.contains_key(
                s0.kids(parent_id)[i],
            ) by {
                s0.lemma_page(None, s0.kids(parent_id)[i]);
            }
        }
        let was_empty: bool = match self.leaf_len(page_id) {
            Ok(n) => n == 0,
            Err(e) => {
                return Err(e);
            },
        };
        if idx > 0 {
            let left_id: PageId = match self.child_at(parent_id, idx - 1) {
                Ok(id) => id,
                Err(e) => {
                    return Err(e);
                },
            };
            let left_len: usize = match self.leaf_len(left_id) {
                Ok(n) => n,
                Err(e) => {
                    return Err(e);
                },
            };
            if left_len > min {
                let done: Result<(), TreeError> = self.borrow_leaf_from_left(
                    left_id,
                    page_id,
                    parent_id,
                    idx,
                );
                proof {
                    s0.lemma_lent_right(self.shape(), min as nat, path);
                }
                return done;
            }
        }
        // The left sibling could not help, so try the right one.
        let child_count: usize = match self.child_count(parent_id) {
            Ok(n) => n,
            Err(e) => {
                return Err(e);
            },
        };
        if idx + 1 < child_count {
            let right_id: PageId = match self.child_at(parent_id, idx + 1) {
                Ok(id) => id,
                Err(e) => {
                    return Err(e);
                },
            };
            let right_len: usize = match self.leaf_len(right_id) {
                Ok(n) => n,
                Err(e) => {
                    return Err(e);
                },
            };
            if right_len > min {
                match self.borrow_leaf_from_right(page_id, right_id, parent_id, idx) {
                    Ok(()) => {},
                    Err(e) => {
                        return Err(e);
                    },
                }
                let ghost m = self.shape();
                if was_empty {
                    // Its first key has changed, and the separator to its left follows.
                    match self.mirror_first(page_id, parent_id, Ghost(None)) {
                        Ok(()) => {},
                        Err(e) => {
                            return Err(e);
                        },
                    }
                }
                proof {
                    s0.lemma_lent_left(m, self.shape(), min as nat, path);
                }
                return Ok(());
            }
        }
        // Neither sibling can spare a key, so combine two nodes. Merging into the left page keeps
        // the surviving page at the left slot; without a left sibling the right page folds into
        // this one instead.
        let merged: Result<(), TreeError> = if idx > 0 {
            match self.child_at(parent_id, idx - 1) {
                Ok(left_id) => self.merge_leaf_into_left(left_id, page_id, parent_id, idx),
                Err(e) => Err(e),
            }
        } else {
            match self.child_at(parent_id, idx + 1) {
                Ok(right_id) => self.merge_right_leaf_into_page(
                    page_id,
                    right_id,
                    parent_id,
                    idx,
                ),
                Err(e) => Err(e),
            }
        };
        match merged {
            Ok(()) => {},
            Err(e) => {
                return Err(e);
            },
        }
        let ghost s2 = self.shape();
        proof {
            assert(self.aligned() <==> s2.tight(None));
            assert forall|x: PageId| #[trigger]
                s0.pages.contains_key(x) && s0.place[x].level >= s0.place[parent_id].level implies {
                &&& s2.pages.contains_key(x)
                &&& s2.place[x].level == s0.place[x].level
                &&& s2.place[x].up == s0.place[x].up
                &&& x != parent_id ==> s2.keys(x).len() == s0.keys(x).len() && s2.kids(x)
                    == s0.kids(x)
            } by {
                assert(s2.pages.contains_key(x));
            }
            s0.lemma_stack_kept(s2, above, parent_id);
            s0.lemma_folds_kept(
                s2,
                min as nat,
                above,
                parent_id,
                s0.keys(parent_id).len() - 1,
            );
        }
        stack.pop();
        assert(stack@ =~= above);
        let done: Result<(), TreeError> = self.fix_parent_after_merge(parent_id, stack);
        proof {
            assert(!s0.spares(min as nat, parent_id, page_id));
            s0.lemma_merged(s2, self.shape(), min as nat, path);
        }
        done
    }

    /// Give an underflowing internal node a key of a neighbour, or merge it with one.
    #[verifier::rlimit(60)]
    fn relieve_internal(
        &mut self,
        page_id: PageId,
        parent_id: PageId,
        idx: usize,
        stack: Vec<PageId>,
    ) -> (done: Result<(), TreeError>)
        requires
            old(self).wanting(page_id, stack@),
            old(self).slender(page_id),
            stack@.len() > 0,
            parent_id == stack@.last(),
            old(self).shape().held_internal(parent_id),
            idx < old(self).shape().kids(parent_id).len(),
            old(self).shape().kids(parent_id)[idx as int] == page_id,
            !old(self).shape().is_leaf(page_id),
        ensures
            done is Ok,
            final(self).wf(),
            old(self).aligned() ==> final(self).aligned(),
            final(self).max_keys == old(self).max_keys,
            final(self).pager.next_id() == old(self).pager.next_id(),
            ({
                let s = old(self).shape();
                let gone = s.sheds(old(self).spec_min(), stack@.push(page_id));
                &&& final(self).shape().entries() == s.entries()
                &&& final(self).pages_held() + gone == old(self).pages_held()
                &&& final(self).height() + (if gone == stack@.len() + 1 {
                    1int
                } else {
                    0
                }) == old(self).height()
            }),
            old(self).shape().rebalanced(
                final(self).shape(),
                old(self).spec_min(),
                stack@.push(page_id),
            ),
        decreases stack@.len(), 0nat,
    {
        let mut stack: Vec<PageId> = stack;
        let ghost s0 = self.shape();
        let ghost path = stack@.push(page_id);
        let ghost above = stack@.drop_last();
        let min: usize = self.min_keys();
        proof {
            s0.lemma_page(None, parent_id);
            s0.lemma_alike(parent_id);
            s0.lemma_kids_distinct(None, parent_id);
            s0.lemma_stack_up(stack@, page_id);
            s0.lemma_height(above, parent_id);
            assert(s0.kids(parent_id).index_of(page_id) == idx);
            assert(path[path.len() - 2] == parent_id);
            assert(path.drop_last() =~= stack@);
            assert(above.push(parent_id) =~= stack@);
            assert forall|i: int| 0 <= i < s0.kids(parent_id).len() implies s0.root != Some(
                #[trigger] s0.kids(parent_id)[i],
            ) && s0.node_ok(None, s0.kids(parent_id)[i]) && s0.pages.contains_key(
                s0.kids(parent_id)[i],
            ) by {
                s0.lemma_page(None, s0.kids(parent_id)[i]);
            }
        }
        if idx > 0 {
            let left_id: PageId = match self.child_at(parent_id, idx - 1) {
                Ok(id) => id,
                Err(e) => {
                    return Err(e);
                },
            };
            let left_len: usize = match self.internal_len(left_id) {
                Ok(n) => n,
                Err(e) => {
                    return Err(e);
                },
            };
            if left_len > min {
                let done: Result<(), TreeError> = self.borrow_internal_from_left(
                    left_id,
                    page_id,
                    parent_id,
                    idx,
                );
                proof {
                    s0.lemma_lent_right(self.shape(), min as nat, path);
                }
                return done;
            }
        }
        // The left sibling could not help, so try the right one.
        let child_count: usize = match self.child_count(parent_id) {
            Ok(n) => n,
            Err(e) => {
                return Err(e);
            },
        };
        if idx + 1 < child_count {
            let right_id: PageId = match self.child_at(parent_id, idx + 1) {
                Ok(id) => id,
                Err(e) => {
                    return Err(e);
                },
            };
            let right_len: usize = match self.internal_len(right_id) {
                Ok(n) => n,
                Err(e) => {
                    return Err(e);
                },
            };
            if right_len > min {
                match self.borrow_internal_from_right(page_id, right_id, parent_id, idx) {
                    Ok(()) => {},
                    Err(e) => {
                        return Err(e);
                    },
                }
                let ghost m = self.shape();
                proof {
                    s0.lemma_lent_left(m, self.shape(), min as nat, path);
                }
                return Ok(());
            }
        }
        // Neither sibling can spare a key, so combine two nodes. Merging into the left page keeps
        // the surviving page at the left slot; without a left sibling the right page folds into
        // this one instead.
        let merged: Result<(), TreeError> = if idx > 0 {
            match self.child_at(parent_id, idx - 1) {
                Ok(left_id) => self.merge_internal_into_left(left_id, page_id, parent_id, idx),
                Err(e) => Err(e),
            }
        } else {
            match self.child_at(parent_id, idx + 1) {
                Ok(right_id) => self.merge_right_internal_into_page(
                    page_id,
                    right_id,
                    parent_id,
                    idx,
                ),
                Err(e) => Err(e),
            }
        };
        match merged {
            Ok(()) => {},
            Err(e) => {
                return Err(e);
            },
        }
        let ghost s2 = self.shape();
        proof {
            assert(self.aligned() <==> s2.tight(None));
            assert forall|x: PageId| #[trigger]
                s0.pages.contains_key(x) && s0.place[x].level >= s0.place[parent_id].level implies {
                &&& s2.pages.contains_key(x)
                &&& s2.place[x].level == s0.place[x].level
                &&& s2.place[x].up == s0.place[x].up
                &&& x != parent_id ==> s2.keys(x).len() == s0.keys(x).len() && s2.kids(x)
                    == s0.kids(x)
            } by {
                assert(s2.pages.contains_key(x));
            }
            s0.lemma_stack_kept(s2, above, parent_id);
            s0.lemma_folds_kept(
                s2,
                min as nat,
                above,
                parent_id,
                s0.keys(parent_id).len() - 1,
            );
        }
        stack.pop();
        assert(stack@ =~= above);
        let done: Result<(), TreeError> = self.fix_parent_after_merge(parent_id, stack);
        proof {
            assert(!s0.spares(min as nat, parent_id, page_id));
            s0.lemma_merged(s2, self.shape(), min as nat, path);
        }
        done
    }

    /// Recurse upward when a merge leaves the parent short on keys.
    ///
    /// A non root parent below `min_keys` is rebalanced with [`Self::fix_underflow`]. A root parent
    /// only acts when it is empty, in which case its single child becomes the new root.
    ///
    /// Fails, and changes nothing, if the page is not an internal node, or is short of keys and not a
    /// child of the last page of the stack.
    fn fix_parent_after_merge(&mut self, parent_id: PageId, stack: Vec<PageId>) -> (done: Result<
        (),
        TreeError,
    >)
        requires
            ({
                let s = old(self).shape();
                s.held_internal(parent_id) && stack@.len() > 0 && s.keys(parent_id).len() < old(
                    self,
                ).spec_min() && old(self).hangs(parent_id, stack@) ==> old(self).wanting(
                    parent_id,
                    stack@,
                )
            }),
        ensures
            done is Err <==> {
                let s = old(self).shape();
                ||| !s.held_internal(parent_id)
                ||| stack@.len() > 0 && s.keys(parent_id).len() < old(self).spec_min() && !old(
                    self,
                ).hangs(parent_id, stack@)
            },
            done matches Err(e) ==> *final(self) == *old(self) && e == (
            if old(self).shape().held_internal(parent_id) {
                old(self).unhung(parent_id, stack@.last())
            } else {
                TreeError::NotInternal(parent_id)
            }),
            final(self).max_keys == old(self).max_keys,
            final(self).pager.next_id() == old(self).pager.next_id(),
            done is Ok ==> old(self).shape().settled(
                final(self).shape(),
                old(self).spec_min(),
                stack@.push(parent_id),
            ),
            old(self).shape().held_internal(parent_id) && old(self).wanting(parent_id, stack@) ==> ({
                let s = old(self).shape();
                let gone = s.folds(
                    old(self).spec_min(),
                    stack@.push(parent_id),
                    s.keys(parent_id).len() as int,
                );
                &&& done is Ok
                &&& final(self).wf()
                &&& old(self).aligned() ==> final(self).aligned()
                &&& final(self).shape().entries() == s.entries()
                &&& final(self).pages_held() + gone == old(self).pages_held()
                &&& final(self).height() + (if gone == stack@.len() + 1 {
                    1int
                } else {
                    0
                }) == old(self).height()
            }),
        decreases stack@.len(), 2nat,
    {
        let ghost s0 = self.shape();
        let ghost path = stack@.push(parent_id);
        let ghost fits = s0.held_internal(parent_id) && self.wanting(parent_id, stack@);
        proof {
            assert(path.last() == parent_id);
            if fits {
                s0.lemma_page(None, parent_id);
                assert(s0.root == Some(path[0]));
                if stack@.len() > 0 {
                    s0.lemma_stack_up(stack@, parent_id);
                    s0.lemma_page(None, stack@.last());
                    s0.lemma_height(stack@, parent_id);
                }
            }
        }
        let parent_len: usize = match self.pager.get(parent_id) {
            Some(BPlusTreeNode::Internal { keys, .. }) => keys.len(),
            _ => {
                return Err(TreeError::NotInternal(parent_id));
            },
        };
        if stack.len() == 0 {
            // The parent is the root, so only an emptied root shrinks.
            let done: Result<(), TreeError> = if parent_len == 0 {
                self.fix_underflow(parent_id, stack)
            } else {
                Ok(())
            };
            proof {
                s0.lemma_settled(self.shape(), self.spec_min(), path);
            }
            return done;
        }
        let done: Result<(), TreeError> = if parent_len < self.min_keys() {
            self.fix_underflow(parent_id, stack)
        } else {
            Ok(())
        };
        proof {
            s0.lemma_settled(self.shape(), self.spec_min(), path);
        }
        done
    }

    /// Move the last entry of the left leaf sibling into this page.
    ///
    /// The borrowed key becomes the new first key of the page and the parent separator between the
    /// siblings is updated to match it: left `[1, 2, 3]`, page `[4]`, separator `4` become left
    /// `[1, 2]`, page `[3, 4]`, separator `3`.
    ///
    /// Fails if a page is unknown or mistyped.
    #[verifier::rlimit(40)]
    fn borrow_leaf_from_left(
        &mut self,
        left_id: PageId,
        page_id: PageId,
        parent_id: PageId,
        idx: usize,
    ) -> (done: Result<(), TreeError>)
        requires
            old(self).shape().held_leaf(left_id) ==> old(self).shape().keys(left_id).len() > 0 && old(
                self,
            ).shape().vals(left_id).len() > 0,
            old(self).shape().held_internal(parent_id) ==> 0 < idx <= old(self).shape().keys(
                parent_id,
            ).len(),
        ensures
            done is Ok <==> old(self).shape().held_leaf(left_id) && old(self).shape().held_leaf(
                page_id,
            ) && old(self).shape().held_internal(parent_id),
            final(self).max_keys == old(self).max_keys,
            final(self).pager.next_id() == old(self).pager.next_id(),
            done is Ok && left_id != page_id ==> old(self).shape().lent_right(
                final(self).shape(),
                left_id,
                page_id,
                parent_id,
                idx as int,
            ),
            old(self).shape().is_leaf(page_id) && old(self).lends(
                page_id,
                left_id,
                parent_id,
                idx - 1,
            ) && old(self).shape().kids(parent_id)[idx as int] == page_id ==> {
                &&& done is Ok
                &&& final(self).wf()
                &&& old(self).aligned() ==> final(self).aligned()
                &&& final(self).pages_held() == old(self).pages_held()
                &&& final(self).height() == old(self).height()
                &&& recloned(old(self).shape().entries(), final(self).shape().entries())
            },
    {
        let ghost s0 = self.shape();
        let ghost j = idx - 1;
        let ghost fits = s0.is_leaf(page_id) && self.lends(page_id, left_id, parent_id, j) && s0.kids(
            parent_id,
        )[j + 1] == page_id;
        proof {
            if fits {
                self.lemma_siblings(page_id, parent_id, j);
            }
        }
        let (k, v) = match self.pager.get_mut(left_id) {
            Some(BPlusTreeNode::Leaf { keys, values, .. }) => {
                let k: K = keys.pop().unwrap();
                let v: V = values.pop().unwrap();
                (k, v)
            },
            _ => {
                return Err(TreeError::SiblingNotALeaf(left_id));
            },
        };
        let first: K = k.clone();
        let ghost k2 = first;
        match self.pager.get_mut(page_id) {
            Some(BPlusTreeNode::Leaf { keys, values, .. }) => {
                keys.insert(0, first);
                values.insert(0, v);
            },
            _ => {
                return Err(TreeError::NotALeaf(page_id));
            },
        }
        let ghost sep = k;
        match self.pager.get_mut(parent_id) {
            Some(BPlusTreeNode::Internal { keys, .. }) => {
                keys[idx - 1] = k;
            },
            _ => {
                return Err(TreeError::ParentNotInternal(parent_id));
            },
        }
        let ghost left = self.pager@[left_id];
        let ghost right = self.pager@[page_id];
        let ghost node = self.pager@[parent_id];
        proof {
            if left_id != page_id {
                assert(left.key_seq() =~= s0.keys(left_id).drop_last());
                assert(left.value_seq() =~= s0.vals(left_id).drop_last());
                assert(right.key_seq() =~= seq![k2] + s0.keys(page_id));
                assert(right.key_seq()[0] == k2);
                assert(right.value_seq() =~= seq![s0.vals(left_id).last()] + s0.vals(page_id));
                assert(node.key_seq() =~= s0.keys(parent_id).update(j, sep));
            }
            if fits {
                let s1 = s0.shift(parent_id, j, left, right, node, sep);
                self.place@ = s1.place;
                assert(self.pager@ =~= s1.pages);
                assert(self.shape() == s1);
                assert(s1.pages.dom() =~= s0.pages.dom());
                assert(right.key_seq() =~= s0.keys(page_id).insert(0, k2));
                assert(right.value_seq() =~= s0.vals(page_id).insert(0, s0.vals(left_id).last()));
                s0.lemma_lend_last(parent_id, j, left, right, node, k2);
                lemma_clone_same(sep, k2);
                assert(left.key_seq()[0] == s0.keys(left_id)[0]);
                assert forall|x: PageId| #[trigger]
                    s0.tight(None) && s1.pages.contains_key(x) && s1.is_leaf(x) && s1.keys(x).len() > 0
                        && s1.place[x].lo is Some implies same(s1.place[x].lo->0, s1.keys(x)[0]) by {
                    assert(s0.pages.contains_key(x));
                }
            }
        }
        Ok(())
    }

    /// Move the first entry of the right leaf sibling into this page.
    ///
    /// The borrowed key is appended at the back of the page and the parent separator is updated to
    /// the right sibling new first key: page `[1]`, right `[2, 3, 4]`, separator `2` become page
    /// `[1, 2]`, right `[3, 4]`, separator `3`. Where the page had no key, the separator to its own
    /// left is the caller's to move.
    ///
    /// Fails if a page is unknown or mistyped, or the sibling has no key.
    #[verifier::rlimit(40)]
    fn borrow_leaf_from_right(
        &mut self,
        page_id: PageId,
        right_id: PageId,
        parent_id: PageId,
        idx: usize,
    ) -> (done: Result<(), TreeError>)
        requires
            old(self).shape().held_leaf(right_id) && old(self).shape().keys(right_id).len() > 0 ==> {
                &&& old(self).shape().keys(right_id).len() > 1
                &&& old(self).shape().vals(right_id).len() > 0
            },
            old(self).shape().held_internal(parent_id) ==> idx < old(self).shape().keys(
                parent_id,
            ).len(),
        ensures
            done is Ok <==> old(self).shape().held_leaf(right_id) && old(self).shape().keys(
                right_id,
            ).len() > 0 && old(self).shape().held_leaf(page_id) && old(self).shape().held_internal(
                parent_id,
            ),
            final(self).max_keys == old(self).max_keys,
            final(self).pager.next_id() == old(self).pager.next_id(),
            done is Ok && page_id != right_id ==> old(self).shape().lent_left(
                final(self).shape(),
                page_id,
                right_id,
                parent_id,
                idx as int,
            ),
            old(self).shape().is_leaf(page_id) && old(self).lends(
                page_id,
                right_id,
                parent_id,
                idx as int,
            ) && old(self).shape().kids(parent_id)[idx as int] == page_id ==> {
                &&& done is Ok
                &&& final(self).sound(None, None)
                &&& old(self).shape().tight(None) ==> final(self).shape().tight(
                    if old(self).shape().keys(page_id).len() > 0 {
                        None
                    } else {
                        Some(page_id)
                    },
                )
                &&& old(self).shape().upheld(final(self).shape(), parent_id)
                &&& final(self).shape().place[page_id].level
                    == old(self).shape().place[page_id].level
                &&& final(self).shape().place[page_id].up == old(self).shape().place[page_id].up
                &&& final(self).shape().place[page_id].lo == old(self).shape().place[page_id].lo
                &&& final(self).pages_held() == old(self).pages_held()
                &&& final(self).height() == old(self).height()
                &&& final(self).shape().entries() == old(self).shape().entries()
            },
    {
        let ghost s0 = self.shape();
        let ghost j = idx as int;
        let ghost fits = s0.is_leaf(page_id) && self.lends(page_id, right_id, parent_id, j)
            && s0.kids(parent_id)[j] == page_id;
        proof {
            if fits {
                self.lemma_siblings(page_id, parent_id, j);
            }
        }
        let (k, v) = match self.pager.get_mut(right_id) {
            Some(BPlusTreeNode::Leaf { keys, values, .. }) => {
                if keys.len() == 0 {
                    return Err(TreeError::EmptySibling(right_id));
                }
                (keys.remove(0), values.remove(0))
            },
            _ => {
                return Err(TreeError::SiblingNotALeaf(right_id));
            },
        };
        match self.pager.get_mut(page_id) {
            Some(BPlusTreeNode::Leaf { keys, values, .. }) => {
                keys.push(k);
                values.push(v);
            },
            _ => {
                return Err(TreeError::NotALeaf(page_id));
            },
        }
        // The separator tracks the right sibling first key by definition.
        let new_sep: K = match self.pager.get(right_id) {
            Some(BPlusTreeNode::Leaf { keys, .. }) => keys[0].clone(),
            _ => {
                return Err(TreeError::SiblingNotALeaf(right_id));
            },
        };
        let ghost sep = new_sep;
        match self.pager.get_mut(parent_id) {
            Some(BPlusTreeNode::Internal { keys, .. }) => {
                keys[idx] = new_sep;
            },
            _ => {
                return Err(TreeError::ParentNotInternal(parent_id));
            },
        }
        let ghost left = self.pager@[page_id];
        let ghost right = self.pager@[right_id];
        let ghost node = self.pager@[parent_id];
        proof {
            if page_id != right_id {
                assert(left.key_seq() =~= s0.keys(page_id).push(s0.keys(right_id)[0]));
                assert(left.value_seq() =~= s0.vals(page_id).push(s0.vals(right_id)[0]));
                assert(right.key_seq() =~= s0.keys(right_id).skip(1));
                assert(right.value_seq() =~= s0.vals(right_id).skip(1));
                assert(right.key_seq()[0] == s0.keys(right_id)[1]);
                assert(node.key_seq() =~= s0.keys(parent_id).update(j, sep));
            }
            if fits {
                let s1 = s0.shift(parent_id, j, left, right, node, sep);
                self.place@ = s1.place;
                assert(self.pager@ =~= s1.pages);
                assert(self.shape() == s1);
                assert(s1.pages.dom() =~= s0.pages.dom());
                assert(right.key_seq() =~= s0.keys(right_id).remove(0));
                assert(right.value_seq() =~= s0.vals(right_id).remove(0));
                s0.lemma_lend_first(parent_id, j, left, right, node, sep);
                lemma_clone_same(s0.keys(right_id)[1], sep);
                if s0.keys(page_id).len() > 0 {
                    assert(left.key_seq()[0] == s0.keys(page_id)[0]);
                }
                assert forall|x: PageId| #[trigger]
                    s0.tight(None) && s1.pages.contains_key(x) && s1.is_leaf(x) && s1.keys(x).len() > 0
                        && s1.place[x].lo is Some && !(x == page_id && s0.keys(page_id).len()
                        == 0) implies same(s1.place[x].lo->0, s1.keys(x)[0]) by {
                    assert(s0.pages.contains_key(x));
                }
            }
        }
        Ok(())
    }

    /// Fold an underflowing leaf into its left sibling.
    ///
    /// All entries move left, the leaf `next` chain is stitched around the freed page, and the parent
    /// separator plus child pointer are removed: left `[1]`, page `[2]`, separator `2` become left
    /// `[1, 2]`, and the page is freed.
    ///
    /// Fails if a page is unknown or mistyped.
    #[verifier::rlimit(40)]
    fn merge_leaf_into_left(
        &mut self,
        left_id: PageId,
        page_id: PageId,
        parent_id: PageId,
        idx: usize,
    ) -> (done: Result<(), TreeError>)
        requires
            old(self).shape().held_internal(parent_id) ==> 0 < idx <= old(self).shape().keys(
                parent_id,
            ).len() && idx < old(self).shape().kids(parent_id).len(),
        ensures
            done is Ok <==> old(self).shape().held_leaf(left_id) && old(self).shape().held_leaf(
                page_id,
            ) && old(self).shape().held_internal(parent_id),
            final(self).max_keys == old(self).max_keys,
            final(self).pager.next_id() == old(self).pager.next_id(),
            done is Ok && left_id != page_id ==> old(self).shape().paired(
                final(self).shape(),
                left_id,
                page_id,
                parent_id,
                idx - 1,
            ),
            old(self).shape().is_leaf(page_id) && old(self).joins(
                page_id,
                left_id,
                parent_id,
                idx - 1,
            ) && old(self).shape().kids(parent_id)[idx as int] == page_id ==> {
                &&& done is Ok
                &&& final(self).sound(Some(parent_id), None)
                &&& old(self).shape().tight(None) ==> final(self).shape().tight(None)
                &&& old(self).shape().upheld(final(self).shape(), parent_id)
                &&& final(self).shape().place[left_id].level == old(self).shape().place[left_id].level
                &&& final(self).shape().place[left_id].up == old(self).shape().place[left_id].up
                &&& final(self).shape().place[left_id].lo == old(self).shape().place[left_id].lo
                &&& final(self).pages_held() + 1 == old(self).pages_held()
                &&& final(self).height() == old(self).height()
                &&& final(self).shape().entries() == old(self).shape().entries()
            },
    {
        let ghost s0 = self.shape();
        let ghost j = idx - 1;
        let ghost fits = s0.is_leaf(page_id) && self.joins(page_id, left_id, parent_id, j) && s0.kids(
            parent_id,
        )[j + 1] == page_id;
        proof {
            if fits {
                self.lemma_siblings(page_id, parent_id, j);
            }
        }
        let mut mk: Vec<K> = Vec::new();
        let mut mv: Vec<V> = Vec::new();
        let next: Option<PageId> = match self.pager.get_mut(page_id) {
            Some(BPlusTreeNode::Leaf { keys, values, next }) => {
                std::mem::swap(keys, &mut mk);
                std::mem::swap(values, &mut mv);
                *next
            },
            _ => {
                return Err(TreeError::NotALeaf(page_id));
            },
        };
        match self.pager.get_mut(left_id) {
            Some(BPlusTreeNode::Leaf { keys, values, next: left_next }) => {
                keys.append(&mut mk);
                values.append(&mut mv);
                *left_next = next;
            },
            _ => {
                return Err(TreeError::SiblingNotALeaf(left_id));
            },
        }
        match self.pager.get_mut(parent_id) {
            Some(BPlusTreeNode::Internal { keys, children }) => {
                keys.remove(idx - 1);
                children.remove(idx);
            },
            _ => {
                return Err(TreeError::ParentNotInternal(parent_id));
            },
        }
        self.pager.free(page_id);
        let ghost left = self.pager@[left_id];
        let ghost node = self.pager@[parent_id];
        proof {
            if left_id != page_id {
                assert(left.key_seq() =~= s0.keys(left_id) + s0.keys(page_id));
                assert(left.value_seq() =~= s0.vals(left_id) + s0.vals(page_id));
                assert(node.key_seq() =~= s0.keys(parent_id).remove(j));
                assert(node.child_seq() =~= s0.kids(parent_id).remove(j + 1));
            }
            if fits {
                let i = s0.lemma_neighbours(parent_id, j);
                let s1 = s0.fold(parent_id, j, left, node, i);
                self.place@ = s1.place;
                self.chain@ = s1.chain;
                assert(self.pager@ =~= s1.pages);
                assert(self.shape() == s1);
                s0.lemma_fold(parent_id, j, left, node, i);
                assert(s1.pages.dom() =~= s0.pages.dom().remove(page_id));
                if s0.keys(left_id).len() > 0 {
                    assert(left.key_seq()[0] == s0.keys(left_id)[0]);
                }
                assert forall|x: PageId| #[trigger]
                    s0.tight(None) && s1.pages.contains_key(x) && s1.is_leaf(x) && s1.keys(x).len() > 0
                        && s1.place[x].lo is Some && !(false) implies same(
                    s1.place[x].lo->0,
                    s1.keys(x)[0],
                ) by {
                    assert(s0.pages.contains_key(x));
                    assert(s0.pages.contains_key(left_id));
                }
                assert forall|x: PageId| #[trigger] s1.pages.contains_key(x) implies s0.pages.contains_key(
                    x,
                ) by {}
                assert(s0.pages.contains_key(left_id));
            }
        }
        Ok(())
    }

    /// Fold the right leaf sibling into an underflowing page.
    ///
    /// Used when there is no left sibling. Entries move into the page, the `next` chain skips the
    /// freed sibling, and the parent separator at the page slot is removed. Where the page had no key,
    /// the separator to its own left is the caller's to move.
    ///
    /// Fails if a page is unknown or mistyped.
    #[verifier::rlimit(40)]
    fn merge_right_leaf_into_page(
        &mut self,
        page_id: PageId,
        right_id: PageId,
        parent_id: PageId,
        idx: usize,
    ) -> (done: Result<(), TreeError>)
        requires
            old(self).shape().held_internal(parent_id) ==> idx < old(self).shape().keys(
                parent_id,
            ).len() && idx + 1 < old(self).shape().kids(parent_id).len(),
        ensures
            done is Ok <==> old(self).shape().held_leaf(page_id) && old(self).shape().held_leaf(
                right_id,
            ) && old(self).shape().held_internal(parent_id),
            final(self).max_keys == old(self).max_keys,
            final(self).pager.next_id() == old(self).pager.next_id(),
            done is Ok && page_id != right_id ==> old(self).shape().paired(
                final(self).shape(),
                page_id,
                right_id,
                parent_id,
                idx as int,
            ),
            old(self).shape().is_leaf(page_id) && old(self).joins(
                page_id,
                right_id,
                parent_id,
                idx as int,
            ) && old(self).shape().kids(parent_id)[idx as int] == page_id ==> {
                &&& done is Ok
                &&& final(self).sound(Some(parent_id), None)
                &&& old(self).shape().tight(None) ==> final(self).shape().tight(
                    if old(self).shape().keys(page_id).len() > 0 {
                        None
                    } else {
                        Some(page_id)
                    },
                )
                &&& old(self).shape().upheld(final(self).shape(), parent_id)
                &&& final(self).shape().place[page_id].level == old(self).shape().place[page_id].level
                &&& final(self).shape().place[page_id].up == old(self).shape().place[page_id].up
                &&& final(self).shape().place[page_id].lo == old(self).shape().place[page_id].lo
                &&& final(self).pages_held() + 1 == old(self).pages_held()
                &&& final(self).height() == old(self).height()
                &&& final(self).shape().entries() == old(self).shape().entries()
            },
    {
        let ghost s0 = self.shape();
        let ghost j = idx as int;
        let ghost fits = s0.is_leaf(page_id) && self.joins(page_id, right_id, parent_id, j) && s0.kids(
            parent_id,
        )[j] == page_id;
        proof {
            if fits {
                self.lemma_siblings(page_id, parent_id, j);
            }
        }
        let mut mk: Vec<K> = Vec::new();
        let mut mv: Vec<V> = Vec::new();
        let next: Option<PageId> = match self.pager.get_mut(right_id) {
            Some(BPlusTreeNode::Leaf { keys, values, next }) => {
                std::mem::swap(keys, &mut mk);
                std::mem::swap(values, &mut mv);
                *next
            },
            _ => {
                return Err(TreeError::SiblingNotALeaf(right_id));
            },
        };
        match self.pager.get_mut(page_id) {
            Some(BPlusTreeNode::Leaf { keys, values, next: left_next }) => {
                keys.append(&mut mk);
                values.append(&mut mv);
                *left_next = next;
            },
            _ => {
                return Err(TreeError::NotALeaf(page_id));
            },
        }
        match self.pager.get_mut(parent_id) {
            Some(BPlusTreeNode::Internal { keys, children }) => {
                assert(idx < keys.len());
                keys.remove(idx);
                children.remove(idx + 1);
            },
            _ => {
                return Err(TreeError::ParentNotInternal(parent_id));
            },
        }
        self.pager.free(right_id);
        let ghost left = self.pager@[page_id];
        let ghost node = self.pager@[parent_id];
        proof {
            if page_id != right_id {
                assert(left.key_seq() =~= s0.keys(page_id) + s0.keys(right_id));
                assert(left.value_seq() =~= s0.vals(page_id) + s0.vals(right_id));
                assert(node.key_seq() =~= s0.keys(parent_id).remove(j));
                assert(node.child_seq() =~= s0.kids(parent_id).remove(j + 1));
            }
            if fits {
                let i = s0.lemma_neighbours(parent_id, j);
                let s1 = s0.fold(parent_id, j, left, node, i);
                self.place@ = s1.place;
                self.chain@ = s1.chain;
                assert(self.pager@ =~= s1.pages);
                assert(self.shape() == s1);
                s0.lemma_fold(parent_id, j, left, node, i);
                assert(s1.pages.dom() =~= s0.pages.dom().remove(right_id));
                if s0.keys(page_id).len() > 0 {
                    assert(left.key_seq()[0] == s0.keys(page_id)[0]);
                }
                assert forall|x: PageId| #[trigger]
                    s0.tight(None) && s1.pages.contains_key(x) && s1.is_leaf(x) && s1.keys(x).len() > 0
                        && s1.place[x].lo is Some && !(x == page_id && s0.keys(page_id).len() == 0) implies same(
                    s1.place[x].lo->0,
                    s1.keys(x)[0],
                ) by {
                    assert(s0.pages.contains_key(x));
                    assert(s0.pages.contains_key(page_id));
                }
                assert forall|x: PageId| #[trigger] s1.pages.contains_key(x) implies s0.pages.contains_key(
                    x,
                ) by {}
                assert(s0.pages.contains_key(right_id));
            }
        }
        Ok(())
    }

    /// Rotate one entry from the left internal sibling through the parent.
    ///
    /// The parent separator moves down to the front of the page and the sibling last key moves up to
    /// take its place, with the matching child pointer moving alongside: separator `5`, left keys
    /// `[1, 2]`, page keys `[7]` become separator `2`, left `[1]`, page `[5, 7]`.
    ///
    /// Fails if a page is unknown or mistyped.
    #[verifier::rlimit(60)]
    fn borrow_internal_from_left(
        &mut self,
        left_id: PageId,
        page_id: PageId,
        parent_id: PageId,
        idx: usize,
    ) -> (done: Result<(), TreeError>)
        requires
            left_id == parent_id && old(self).shape().held_internal(parent_id) ==> idx < old(
                self,
            ).shape().keys(parent_id).len(),
            old(self).shape().held_internal(left_id) ==> old(self).shape().keys(left_id).len() > 0
                && old(self).shape().kids(left_id).len() > 0,
            old(self).shape().held_internal(parent_id) ==> 0 < idx <= old(self).shape().keys(
                parent_id,
            ).len(),
        ensures
            done is Ok <==> old(self).shape().held_internal(left_id) && old(
                self,
            ).shape().held_internal(page_id) && old(self).shape().held_internal(parent_id),
            final(self).max_keys == old(self).max_keys,
            final(self).pager.next_id() == old(self).pager.next_id(),
            done is Ok && left_id != page_id && left_id != parent_id && page_id != parent_id ==> old(
                self,
            ).shape().lent_right(
                final(self).shape(),
                left_id,
                page_id,
                parent_id,
                idx as int,
            ),
            !old(self).shape().is_leaf(page_id) && old(self).lends(
                page_id,
                left_id,
                parent_id,
                idx - 1,
            ) && old(self).shape().kids(parent_id)[idx as int] == page_id ==> {
                &&& done is Ok
                &&& final(self).wf()
                &&& old(self).aligned() ==> final(self).aligned()
                &&& old(self).shape().upheld(final(self).shape(), parent_id)
                &&& final(self).shape().place[page_id].level
                    == old(self).shape().place[page_id].level
                &&& final(self).shape().place[page_id].up == old(self).shape().place[page_id].up
                &&& final(self).pages_held() == old(self).pages_held()
                &&& final(self).height() == old(self).height()
                &&& final(self).shape().entries() == old(self).shape().entries()
            },
    {
        let ghost s0 = self.shape();
        let ghost j = idx - 1;
        let ghost fits = !s0.is_leaf(page_id) && self.lends(page_id, left_id, parent_id, j)
            && s0.kids(parent_id)[j + 1] == page_id;
        proof {
            if fits {
                self.lemma_siblings(page_id, parent_id, j);
            }
        }
        // Take the sibling last key plus its rightmost child.
        let (up_key, down_child) = match self.pager.get_mut(left_id) {
            Some(BPlusTreeNode::Internal { keys, children }) => {
                let k: K = keys.pop().unwrap();
                let c: PageId = children.pop().unwrap();
                (k, c)
            },
            _ => {
                return Err(TreeError::SiblingNotInternal(left_id));
            },
        };
        let ghost up = up_key;
        // Swap the parent separator down into the page.
        let mut sep: K = up_key;
        match self.pager.get_mut(parent_id) {
            Some(BPlusTreeNode::Internal { keys, .. }) => {
                std::mem::swap(&mut keys[idx - 1], &mut sep);
            },
            _ => {
                return Err(TreeError::ParentNotInternal(parent_id));
            },
        }
        match self.pager.get_mut(page_id) {
            Some(BPlusTreeNode::Internal { keys, children }) => {
                keys.insert(0, sep);
                children.insert(0, down_child);
            },
            _ => {
                return Err(TreeError::NotInternal(page_id));
            },
        }
        let ghost left = self.pager@[left_id];
        let ghost right = self.pager@[page_id];
        let ghost node = self.pager@[parent_id];
        proof {
            if left_id != page_id && left_id != parent_id && page_id != parent_id {
                assert(left.key_seq() =~= s0.keys(left_id).drop_last());
                assert(left.child_seq() =~= s0.kids(left_id).drop_last());
                assert(right.key_seq() =~= seq![s0.keys(parent_id)[j]] + s0.keys(page_id));
                assert(right.child_seq() =~= seq![s0.kids(left_id).last()] + s0.kids(page_id));
                assert(node.key_seq() =~= s0.keys(parent_id).update(j, up));
            }
            if fits {
                let s1 = s0.rotate(parent_id, j, left, right, node, up);
                self.place@ = s1.place;
                assert(self.pager@ =~= s1.pages);
                assert(self.shape() == s1);
                assert(left.key_seq().push(up) + right.key_seq() =~= s0.joined_keys(parent_id, j));
                assert(left.child_seq() + right.child_seq() =~= s0.joined_kids(parent_id, j));
                assert(s1.pages.dom() =~= s0.pages.dom());
                s0.lemma_rotate(parent_id, j, left, right, node, up);
                s0.lemma_root_level(parent_id, j);
                s0.lemma_rotate_above(parent_id, j, left, right, node, up);
            }
        }
        Ok(())
    }

    /// Rotate one entry from the right internal sibling through the parent.
    ///
    /// The parent separator moves down to the back of the page and the sibling first key moves up to
    /// take its place, with the matching child pointer moving alongside: separator `5`, page keys
    /// `[3]`, right keys `[7, 9]` become separator `7`, page `[3, 5]`, right `[9]`.
    ///
    /// Fails if a page is unknown or mistyped, or the sibling has no key.
    #[verifier::rlimit(60)]
    fn borrow_internal_from_right(
        &mut self,
        page_id: PageId,
        right_id: PageId,
        parent_id: PageId,
        idx: usize,
    ) -> (done: Result<(), TreeError>)
        requires
            right_id == parent_id && old(self).shape().held_internal(parent_id) ==> idx + 1 < old(
                self,
            ).shape().keys(parent_id).len(),
            old(self).shape().held_internal(right_id) && old(self).shape().keys(right_id).len() > 0
                ==> old(self).shape().kids(right_id).len() > 0,
            old(self).shape().held_internal(parent_id) ==> idx < old(self).shape().keys(
                parent_id,
            ).len(),
        ensures
            done is Ok <==> old(self).shape().held_internal(right_id) && old(self).shape().keys(right_id).len() > 0 && old(
                self,
            ).shape().held_internal(page_id) && old(self).shape().held_internal(parent_id),
            final(self).max_keys == old(self).max_keys,
            final(self).pager.next_id() == old(self).pager.next_id(),
            done is Ok && page_id != right_id && page_id != parent_id && right_id != parent_id ==> old(
                self,
            ).shape().lent_left(
                final(self).shape(),
                page_id,
                right_id,
                parent_id,
                idx as int,
            ),
            !old(self).shape().is_leaf(page_id) && old(self).lends(
                page_id,
                right_id,
                parent_id,
                idx as int,
            ) && old(self).shape().kids(parent_id)[idx as int] == page_id ==> {
                &&& done is Ok
                &&& final(self).wf()
                &&& old(self).aligned() ==> final(self).aligned()
                &&& old(self).shape().upheld(final(self).shape(), parent_id)
                &&& final(self).shape().place[page_id].level
                    == old(self).shape().place[page_id].level
                &&& final(self).shape().place[page_id].up == old(self).shape().place[page_id].up
                &&& final(self).shape().place[page_id].lo == old(self).shape().place[page_id].lo
                &&& final(self).pages_held() == old(self).pages_held()
                &&& final(self).height() == old(self).height()
                &&& final(self).shape().entries() == old(self).shape().entries()
            },
    {
        let ghost s0 = self.shape();
        let ghost j = idx as int;
        let ghost fits = !s0.is_leaf(page_id) && self.lends(page_id, right_id, parent_id, j)
            && s0.kids(parent_id)[j] == page_id;
        proof {
            if fits {
                self.lemma_siblings(page_id, parent_id, j);
            }
        }
        // Take the sibling first key plus its leftmost child.
        let (up_key, down_child) = match self.pager.get_mut(right_id) {
            Some(BPlusTreeNode::Internal { keys, children }) => {
                if keys.len() == 0 {
                    return Err(TreeError::EmptySibling(right_id));
                }
                (keys.remove(0), children.remove(0))
            },
            _ => {
                return Err(TreeError::SiblingNotInternal(right_id));
            },
        };
        let ghost up = up_key;
        // Swap the parent separator down into the page.
        let mut sep: K = up_key;
        match self.pager.get_mut(parent_id) {
            Some(BPlusTreeNode::Internal { keys, .. }) => {
                std::mem::swap(&mut keys[idx], &mut sep);
            },
            _ => {
                return Err(TreeError::ParentNotInternal(parent_id));
            },
        }
        match self.pager.get_mut(page_id) {
            Some(BPlusTreeNode::Internal { keys, children }) => {
                keys.push(sep);
                children.push(down_child);
            },
            _ => {
                return Err(TreeError::NotInternal(page_id));
            },
        }
        let ghost left = self.pager@[page_id];
        let ghost right = self.pager@[right_id];
        let ghost node = self.pager@[parent_id];
        proof {
            if page_id != right_id && page_id != parent_id && right_id != parent_id {
                assert(left.key_seq() =~= s0.keys(page_id).push(s0.keys(parent_id)[j]));
                assert(left.child_seq() =~= s0.kids(page_id).push(s0.kids(right_id)[0]));
                assert(right.key_seq() =~= s0.keys(right_id).skip(1));
                assert(right.child_seq() =~= s0.kids(right_id).skip(1));
                assert(node.key_seq() =~= s0.keys(parent_id).update(j, up));
            }
            if fits {
                let s1 = s0.rotate(parent_id, j, left, right, node, up);
                self.place@ = s1.place;
                assert(self.pager@ =~= s1.pages);
                assert(self.shape() == s1);
                assert(left.key_seq().push(up) + right.key_seq() =~= s0.joined_keys(parent_id, j));
                assert(left.child_seq() + right.child_seq() =~= s0.joined_kids(parent_id, j));
                assert(s1.pages.dom() =~= s0.pages.dom());
                s0.lemma_rotate(parent_id, j, left, right, node, up);
                s0.lemma_root_level(parent_id, j);
                s0.lemma_rotate_above(parent_id, j, left, right, node, up);
            }
        }
        Ok(())
    }

    /// Fold an underflowing internal node into its left sibling.
    ///
    /// The parent separator between them is pulled down between the two key ranges, then the page is
    /// freed and the parent loses one key and one child pointer: left `[1]`, separator `5`, page
    /// `[7]` become left `[1, 5, 7]`.
    ///
    /// Fails if a page is unknown or mistyped.
    #[verifier::rlimit(60)]
    fn merge_internal_into_left(
        &mut self,
        left_id: PageId,
        page_id: PageId,
        parent_id: PageId,
        idx: usize,
    ) -> (done: Result<(), TreeError>)
        requires
            old(self).shape().held_internal(parent_id) ==> 0 < idx <= old(self).shape().keys(
                parent_id,
            ).len() && idx < old(self).shape().kids(parent_id).len(),
        ensures
            done is Ok <==> old(self).shape().held_internal(left_id) && old(self).shape().held_internal(
                page_id,
            ) && old(self).shape().held_internal(parent_id),
            final(self).max_keys == old(self).max_keys,
            final(self).pager.next_id() == old(self).pager.next_id(),
            done is Ok && left_id != page_id && left_id != parent_id && page_id != parent_id ==> old(
                self,
            ).shape().paired(final(self).shape(), left_id, page_id, parent_id, idx - 1),
            !old(self).shape().is_leaf(page_id) && old(self).joins(
                page_id,
                left_id,
                parent_id,
                idx - 1,
            ) && old(self).shape().kids(parent_id)[idx as int] == page_id ==> {
                &&& done is Ok
                &&& final(self).sound(Some(parent_id), None)
                &&& old(self).aligned() ==> final(self).aligned()
                &&& old(self).shape().upheld(final(self).shape(), parent_id)
                &&& final(self).pages_held() + 1 == old(self).pages_held()
                &&& final(self).height() == old(self).height()
                &&& final(self).shape().entries() == old(self).shape().entries()
            },
    {
        let ghost s0 = self.shape();
        let ghost j = idx - 1;
        let ghost fits = !s0.is_leaf(page_id) && self.joins(page_id, left_id, parent_id, j)
            && s0.kids(parent_id)[j + 1] == page_id;
        proof {
            if fits {
                self.lemma_siblings(page_id, parent_id, j);
            }
        }
        let separator: K = match self.pager.get_mut(parent_id) {
            Some(BPlusTreeNode::Internal { keys, children }) => {
                let sep: K = keys.remove(idx - 1);
                children.remove(idx);
                sep
            },
            _ => {
                return Err(TreeError::ParentNotInternal(parent_id));
            },
        };
        let mut mk: Vec<K> = Vec::new();
        let mut mc: Vec<PageId> = Vec::new();
        match self.pager.get_mut(page_id) {
            Some(BPlusTreeNode::Internal { keys, children }) => {
                std::mem::swap(keys, &mut mk);
                std::mem::swap(children, &mut mc);
            },
            _ => {
                return Err(TreeError::NotInternal(page_id));
            },
        }
        match self.pager.get_mut(left_id) {
            Some(BPlusTreeNode::Internal { keys, children }) => {
                keys.push(separator);
                keys.append(&mut mk);
                children.append(&mut mc);
            },
            _ => {
                return Err(TreeError::SiblingNotInternal(left_id));
            },
        }
        self.pager.free(page_id);
        let ghost left = self.pager@[left_id];
        let ghost node = self.pager@[parent_id];
        proof {
            if left_id != page_id && left_id != parent_id && page_id != parent_id {
                assert(left.key_seq() =~= s0.keys(left_id).push(s0.keys(parent_id)[j]) + s0.keys(page_id));
                assert(left.child_seq() =~= s0.kids(left_id) + s0.kids(page_id));
                assert(node.key_seq() =~= s0.keys(parent_id).remove(j));
                assert(node.child_seq() =~= s0.kids(parent_id).remove(j + 1));
            }
            if fits {
                let s1 = s0.merge(parent_id, j, left, node);
                self.place@ = s1.place;
                assert(self.pager@ =~= s1.pages);
                assert(self.shape() == s1);
                assert(s1.pages.dom() =~= s0.pages.dom().remove(page_id));
                assert(left.key_seq() =~= s0.joined_keys(parent_id, j));
                assert(left.child_seq() =~= s0.joined_kids(parent_id, j));
                s0.lemma_merge(parent_id, j, left, node);
                s0.lemma_root_level(parent_id, j);
                s0.lemma_merge_above(parent_id, j, left, node);
                s0.lemma_merge_tight(parent_id, j, left, node);
            }
        }
        Ok(())
    }

    /// Fold the right internal sibling into an underflowing page.
    ///
    /// Used when there is no left sibling. The parent separator is pulled down between the two key
    /// ranges, then the sibling is freed and the parent loses one key and one child pointer.
    ///
    /// Fails if a page is unknown or mistyped.
    #[verifier::rlimit(60)]
    fn merge_right_internal_into_page(
        &mut self,
        page_id: PageId,
        right_id: PageId,
        parent_id: PageId,
        idx: usize,
    ) -> (done: Result<(), TreeError>)
        requires
            old(self).shape().held_internal(parent_id) ==> idx < old(self).shape().keys(
                parent_id,
            ).len() && idx + 1 < old(self).shape().kids(parent_id).len(),
        ensures
            done is Ok <==> old(self).shape().held_internal(page_id) && old(self).shape().held_internal(
                right_id,
            ) && old(self).shape().held_internal(parent_id),
            final(self).max_keys == old(self).max_keys,
            final(self).pager.next_id() == old(self).pager.next_id(),
            done is Ok && page_id != right_id && page_id != parent_id && right_id != parent_id ==> old(
                self,
            ).shape().paired(final(self).shape(), page_id, right_id, parent_id, idx as int),
            !old(self).shape().is_leaf(page_id) && old(self).joins(
                page_id,
                right_id,
                parent_id,
                idx as int,
            ) && old(self).shape().kids(parent_id)[idx as int] == page_id ==> {
                &&& done is Ok
                &&& final(self).sound(Some(parent_id), None)
                &&& old(self).aligned() ==> final(self).aligned()
                &&& old(self).shape().upheld(final(self).shape(), parent_id)
                &&& final(self).pages_held() + 1 == old(self).pages_held()
                &&& final(self).height() == old(self).height()
                &&& final(self).shape().entries() == old(self).shape().entries()
            },
    {
        let ghost s0 = self.shape();
        let ghost j = idx as int;
        let ghost fits = !s0.is_leaf(page_id) && self.joins(page_id, right_id, parent_id, j)
            && s0.kids(parent_id)[j] == page_id;
        proof {
            if fits {
                self.lemma_siblings(page_id, parent_id, j);
            }
        }
        let separator: K = match self.pager.get_mut(parent_id) {
            Some(BPlusTreeNode::Internal { keys, children }) => {
                assert(idx < keys.len());
                let sep: K = keys.remove(idx);
                children.remove(idx + 1);
                sep
            },
            _ => {
                return Err(TreeError::ParentNotInternal(parent_id));
            },
        };
        let mut mk: Vec<K> = Vec::new();
        let mut mc: Vec<PageId> = Vec::new();
        match self.pager.get_mut(right_id) {
            Some(BPlusTreeNode::Internal { keys, children }) => {
                std::mem::swap(keys, &mut mk);
                std::mem::swap(children, &mut mc);
            },
            _ => {
                return Err(TreeError::SiblingNotInternal(right_id));
            },
        }
        match self.pager.get_mut(page_id) {
            Some(BPlusTreeNode::Internal { keys, children }) => {
                keys.push(separator);
                keys.append(&mut mk);
                children.append(&mut mc);
            },
            _ => {
                return Err(TreeError::NotInternal(page_id));
            },
        }
        self.pager.free(right_id);
        let ghost left = self.pager@[page_id];
        let ghost node = self.pager@[parent_id];
        proof {
            if page_id != right_id && page_id != parent_id && right_id != parent_id {
                assert(left.key_seq() =~= s0.keys(page_id).push(s0.keys(parent_id)[j]) + s0.keys(right_id));
                assert(left.child_seq() =~= s0.kids(page_id) + s0.kids(right_id));
                assert(node.key_seq() =~= s0.keys(parent_id).remove(j));
                assert(node.child_seq() =~= s0.kids(parent_id).remove(j + 1));
            }
            if fits {
                let s1 = s0.merge(parent_id, j, left, node);
                self.place@ = s1.place;
                assert(self.pager@ =~= s1.pages);
                assert(self.shape() == s1);
                assert(s1.pages.dom() =~= s0.pages.dom().remove(right_id));
                assert(left.key_seq() =~= s0.joined_keys(parent_id, j));
                assert(left.child_seq() =~= s0.joined_kids(parent_id, j));
                s0.lemma_merge(parent_id, j, left, node);
                s0.lemma_root_level(parent_id, j);
                s0.lemma_merge_above(parent_id, j, left, node);
                s0.lemma_merge_tight(parent_id, j, left, node);
            }
        }
        Ok(())
    }
}

} // verus!
