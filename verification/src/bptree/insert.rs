//! Insertion: nodes that overflow split in half and hand a key to their parents.

use super::entries::{lemma_turn, sorted, stored, turn};
use super::search::{binary_search, partition_point};
use super::shape::{lemma_reflexive, Halves, Shape};
use super::{BPlusTree, BPlusTreeNode, PageId, TreeError};
use crate::order::{before, lawful, lemma_before_asymmetric, lemma_clone_same, same};
use vstd::prelude::*;

verus! {

impl<K: Ord + Clone, V> BPlusTree<K, V> {
    /// Insert a key value pair, overwriting the old value on duplicates.
    ///
    /// A full leaf splits in half and the first key of the new right half becomes the parent
    /// separator, growing the tree when the root splits. The page numbers that it takes must not
    /// have run out. Fails, and changes nothing, if the way down to the key meets an unknown page or an
    /// internal node with too few children.
    ///
    /// # Examples
    ///
    /// ```
    /// use libnucleus::BPlusTree;
    ///
    /// let mut tree: BPlusTree<i32, i32> = BPlusTree::new(3);
    /// tree.insert(1, 10).unwrap();
    /// tree.insert(1, 11).unwrap(); // overwrite
    /// assert_eq!(tree.get(&1).unwrap(), Some(&11));
    /// ```
    #[verifier::rlimit(40)]
    pub fn insert(&mut self, key: K, value: V) -> (done: Result<(), TreeError>)
        requires
            lawful::<K>(),
            old(self).wf() || old(self).misled(key),
            old(self).wf() ==> old(self).pages_issued() + old(self).pages_needed(key)
                <= PageId::MAX,
        ensures
            !old(self).wf() ==> {
                &&& done matches Err(e) && old(self).misleads(key, e)
                &&& *final(self) == *old(self)
            },
            old(self).wf() ==> {
                &&& done is Ok
                &&& final(self).wf()
                &&& old(self).aligned() ==> final(self).aligned()
                &&& final(self).entries() == stored(old(self).entries(), key, value)
                &&& final(self).max_keys() == old(self).max_keys()
                &&& final(self).pages_issued() == old(self).pages_issued() + old(self).pages_needed(
                    key,
                )
                &&& final(self).pages_held() == old(self).pages_held() + old(self).pages_needed(key)
                &&& old(self).grew(final(self), key, value)
                &&& final(self).height() == old(self).height() + (if old(self).pages_needed(key)
                    == old(self).height() + 1 {
                    1int
                } else {
                    0
                })
            },
    {
        let ghost s0 = self.shape();
        let ghost max = self.max_keys as nat;
        let (leaf_node_id, stack) = match self.find_leaf(&key) {
            Ok(Some(found)) => found,
            Ok(None) => {
                let ghost entry = (key, value);
                proof {
                    s0.lemma_empty();
                }
                // Empty tree, so the first insert creates a lone leaf root.
                let id: PageId = self.pager.new_page(
                    BPlusTreeNode::Leaf { next: None, keys: vec![key], values: vec![value] },
                );
                self.root = Some(id);
                let ghost node = self.pager@[id];
                let ghost s1 = s0.plant(id, node);
                self.place = Ghost(s1.place);
                self.chain = Ghost(s1.chain);
                proof {
                    assert(self.shape() == s1);
                    assert(node.key_seq() =~= seq![entry.0]);
                    assert(node.value_seq() =~= seq![entry.1]);
                    s0.lemma_plant(id, node);
                    assert(self.pager@.dom() =~= set![id]);
                }
                return Ok(());
            },
            Err(e) => {
                return Err(e);
            },
        };
        proof {
            s0.lemma_page(None, leaf_node_id);
        }
        let ghost i = s0.lemma_leaf(leaf_node_id);
        proof {
            assert(stack@.push(leaf_node_id).drop_last() =~= stack@);
            s0.lemma_height(stack@, leaf_node_id);
        }
        let ghost mut found: Result<int, int> = Ok(0);
        let overflowed: bool = match self.pager.get_mut(leaf_node_id) {
            Some(BPlusTreeNode::Leaf { keys, values, .. }) => match binary_search(keys, &key) {
                Ok(idx) => {
                    proof {
                        found = Ok(idx as int);
                    }
                    values[idx] = value;
                    false
                },
                Err(pos) => {
                    proof {
                        found = Err(pos as int);
                    }
                    keys.insert(pos, key);
                    values.insert(pos, value);
                    keys.len() > self.max_keys
                },
            },
            Some(BPlusTreeNode::Internal { .. }) => {
                return Err(TreeError::LeafOnly);
            },
            None => {
                return Err(TreeError::LeafMissing);
            },
        };
        let ghost n1 = self.pager@[leaf_node_id];
        proof {
            assert(self.shape() == s0.write(leaf_node_id, n1));
            match found {
                Ok(idx) => {
                    s0.lemma_leaf_replace(i, idx, key, value, n1);
                },
                Err(pos) => {
                    s0.lemma_leaf_insert(i, pos, key, value, n1);
                },
            }
            let first = s0.keys(leaf_node_id)[0];
            lemma_reflexive(first);
            if n1.key_seq()[0] != first {
                lemma_before_asymmetric(key, first);
            }
            s0.lemma_tight_write(leaf_node_id, n1);
        }
        let ghost at = match found {
            Ok(idx) => idx,
            Err(pos) => pos,
        };
        let ghost fresh = self.pager.next_id();
        proof {
            if found is Err && at < s0.keys(leaf_node_id).len() {
                lemma_before_asymmetric(key, s0.keys(leaf_node_id)[at]);
            }
            s0.lemma_rank_of_leaf(leaf_node_id, key, at);
            if !overflowed {
                s0.lemma_grown_leaf(
                    self.shape(),
                    max,
                    stack@,
                    leaf_node_id,
                    key,
                    value,
                    at,
                    fresh as int,
                );
            }
        }
        if !overflowed {
            return Ok(());
        }
        let ghost s1 = self.shape();
        proof {
            s0.lemma_stack_kept(s1, stack@, leaf_node_id);
            assert forall|x: int| 0 <= x < stack@.len() implies s1.keys(#[trigger] stack@[x]).len()
                == s0.keys(stack@[x]).len() by {
                assert(stack@.push(leaf_node_id)[x] == stack@[x]);
                assert(stack@[x] != leaf_node_id);
            }
            s0.lemma_splits_kept(s1, max, stack@);
            self.lemma_ladder(leaf_node_id, stack@, 1);
            s1.lemma_page(None, leaf_node_id);
        }
        let done: Result<(), TreeError> = self.split_leaf(leaf_node_id, &stack);
        proof {
            let after = self.shape();
            let sep = choose|sep: K|
                {
                    &&& #[trigger] cloned(after.keys(fresh)[0], sep)
                    &&& s1.adopted(after, max, leaf_node_id, fresh, sep, stack@, fresh + 1)
                };
            s0.lemma_grown(s1, after, max, stack@, leaf_node_id, key, value, at, fresh, sep);
        }
        done
    }

    /// The pages make up one tree in which `id`, below the pages `stack`, holds one key too many.
    spec fn bursts(&self, id: PageId, stack: Seq<PageId>) -> bool {
        let s = self.shape();
        &&& lawful::<K>()
        &&& self.sound(None, Some(id))
        &&& s.keys(id).len() == self.max_keys + 1
        &&& s.stack_ok(stack, id)
    }

    /// The pages make up one tree but that `right`, split off from `left` at `separator`, has no
    /// parent yet.
    spec fn parted(&self, left: PageId, right: PageId, separator: K, stack: Seq<PageId>) -> bool {
        let s = self.shape();
        let max = self.max_keys as nat;
        &&& lawful::<K>()
        &&& self.max_keys >= 2
        &&& self.pager.wf()
        &&& s.tree_ok(Some(Halves { left, right }))
        &&& s.chain_ok()
        &&& s.fill_ok(self.spec_min(), max, None, None)
        &&& s.keys(left).len() >= self.spec_min()
        &&& s.place[left].hi == Some(separator)
        &&& s.stack_ok(stack, left)
    }

    /// Separators can be handed up along `stack`: no page comes twice, the keys of the internal nodes
    /// are in order, with one child more than keys, and there are numbers for `extra` pages and for
    /// those that come of splitting full nodes.
    spec fn ladder(&self, stack: Seq<PageId>, extra: int) -> bool {
        let s = self.shape();
        &&& lawful::<K>()
        &&& self.pager.wf()
        &&& self.pager.next_id() + extra + s.splits(self.max_keys as nat, stack) <= PageId::MAX
        &&& stack.no_duplicates()
        &&& forall|i: int|
            0 <= i < stack.len() ==> {
                let q = #[trigger] stack[i];
                &&& q < self.pager.next_id()
                &&& s.held_internal(q) ==> sorted(s.keys(q)) && s.kids(q).len() == s.keys(q).len() + 1
            }
    }

    /// No page of `after` differs.
    spec fn stayed(&self, after: &Self) -> bool {
        &&& after.shape() == self.shape()
        &&& after.max_keys == self.max_keys
        &&& after.pager.next_id() == self.pager.next_id()
    }

    /// A tree is in order all the way up from a page.
    proof fn lemma_ladder(&self, id: PageId, stack: Seq<PageId>, extra: int)
        requires
            self.bursts(id, stack),
            self.pager.next_id() + extra + self.shape().splits(self.max_keys as nat, stack)
                <= PageId::MAX,
        ensures
            self.ladder(stack, extra),
            !stack.contains(id),
    {
        let s = self.shape();
        let path = stack.push(id);
        s.lemma_stack_apart(stack, id);
        assert forall|i: int| 0 <= i < stack.len() implies {
            let q = #[trigger] stack[i];
            &&& q < self.pager.next_id()
            &&& s.held_internal(q) ==> sorted(s.keys(q)) && s.kids(q).len() == s.keys(q).len() + 1
        } by {
            assert(path[i] == stack[i]);
            s.lemma_page(None, path[i]);
        }
        assert forall|i: int, j: int| 0 <= i < stack.len() && 0 <= j < stack.len() && i
            != j implies stack[i] != stack[j] by {
            assert(path[i] == stack[i] && path[j] == stack[j]);
            assert(s.place[path[i]].level == s.place[id].level + (stack.len() - i));
            assert(s.place[path[j]].level == s.place[id].level + (stack.len() - j));
        }
    }

    /// Writing page `id` and a new page leaves what is above `id` as it was.
    proof fn lemma_ladder_kept(&self, after: &Self, stack: Seq<PageId>, id: PageId)
        requires
            self.ladder(stack, 1),
            !stack.contains(id),
            after.pager.wf(),
            after.max_keys == self.max_keys,
            after.pager.next_id() == self.pager.next_id() + 1,
            forall|x: PageId| #[trigger]
                after.shape().pages.contains_key(x) && x != id && x != self.pager.next_id()
                    ==> self.shape().pages.contains_key(x),
            forall|x: PageId| #[trigger]
                self.shape().pages.contains_key(x) && x != id ==> after.shape().pages.contains_key(x)
                    && after.shape().pages[x] == self.shape().pages[x],
            forall|x: PageId|
                x != id && x != self.pager.next_id() ==> #[trigger] after.shape().pages[x]
                    == self.shape().pages[x],
        ensures
            after.ladder(stack, 0),
            !stack.contains(self.pager.next_id()),
            forall|i: int|
                0 <= i < stack.len() ==> after.shape().pages[#[trigger] stack[i]]
                    == self.shape().pages[stack[i]] && after.shape().pages.contains_key(stack[i])
                    == self.shape().pages.contains_key(stack[i]),
            after.shape().splits(self.max_keys as nat, stack) == self.shape().splits(
                self.max_keys as nat,
                stack,
            ),
    {
        let s0 = self.shape();
        let s1 = after.shape();
        let fresh = self.pager.next_id();
        if stack.contains(fresh) {
            let i = stack.index_of(fresh);
            assert(stack[i] == fresh);
        }
        assert forall|i: int| 0 <= i < stack.len() implies s1.pages[#[trigger] stack[i]]
            == s0.pages[stack[i]] && s1.pages.contains_key(stack[i]) == s0.pages.contains_key(
            stack[i],
        ) by {
            assert(stack.contains(stack[i]));
            assert(stack[i] != id && stack[i] != fresh);
        }
        s0.lemma_splits_kept(s1, self.max_keys as nat, stack);
        assert forall|i: int| 0 <= i < stack.len() implies {
            let q = #[trigger] stack[i];
            &&& q < after.pager.next_id()
            &&& s1.held_internal(q) ==> sorted(s1.keys(q)) && s1.kids(q).len() == s1.keys(q).len()
                + 1
        } by {
            assert(s1.pages[stack[i]] == s0.pages[stack[i]]);
        }
    }

    /// Split a leaf that holds one key too many into two halves linked in key order.
    ///
    /// The left half keeps the page id, the right half gets a new page, and the first key
    /// of the right half is pushed to the parent: with `max_keys = 2`, leaf `[1, 2, 3]` becomes
    /// `[1]` linked to `[2, 3]` with separator `2` inserted into the parent.
    ///
    /// Fails, and changes nothing, if the page is unknown or not a leaf. Fails too if a page above it
    /// that is handed a separator is unknown or not an internal node.
    #[verifier::rlimit(60)]
    fn split_leaf(&mut self, page: PageId, stack: &[PageId]) -> (done: Result<(), TreeError>)
        requires
            ({
                let s = old(self).shape();
                s.held_leaf(page) ==> {
                    &&& s.keys(page).len() > 0
                    &&& s.keys(page).len() / 2 <= s.vals(page).len()
                    &&& !stack@.contains(page)
                    &&& old(self).ladder(stack@, 1)
                }
            }),
        ensures
            done is Ok <==> old(self).shape().held_leaf(page) && old(self).shape().climbs(
                old(self).max_keys as nat,
                stack@,
            ),
            !old(self).shape().held_leaf(page) ==> old(self).stayed(final(self)) && done == Err::<
                (),
                TreeError,
            >(
                if old(self).shape().pages.contains_key(page) {
                    TreeError::LeafExpected
                } else {
                    TreeError::PageNotFound
                },
            ),
            final(self).max_keys == old(self).max_keys,
            done is Ok ==> {
                let s = old(self).shape();
                let after = final(self).shape();
                let max = old(self).max_keys as nat;
                let fresh = old(self).pager.next_id();
                &&& final(self).pager.next_id() == fresh + 1 + s.splits(max, stack@)
                &&& final(self).pages_held() == old(self).pages_held() + 1 + s.splits(max, stack@)
                &&& s.kept(after, stack@.push(page))
                &&& s.halved_leaf(after, page, fresh)
                &&& exists|sep: K|
                    {
                        &&& #[trigger] cloned(after.keys(fresh)[0], sep)
                        &&& s.adopted(after, max, page, fresh, sep, stack@, fresh + 1)
                    }
            },
            old(self).bursts(page, stack@) && old(self).shape().held_leaf(page) ==> {
                &&& done is Ok
                &&& final(self).wf()
                &&& old(self).aligned() ==> final(self).aligned()
                &&& final(self).shape().entries() == old(self).shape().entries()
                &&& final(self).height() == old(self).height() + (if old(self).shape().splits(
                    old(self).max_keys as nat,
                    stack@,
                ) == stack@.len() + 1 {
                    1int
                } else {
                    0
                })
            },
    {
        let ghost s0 = self.shape();
        let ghost max = self.max_keys as nat;
        let ghost fits = self.bursts(page, stack@) && s0.held_leaf(page);
        let ghost mut i: int = 0;
        proof {
            if fits {
                s0.lemma_page(None, page);
                i = s0.lemma_leaf(page);
            }
        }
        let ghost mid = (s0.keys(page).len() / 2) as int;
        let (right_keys, right_values, old_next) = match self.pager.get_mut(page) {
            Some(BPlusTreeNode::Leaf { next, keys, values }) => {
                let mid: usize = keys.len() / 2;
                (keys.split_off(mid), values.split_off(mid), next.take())
            },
            Some(_) => {
                assert(self.pager@ =~= s0.pages);
                return Err(TreeError::LeafExpected);
            },
            None => {
                return Err(TreeError::PageNotFound);
            },
        };
        let separator: K = right_keys[0].clone();
        let ghost sep = separator;
        proof {
            lemma_clone_same(s0.keys(page)[mid], separator);
        }
        let new_right: PageId = self.pager.new_page(
            BPlusTreeNode::Leaf { next: old_next, keys: right_keys, values: right_values },
        );
        match self.pager.get_mut(page) {
            Some(BPlusTreeNode::Leaf { next, .. }) => {
                *next = Some(new_right);
            },
            _ => {
                return Err(TreeError::LeafExpected);
            },
        }
        let ghost left = self.pager@[page];
        let ghost right = self.pager@[new_right];
        proof {
            assert(left.key_seq() =~= s0.keys(page).take(mid));
            assert(left.value_seq() =~= s0.pages[page].value_seq().take(mid));
            assert(right.key_seq() =~= s0.keys(page).skip(mid));
            assert(right.value_seq() =~= s0.pages[page].value_seq().skip(mid));
            assert(self.pager@ =~= s0.pages.insert(page, left).insert(new_right, right));
            assert(self.pager@.dom() =~= s0.pages.dom().insert(new_right));
            if fits {
                let s1 = s0.split_leaf(i, left, new_right, right, separator);
                self.place@ = s1.place;
                self.chain@ = s1.chain;
                assert(self.pager@ =~= s1.pages);
                assert(self.shape() == s1);
                s0.lemma_split_leaf(i, mid, left, new_right, right, separator);
                assert(s0.tight(None) ==> s1.tight(None)) by {
                    assert forall|x: PageId| #[trigger]
                        s0.tight(None) && s1.pages.contains_key(x) && s1.is_leaf(x) && s1.keys(
                            x,
                        ).len() > 0 && s1.place[x].lo is Some implies same(
                        s1.place[x].lo->0,
                        s1.keys(x)[0],
                    ) by {
                        if x != new_right {
                            assert(s0.pages.contains_key(x));
                        }
                    }
                }
                s0.lemma_stack_kept(s1, stack@, page);
            }
            old(self).lemma_ladder_kept(self, stack@, page);
        }
        let ghost s1 = self.shape();
        let done: Result<(), TreeError> = self.insert_in_parent(page, new_right, separator, stack);
        proof {
            s0.lemma_kept_through(s1, self.shape(), stack@, page, new_right);
            s0.lemma_adopted_same(
                s1,
                self.shape(),
                max,
                page,
                new_right,
                sep,
                stack@,
                old(self).pager.next_id() + 1,
            );
            assert(self.shape().keys(new_right)[0] == s0.keys(page)[mid]);
            assert(cloned(self.shape().keys(new_right)[0], sep));
        }
        done
    }

    /// Insert a separator and right child pointer into the parent.
    ///
    /// An empty stack means the old node was the root, so a new root with the two children is
    /// created and the tree grows one level.
    ///
    /// Fails, and changes nothing, if the parent page is unknown or not an internal node. Fails too if
    /// a page further up that is handed a separator is.
    #[verifier::rlimit(60)]
    fn insert_in_parent(
        &mut self,
        left_id: PageId,
        right_id: PageId,
        separator: K,
        stack: &[PageId],
    ) -> (done: Result<(), TreeError>)
        requires
            ({
                ||| stack@.len() > 0 && !old(self).shape().held_internal(stack@.last())
                ||| old(self).ladder(stack@, 0)
            }),
        ensures
            done is Ok <==> old(self).shape().climbs(old(self).max_keys as nat, stack@),
            stack@.len() > 0 && !old(self).shape().held_internal(stack@.last()) ==> old(
                self,
            ).stayed(final(self)) && done == Err::<(), TreeError>(
                TreeError::ParentNotInternal(stack@.last()),
            ),
            final(self).max_keys == old(self).max_keys,
            old(self).shape().kept(final(self).shape(), stack@),
            done is Ok ==> {
                let s = old(self).shape();
                let after = final(self).shape();
                let max = old(self).max_keys as nat;
                let fresh = old(self).pager.next_id();
                &&& final(self).pager.next_id() == fresh + s.splits(max, stack@)
                &&& final(self).pages_held() == old(self).pages_held() + s.splits(max, stack@)
                &&& s.adopted(after, max, left_id, right_id, separator, stack@, fresh as int)
            },
            old(self).parted(left_id, right_id, separator, stack@) ==> {
                &&& done is Ok
                &&& final(self).wf()
                &&& old(self).aligned() ==> final(self).aligned()
                &&& final(self).shape().entries() == old(self).shape().entries()
                &&& final(self).height() == old(self).height() + (if old(self).shape().splits(
                    old(self).max_keys as nat,
                    stack@,
                ) == stack@.len() + 1 {
                    1int
                } else {
                    0
                })
            },
        decreases stack@.len(), 0nat,
    {
        let ghost s0 = self.shape();
        let ghost max = self.max_keys as nat;
        let ghost pend = Some(Halves { left: left_id, right: right_id });
        let ghost fits = self.parted(left_id, right_id, separator, stack@);
        if stack.len() == 0 {
            let new_root: PageId = self.pager.new_page(
                BPlusTreeNode::Internal { keys: vec![separator], children: vec![left_id, right_id] },
            );
            self.root = Some(new_root);
            let ghost node = self.pager@[new_root];
            proof {
                assert(node.key_seq() =~= seq![separator]);
                assert(node.child_seq() =~= seq![left_id, right_id]);
                assert(self.pager@.dom() =~= s0.pages.dom().insert(new_root));
                if fits {
                    let s1 = s0.crown(left_id, right_id, new_root, node);
                    self.place@ = s1.place;
                    assert(stack@.push(left_id)[0] == left_id);
                    s0.lemma_crown(left_id, right_id, new_root, node);
                    s0.lemma_tight_kept(s1, None);
                    assert(self.shape() == s1);
                }
            }
            return Ok(());
        }
        let parent_id: PageId = stack[stack.len() - 1];
        let parent_stack: &[PageId] = &stack[0..stack.len() - 1];
        let ghost idx = s0.kids(parent_id).index_of(left_id);
        proof {
            assert(parent_stack@ =~= stack@.drop_last());
            assert(parent_stack@.push(parent_id) =~= stack@);
            assert(stack@[stack@.len() - 1] == parent_id);
            if fits {
                s0.lemma_height(stack@, left_id);
                s0.lemma_stack_up(stack@, left_id);
                s0.lemma_page(pend, left_id);
                s0.lemma_page(pend, parent_id);
                s0.lemma_split_fits(left_id, right_id, parent_id, idx);
            }
        }
        let ghost sep = separator;
        let overflow: bool = match self.pager.get_mut(parent_id) {
            Some(BPlusTreeNode::Internal { keys, children }) => {
                let pos: usize = partition_point(keys, &separator);
                proof {
                    assert(keys@ == s0.keys(parent_id));
                    lemma_turn(keys@, separator, pos as int);
                    if fits {
                        if pos < idx {
                            assert(!before(separator, s0.keys(parent_id)[pos as int]));
                        }
                        if idx < pos {
                            assert(before(separator, s0.keys(parent_id)[idx]));
                        }
                    }
                    assert(children.len() == keys.len() + 1);
                }
                keys.insert(pos, separator);
                children.insert(pos + 1, right_id);
                keys.len() > self.max_keys
            },
            _ => {
                assert(self.pager@ =~= s0.pages);
                return Err(TreeError::ParentNotInternal(parent_id));
            },
        };
        let ghost node = self.pager@[parent_id];
        let ghost s1 = s0.write(parent_id, node);
        let ghost at = turn(s0.keys(parent_id), sep) as int;
        proof {
            assert(self.shape() == s1);
            assert(node.key_seq() =~= s0.keys(parent_id).insert(at, sep));
            assert(node.child_seq() =~= s0.kids(parent_id).insert(at + 1, right_id));
            assert(s1.pages.dom() =~= s0.pages.dom());
            if fits {
                s0.lemma_attach(left_id, right_id, parent_id, idx, node);
                s0.lemma_tight_kept(s1, None);
            }
            assert forall|x: int| 0 <= x < parent_stack@.len() implies {
                &&& s1.pages[#[trigger] parent_stack@[x]] == s0.pages[parent_stack@[x]]
                &&& s1.pages.contains_key(parent_stack@[x]) == s0.pages.contains_key(
                    parent_stack@[x],
                )
                &&& parent_stack@[x] == stack@[x]
                &&& parent_stack@[x] != parent_id
            } by {
                assert(stack@[x] != stack@[stack@.len() - 1]);
            }
            assert(s0.kept(s1, stack@)) by {
                assert(stack@.contains(parent_id));
            }
        }
        if overflow {
            proof {
                s0.lemma_splits_kept(s1, max, parent_stack@);
                assert(self.ladder(parent_stack@, 1)) by {
                    assert forall|x: int| 0 <= x < parent_stack@.len() implies {
                        let q = #[trigger] parent_stack@[x];
                        &&& q < self.pager.next_id()
                        &&& s1.held_internal(q) ==> sorted(s1.keys(q)) && s1.kids(q).len()
                            == s1.keys(q).len() + 1
                    } by {
                        assert(stack@[x] == parent_stack@[x]);
                    }
                    assert forall|x: int, y: int|
                        0 <= x < parent_stack@.len() && 0 <= y < parent_stack@.len() && x
                            != y implies parent_stack@[x] != parent_stack@[y] by {
                        assert(stack@[x] == parent_stack@[x] && stack@[y] == parent_stack@[y]);
                    }
                }
                if fits {
                    s0.lemma_stack_kept(s1, parent_stack@, parent_id);
                }
            }
            let done: Result<(), TreeError> = self.split_internal(parent_id, parent_stack);
            proof {
                s0.lemma_adopted_same(
                    s1,
                    self.shape(),
                    max,
                    parent_id,
                    old(self).pager.next_id(),
                    node.key_seq()[node.key_seq().len() as int / 2],
                    parent_stack@,
                    old(self).pager.next_id() + 1,
                );
                assert forall|x: PageId| #[trigger]
                    s0.pages.contains_key(x) && !stack@.contains(x) implies self.shape().pages.contains_key(
                    x,
                ) && self.shape().pages[x] == s0.pages[x] by {
                    assert(s1.pages.contains_key(x));
                }
            }
            return done;
        }
        Ok(())
    }

    /// Split an internal node that holds one key too many and promote the middle separator.
    ///
    /// The middle key moves up to the parent while the keys and children around it form the new
    /// right sibling: internal `[1, 2, 3]` with `max_keys = 2` promotes `2`, leaving `[1]` on the
    /// left page and `[3]` on the new right page.
    ///
    /// Fails, and changes nothing, if the page is unknown or not an internal node. Fails too if a page
    /// above it that is handed a separator is.
    #[verifier::rlimit(60)]
    fn split_internal(&mut self, page_id: PageId, stack: &[PageId]) -> (done: Result<(), TreeError>)
        requires
            ({
                let s = old(self).shape();
                s.held_internal(page_id) ==> {
                    &&& s.keys(page_id).len() > 0
                    &&& s.kids(page_id).len() == s.keys(page_id).len() + 1
                    &&& !stack@.contains(page_id)
                    &&& old(self).ladder(stack@, 1)
                }
            }),
        ensures
            done is Ok <==> old(self).shape().held_internal(page_id) && old(self).shape().climbs(
                old(self).max_keys as nat,
                stack@,
            ),
            !old(self).shape().held_internal(page_id) ==> old(self).stayed(final(self)) && done
                == Err::<(), TreeError>(TreeError::SplitOfLeaf(page_id)),
            final(self).max_keys == old(self).max_keys,
            old(self).shape().kept(final(self).shape(), stack@.push(page_id)),
            done is Ok ==> {
                let s = old(self).shape();
                let after = final(self).shape();
                let max = old(self).max_keys as nat;
                let fresh = old(self).pager.next_id();
                let keys = s.keys(page_id);
                &&& final(self).pager.next_id() == fresh + 1 + s.splits(max, stack@)
                &&& final(self).pages_held() == old(self).pages_held() + 1 + s.splits(max, stack@)
                &&& Shape::halved_internal(after, keys, s.kids(page_id), page_id, fresh)
                &&& s.adopted(
                    after,
                    max,
                    page_id,
                    fresh,
                    keys[keys.len() as int / 2],
                    stack@,
                    fresh + 1,
                )
            },
            old(self).bursts(page_id, stack@) && old(self).shape().held_internal(page_id) ==> {
                &&& done is Ok
                &&& final(self).wf()
                &&& old(self).aligned() ==> final(self).aligned()
                &&& final(self).shape().entries() == old(self).shape().entries()
                &&& final(self).height() == old(self).height() + (if old(self).shape().splits(
                    old(self).max_keys as nat,
                    stack@,
                ) == stack@.len() + 1 {
                    1int
                } else {
                    0
                })
            },
        decreases stack@.len(), 1nat,
    {
        let ghost s0 = self.shape();
        let ghost max = self.max_keys as nat;
        let ghost fits = self.bursts(page_id, stack@) && s0.held_internal(page_id);
        proof {
            if fits {
                s0.lemma_page(None, page_id);
            }
        }
        let ghost mid = (s0.keys(page_id).len() / 2) as int;
        let (right_keys, right_children, promoted) = match self.pager.get_mut(page_id) {
            Some(BPlusTreeNode::Internal { keys, children }) => {
                let mid: usize = keys.len() / 2;
                let mut rk: Vec<K> = keys.split_off(mid);
                let promoted: K = rk.remove(0);
                let rc: Vec<PageId> = children.split_off(mid + 1);
                (rk, rc, promoted)
            },
            _ => {
                assert(self.pager@ =~= s0.pages);
                return Err(TreeError::SplitOfLeaf(page_id));
            },
        };
        let right_id: PageId = self.pager.new_page(
            BPlusTreeNode::Internal { keys: right_keys, children: right_children },
        );
        let ghost left = self.pager@[page_id];
        let ghost right = self.pager@[right_id];
        proof {
            assert(left.key_seq() =~= s0.keys(page_id).take(mid));
            assert(left.child_seq() =~= s0.kids(page_id).take(mid + 1));
            assert(right.key_seq() =~= s0.keys(page_id).skip(mid + 1));
            assert(right.child_seq() =~= s0.kids(page_id).skip(mid + 1));
            assert(promoted == s0.keys(page_id)[mid]);
            assert(self.pager@ =~= s0.pages.insert(page_id, left).insert(right_id, right));
            assert(self.pager@.dom() =~= s0.pages.dom().insert(right_id));
            if fits {
                let s1 = s0.split_internal(page_id, left, right_id, right, promoted);
                self.place@ = s1.place;
                assert(self.pager@ =~= s1.pages);
                assert(self.shape() == s1);
                s0.lemma_split_internal(page_id, mid, left, right_id, right);
                s0.lemma_split_above(page_id, mid, left, right_id, right, max, stack@);
                assert forall|x: PageId| #[trigger]
                    s1.pages.contains_key(x) && s1.is_leaf(x) implies {
                    &&& s0.pages.contains_key(x)
                    &&& s0.pages[x] == s1.pages[x]
                    &&& s0.place[x].lo == s1.place[x].lo
                } by {
                    s0.lemma_page(None, x);
                }
                s0.lemma_tight_kept(s1, None);
            }
            old(self).lemma_ladder_kept(self, stack@, page_id);
        }
        let ghost s1 = self.shape();
        let done: Result<(), TreeError> = self.insert_in_parent(page_id, right_id, promoted, stack);
        proof {
            s0.lemma_kept_through(s1, self.shape(), stack@, page_id, right_id);
            s0.lemma_adopted_same(
                s1,
                self.shape(),
                max,
                page_id,
                right_id,
                s0.keys(page_id)[mid],
                stack@,
                old(self).pager.next_id() + 1,
            );
        }
        done
    }
}

} // verus!
