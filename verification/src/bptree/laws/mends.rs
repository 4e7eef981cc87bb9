//! What rebalancing a page does to the pages.

use super::super::shape::Shape;
use super::super::{fewest, BPlusTree, PageId};
use super::deletes::{leaf_with, node_with, others_kept};
use crate::order::lawful;
use vstd::prelude::*;

verus! {

/// Page `id`, below the pages `stack`, is child `t` of the last of them, and may be one key short.
pub open spec fn short_child<K: Ord + Clone, V>(
    tree: BPlusTree<K, V>,
    id: PageId,
    stack: Seq<PageId>,
    t: int,
) -> bool {
    let cs = tree.nodes()[stack.last()].child_seq();
    &&& tree.wanting(id, stack)
    &&& stack.len() > 0
    &&& 0 <= t < cs.len()
    &&& cs[t] == id
}

/// What a page and its neighbours are in a tree.
proof fn lemma_neighbours<K: Ord + Clone, V>(
    tree: BPlusTree<K, V>,
    id: PageId,
    stack: Seq<PageId>,
    t: int,
)
    requires
        short_child(tree, id, stack, t),
    ensures
        lawful::<K>(),
        ({
            let s = tree.shape();
            let q = stack.last();
            let cs = s.kids(q);
            &&& s.held_internal(q)
            &&& s.pages.contains_key(id)
            &&& cs.len() == s.keys(q).len() + 1
            &&& cs.no_duplicates()
            &&& cs.index_of(id) == t
            &&& forall|i: int|
                0 <= i < cs.len() ==> {
                    let c = #[trigger] cs[i];
                    &&& s.pages.contains_key(c)
                    &&& c != q
                    &&& s.is_leaf(c) == s.is_leaf(id)
                    &&& i != t ==> c != id
                }
        }),
{
    let s = tree.shape();
    let q = stack.last();
    s.lemma_stack_up(stack, id);
    assert(stack.push(id)[stack.len() as int] == id);
    s.lemma_page(None, q);
    s.lemma_page(None, id);
    s.lemma_alike(q);
    s.lemma_kids_distinct(None, q);
    assert(s.kids(q)[t] == id);
}

/// A root is never merged: an internal one without keys gives way to its only child, and any other
/// stays as it is.
pub proof fn law_mended_root<K: Ord + Clone, V>(
    tree: BPlusTree<K, V>,
    after: BPlusTree<K, V>,
    id: PageId,
)
    requires
        tree.mended(&after, id, Seq::<PageId>::empty()),
    ensures
        ({
            let node = tree.nodes()[id];
            if tree.nodes().contains_key(id) && node is Internal && node.key_seq().len() == 0
                && node.child_seq().len() == 1 {
                &&& after.root_page() == Some(node.child_seq()[0])
                &&& after.nodes() == tree.nodes().remove(id)
            } else {
                &&& after.root_page() == tree.root_page()
                &&& after.nodes() == tree.nodes()
            }
        }),
{
    reveal_with_fuel(Shape::rebalanced, 1);
    let path = Seq::<PageId>::empty().push(id);
    assert(path.last() == id);
}

/// A page whose left neighbour holds more than the fewest keys gets the last one of them: a leaf the
/// entry, with a clone of the key, which becomes the separator; an internal node the separator and the
/// last child, and the key takes the place of the separator.
pub proof fn law_mended_from_left<K: Ord + Clone, V>(
    tree: BPlusTree<K, V>,
    after: BPlusTree<K, V>,
    id: PageId,
    stack: Seq<PageId>,
    t: int,
)
    requires
        short_child(tree, id, stack, t),
        tree.mended(&after, id, stack),
        t > 0,
        tree.nodes()[tree.nodes()[stack.last()].child_seq()[t - 1]].key_seq().len() > fewest(
            tree.max_keys(),
        ),
    ensures
        ({
            let q = stack.last();
            let up = tree.nodes()[q];
            let left = up.child_seq()[t - 1];
            let lender = tree.nodes()[left];
            let was = tree.nodes()[id];
            let last = lender.key_seq().last();
            &&& after.root_page() == tree.root_page()
            &&& others_kept(tree.nodes(), after.nodes(), left, id, q)
            &&& node_with(after.nodes(), q, up.key_seq().update(t - 1, last), up.child_seq())
            &&& was is Leaf ==> {
                let first = after.nodes()[id].key_seq()[0];
                &&& cloned(last, first)
                &&& leaf_with(
                    after.nodes(),
                    left,
                    lender.key_seq().drop_last(),
                    lender.value_seq().drop_last(),
                    lender->next,
                )
                &&& leaf_with(
                    after.nodes(),
                    id,
                    seq![first] + was.key_seq(),
                    seq![lender.value_seq().last()] + was.value_seq(),
                    was->next,
                )
            }
            &&& was is Internal ==> {
                &&& node_with(
                    after.nodes(),
                    left,
                    lender.key_seq().drop_last(),
                    lender.child_seq().drop_last(),
                )
                &&& node_with(
                    after.nodes(),
                    id,
                    seq![up.key_seq()[t - 1]] + was.key_seq(),
                    seq![lender.child_seq().last()] + was.child_seq(),
                )
            }
        }),
{
    lemma_neighbours(tree, id, stack, t);
    reveal_with_fuel(Shape::rebalanced, 1);
    let path = stack.push(id);
    assert(path.last() == id && path[path.len() - 2] == stack.last());
}

/// A page whose left neighbour has no key to spare gets the first one of its right neighbour, if this one
/// holds more than the fewest: a leaf the entry, and the separator between the two becomes a clone of
/// the key that is now first there, as the separator to the left of the leaf becomes one of its first key
/// if it was empty; an internal node the separator and the first child, and the key takes the place of
/// the separator.
pub proof fn law_mended_from_right<K: Ord + Clone, V>(
    tree: BPlusTree<K, V>,
    after: BPlusTree<K, V>,
    id: PageId,
    stack: Seq<PageId>,
    t: int,
)
    requires
        short_child(tree, id, stack, t),
        tree.mended(&after, id, stack),
        ({
            let cs = tree.nodes()[stack.last()].child_seq();
            &&& t > 0 ==> tree.nodes()[cs[t - 1]].key_seq().len() <= fewest(tree.max_keys())
            &&& t + 1 < cs.len()
            &&& tree.nodes()[cs[t + 1]].key_seq().len() > fewest(tree.max_keys())
        }),
    ensures
        ({
            let q = stack.last();
            let up = tree.nodes()[q];
            let right = up.child_seq()[t + 1];
            let lender = tree.nodes()[right];
            let was = tree.nodes()[id];
            let seps = after.nodes()[q].key_seq();
            &&& after.root_page() == tree.root_page()
            &&& others_kept(tree.nodes(), after.nodes(), right, id, q)
            &&& node_with(after.nodes(), q, seps, up.child_seq())
            &&& was is Leaf ==> {
                &&& leaf_with(
                    after.nodes(),
                    right,
                    lender.key_seq().skip(1),
                    lender.value_seq().skip(1),
                    lender->next,
                )
                &&& leaf_with(
                    after.nodes(),
                    id,
                    was.key_seq().push(lender.key_seq()[0]),
                    was.value_seq().push(lender.value_seq()[0]),
                    was->next,
                )
                &&& seps.len() == up.key_seq().len()
                &&& cloned(lender.key_seq()[1], seps[t])
                &&& t > 0 && was.key_seq().len() == 0 ==> cloned(lender.key_seq()[0], seps[t - 1])
                &&& forall|i: int|
                    0 <= i < seps.len() && i != t && !(was.key_seq().len() == 0 && i == t - 1)
                        ==> #[trigger] seps[i] == up.key_seq()[i]
            }
            &&& was is Internal ==> {
                &&& node_with(
                    after.nodes(),
                    right,
                    lender.key_seq().skip(1),
                    lender.child_seq().skip(1),
                )
                &&& node_with(
                    after.nodes(),
                    id,
                    was.key_seq().push(up.key_seq()[t]),
                    was.child_seq().push(lender.child_seq()[0]),
                )
                &&& seps == up.key_seq().update(t, lender.key_seq()[0])
            }
        }),
{
    let s = tree.shape();
    let a = after.shape();
    lemma_neighbours(tree, id, stack, t);
    reveal_with_fuel(Shape::rebalanced, 1);
    let path = stack.push(id);
    let q = stack.last();
    let cs = s.kids(q);
    assert(path.last() == id && path[path.len() - 2] == q);
    let right = cs[t + 1];
    let m = choose|m: Shape<K, V>| #[trigger]
        s.lent_left(m, id, right, q, t) && m.followed(a, path, s.keys(id));
    assert(s.lent_left(m, id, right, q, t) && m.followed(a, path, s.keys(id)));
    assert(m.kids(q) == cs);
    assert(m.pages.contains_key(right) && m.pages.contains_key(id));
    assert(others_kept(tree.nodes(), after.nodes(), right, id, q)) by {
        assert forall|x: PageId| #[trigger]
            tree.nodes().contains_key(x) && x != right && x != id && x
                != q implies after.nodes().contains_key(x) && after.nodes()[x]
            == tree.nodes()[x] by {
            assert(m.pages.contains_key(x));
        }
    }
}

/// A page whose neighbours have no key to spare is merged into the left one, or, as the first child,
/// takes in the right one; an internal node with the separator between them. The right one of the two
/// goes away, and their parent loses it and the separator. This is all if the parent keeps enough keys.
pub proof fn law_mended_by_merge<K: Ord + Clone, V>(
    tree: BPlusTree<K, V>,
    after: BPlusTree<K, V>,
    id: PageId,
    stack: Seq<PageId>,
    t: int,
)
    requires
        short_child(tree, id, stack, t),
        tree.mended(&after, id, stack),
        ({
            let up = tree.nodes()[stack.last()];
            let cs = up.child_seq();
            let min = fewest(tree.max_keys());
            &&& t > 0 ==> tree.nodes()[cs[t - 1]].key_seq().len() <= min
            &&& t + 1 < cs.len() ==> tree.nodes()[cs[t + 1]].key_seq().len() <= min
            &&& up.key_seq().len() > (if stack.len() == 1 {
                1
            } else {
                min
            })
        }),
    ensures
        ({
            let q = stack.last();
            let up = tree.nodes()[q];
            let j = if t > 0 {
                t - 1
            } else {
                0
            };
            let a = up.child_seq()[j];
            let b = up.child_seq()[j + 1];
            let left = tree.nodes()[a];
            let right = tree.nodes()[b];
            &&& after.root_page() == tree.root_page()
            &&& others_kept(tree.nodes(), after.nodes(), a, b, q)
            &&& !after.nodes().contains_key(b)
            &&& node_with(after.nodes(), q, up.key_seq().remove(j), up.child_seq().remove(j + 1))
            &&& left is Leaf ==> leaf_with(
                after.nodes(),
                a,
                left.key_seq() + right.key_seq(),
                left.value_seq() + right.value_seq(),
                right->next,
            )
            &&& left is Internal ==> node_with(
                after.nodes(),
                a,
                left.key_seq().push(up.key_seq()[j]) + right.key_seq(),
                left.child_seq() + right.child_seq(),
            )
        }),
{
    let s = tree.shape();
    let after_s = after.shape();
    let min = fewest(tree.max_keys());
    lemma_neighbours(tree, id, stack, t);
    reveal_with_fuel(Shape::rebalanced, 1);
    let path = stack.push(id);
    let q = stack.last();
    assert(path.last() == id && path[path.len() - 2] == q);
    assert(path.drop_last() =~= stack);
    assert(s.kids(q)[t] == id);
    let m = choose|m: Shape<K, V>| #[trigger]
        s.joined(m, q, t) && m.settled(after_s, min, path.drop_last());
    assert(s.joined(m, q, t) && m.settled(after_s, min, path.drop_last()));
    m.lemma_settled(after_s, min, stack);
    assert(m.keys(q).len() == s.keys(q).len() - 1);
    assert(m.unchanged(after_s));
}

} // verus!
