use libnucleus::bptree::{Iter, TreeError};
use libnucleus::range::KeyRange;
use libnucleus::BPlusTree;
use std::cell::RefCell;
use std::collections::BTreeMap;
use std::ops::Bound;
use std::rc::Rc;
use std::sync::Arc;

fn drain<K: Ord + Clone, V: Clone>(mut it: Iter<'_, K, V>) -> Vec<(K, V)> {
    let mut out = vec![];
    while let Some((k, v)) = it.next() {
        out.push((k.clone(), v.clone()));
    }
    // Once it has ended, it stays at the end.
    assert!(it.next().is_none());
    out
}

fn keys_in<R: KeyRange<i32>>(t: &BPlusTree<i32, i32>, bounds: R) -> Vec<i32> {
    drain(t.range(bounds)).into_iter().map(|(k, _)| k).collect()
}

fn filled(max_keys: usize, keys: &[i32]) -> BPlusTree<i32, i32> {
    let mut t = BPlusTree::new(max_keys);
    for k in keys {
        t.insert(*k, *k * 10).unwrap();
    }
    t
}

#[test]
fn insert_get_delete_of_strings() {
    let mut tree = BPlusTree::new(4);
    tree.insert(1, "one".to_string()).unwrap();
    tree.insert(2, "two".to_string()).unwrap();
    assert_eq!(tree.get(&1).unwrap(), Some(&"one".to_string()));
    assert_eq!(tree.delete(1).unwrap(), true);
    assert!(tree.get(&1).unwrap().is_none());
    assert_eq!(tree.get(&2).unwrap(), Some(&"two".to_string()));
}

#[test]
fn string_keys() -> Result<(), TreeError> {
    let mut t: BPlusTree<String, i32> = BPlusTree::new(2);
    for (i, w) in ["pear", "fig", "apple", "quince", "date"].iter().enumerate() {
        t.insert(w.to_string(), i as i32)?;
    }
    let got: Vec<String> = drain(t.iter()).into_iter().map(|(k, _)| k).collect();
    assert_eq!(got, vec!["apple", "date", "fig", "pear", "quince"]);
    assert_eq!(t.get(&"fig".to_string())?, Some(&1));
    assert!(t.delete("fig".to_string())?);
    assert_eq!(t.get(&"fig".to_string())?, None);
    Ok(())
}

#[test]
fn new_tree_is_empty() {
    let tree: BPlusTree<i32, String> = BPlusTree::new(4);
    assert!(tree.is_empty());
    let mut tree: BPlusTree<i32, i32> = BPlusTree::new(3);
    assert!(tree.is_empty());
    tree.insert(1, 1).unwrap();
    assert!(!tree.is_empty());
}

#[test]
fn fewest_keys_of_a_node() {
    for (max_keys, min_keys) in [(2, 1), (3, 1), (4, 2), (5, 2), (6, 3), (101, 50)] {
        let tree: BPlusTree<i32, i32> = BPlusTree::new(max_keys);
        assert_eq!(tree.min_keys(), min_keys);
        // A node one key short, a minimal sibling and a separator fit into one node.
        assert!((min_keys - 1) + min_keys + 1 <= max_keys);
    }
}

#[test]
fn get_on_absent_keys() -> Result<(), TreeError> {
    let mut tree: BPlusTree<i32, i32> = BPlusTree::new(4);
    assert_eq!(tree.get(&7)?, None);
    tree.insert(7, 70)?;
    assert_eq!(tree.get(&7)?, Some(&70));
    assert_eq!(tree.get(&99)?, None);
    assert_eq!(tree.get(&-1)?, None);
    Ok(())
}

#[test]
fn insert_overwrites() -> Result<(), TreeError> {
    let mut tree: BPlusTree<i32, i32> = BPlusTree::new(3);
    tree.insert(1, 10)?;
    tree.insert(1, 11)?;
    assert_eq!(tree.get(&1)?, Some(&11));
    assert_eq!(drain(tree.iter()), vec![(1, 11)]);
    Ok(())
}

#[test]
fn insert_elsewhere_leaves_a_key_alone() -> Result<(), TreeError> {
    let mut t = filled(2, &[1, 2, 3, 4, 5]);
    for k in [0, 6, 7, 8, -5] {
        t.insert(k, 1)?;
        for r in 1..=5 {
            assert_eq!(t.get(&r)?, Some(&(r * 10)));
        }
    }
    Ok(())
}

#[test]
fn insert_then_delete_leaves_no_trace() -> Result<(), TreeError> {
    for max_keys in 2..=5 {
        let mut t = filled(max_keys, &[1, 3, 5, 7, 9, 11, 13]);
        let before = drain(t.iter());
        for k in [0, 2, 4, 6, 8, 10, 12, 14] {
            t.insert(k, 0)?;
            assert!(t.delete(k)?);
            assert_eq!(drain(t.iter()), before);
        }
    }
    Ok(())
}

#[test]
fn delete_reports_whether_the_key_was_there() -> Result<(), TreeError> {
    let mut tree: BPlusTree<i32, i32> = BPlusTree::new(3);
    tree.insert(1, 10)?;
    tree.insert(2, 20)?;
    assert_eq!(tree.delete(1)?, true);
    assert_eq!(tree.get(&1)?, None);
    assert_eq!(tree.delete(99)?, false);
    assert_eq!(tree.delete(1)?, false);
    assert_eq!(drain(tree.iter()), vec![(2, 20)]);
    Ok(())
}

#[test]
fn splits_keep_the_last_key() -> Result<(), TreeError> {
    for n in [3, 5, 8] {
        let mut tree: BPlusTree<i32, i32> = BPlusTree::new(2);
        for k in 1..=n {
            tree.insert(k, k)?;
        }
        assert_eq!(tree.get(&n)?, Some(&n));
        assert_eq!(drain(tree.iter()).len(), n as usize);
    }
    Ok(())
}

#[test]
fn delete_last_then_others() -> Result<(), TreeError> {
    let mut tree = filled(3, &[1, 2, 3, 4]);
    assert!(tree.delete(4)?);
    assert_eq!(tree.get(&4)?, None);
    tree.delete(3)?;
    tree.delete(2)?;
    assert_eq!(tree.get(&1)?, Some(&10));
    Ok(())
}

#[test]
fn deletes_of_many_shapes() -> Result<(), TreeError> {
    // The first number is how many keys are inserted; the range is what is deleted; the last number
    // must stay.
    let cases: Vec<(i32, i32, i32, i32)> = vec![
        (6, 2, 2, 3),
        (6, 1, 1, 2),
        (4, 1, 3, 4),
        (12, 1, 6, 7),
        (12, 1, 8, 9),
        (12, 10, 12, 1),
        (12, 1, 10, 11),
        (12, 5, 12, 1),
    ];
    for (n, from, to, stays) in cases {
        let mut tree: BPlusTree<i32, i32> = BPlusTree::new(3);
        for k in 1..=n {
            tree.insert(k, k)?;
        }
        for k in from..=to {
            assert!(tree.delete(k)?);
        }
        assert_eq!(tree.get(&stays)?, Some(&stays));
        let want: Vec<i32> = (1..=n).filter(|k| *k < from || *k > to).collect();
        let got: Vec<i32> = drain(tree.iter()).into_iter().map(|(k, _)| k).collect();
        assert_eq!(got, want);
    }
    Ok(())
}

#[test]
fn emptied_tree_can_be_filled_again() -> Result<(), TreeError> {
    let mut tree: BPlusTree<i32, i32> = BPlusTree::new(3);
    for round in 0..3 {
        for k in 1..=8 {
            tree.insert(k, k + round)?;
        }
        for k in 1..=8 {
            assert_eq!(tree.get(&k)?, Some(&(k + round)));
            tree.delete(k)?;
        }
        assert!(tree.is_empty());
        assert_eq!(drain(tree.iter()), vec![]);
    }
    Ok(())
}

#[test]
fn iter_of_three() {
    let tree = filled(3, &[3, 1, 2]);
    assert_eq!(drain(tree.iter()), vec![(1, 10), (2, 20), (3, 30)]);
}

#[test]
fn yielded_references_outlive_the_iterator() {
    let tree = filled(2, &[1, 2, 3]);
    let first = {
        let mut it = tree.iter();
        it.next()
    };
    assert_eq!(first, Some((&1, &10)));
}

#[test]
fn two_iterators_do_not_disturb_each_other() {
    let tree = filled(2, &[1, 2, 3]);
    let mut a = tree.iter();
    let mut b = tree.range(2..);
    assert_eq!(a.next(), Some((&1, &10)));
    assert_eq!(b.next(), Some((&2, &20)));
    assert_eq!(a.next(), Some((&2, &20)));
    assert_eq!(b.next(), Some((&3, &30)));
    assert_eq!(b.next(), None);
    assert_eq!(a.next(), Some((&3, &30)));
    assert_eq!(a.next(), None);
}

#[test]
fn range_yields_keys_and_values() {
    let tree = filled(3, &[1, 2, 3, 4, 5, 6]);
    assert_eq!(drain(tree.range(2..=4)), vec![(2, 20), (3, 30), (4, 40)]);
    let all: Vec<i32> = keys_in(&tree, ..);
    assert_eq!(all, vec![1, 2, 3, 4, 5, 6]);
}

#[test]
fn range_forms() {
    let t = filled(2, &[10, 20, 30, 40, 50]);
    assert_eq!(keys_in(&t, 20..40), vec![20, 30]);
    assert_eq!(keys_in(&t, 20..=40), vec![20, 30, 40]);
    assert_eq!(keys_in(&t, 15..45), vec![20, 30, 40]);
    assert_eq!(keys_in(&t, 15..=45), vec![20, 30, 40]);
    assert_eq!(keys_in(&t, 30..), vec![30, 40, 50]);
    assert_eq!(keys_in(&t, 31..), vec![40, 50]);
    assert_eq!(keys_in(&t, ..30), vec![10, 20]);
    assert_eq!(keys_in(&t, ..=30), vec![10, 20, 30]);
    assert_eq!(keys_in(&t, ..), vec![10, 20, 30, 40, 50]);
    assert_eq!(keys_in(&t, (Bound::Excluded(20), Bound::Included(40))), vec![30, 40]);
    assert_eq!(keys_in(&t, (Bound::Excluded(25), Bound::Excluded(40))), vec![30]);
    assert_eq!(keys_in(&t, (Bound::Unbounded, Bound::Excluded(10))), vec![]);
    assert_eq!(keys_in(&t, (Bound::Excluded(50), Bound::Unbounded)), vec![]);
}

#[test]
fn range_of_borrowed_bounds() {
    let t = filled(2, &[10, 20, 30, 40, 50]);
    assert_eq!(keys_in(&t, &20..&40), vec![20, 30]);
    assert_eq!(keys_in(&t, &20..=&40), vec![20, 30, 40]);
    assert_eq!(keys_in(&t, &40..=&20), vec![]);
    assert_eq!(keys_in(&t, &30..), vec![30, 40, 50]);
    assert_eq!(keys_in(&t, ..&30), vec![10, 20]);
    assert_eq!(keys_in(&t, ..=&30), vec![10, 20, 30]);
    assert_eq!(
        keys_in(&t, (Bound::Excluded(&20), Bound::Unbounded)),
        vec![30, 40, 50]
    );
}

#[test]
fn ranges_that_match_nothing() {
    let t = filled(2, &[10, 20, 30]);
    assert_eq!(keys_in(&t, 20..20), vec![]);
    assert_eq!(keys_in(&t, 30..10), vec![]);
    assert_eq!(keys_in(&t, 30..=10), vec![]);
    assert_eq!(keys_in(&t, 11..=19), vec![]);
    assert_eq!(keys_in(&t, 20..=20), vec![20]);
    assert_eq!(keys_in(&t, 31..), vec![]);
    assert_eq!(keys_in(&t, ..10), vec![]);
    let empty: BPlusTree<i32, i32> = BPlusTree::new(2);
    assert_eq!(keys_in(&empty, ..), vec![]);
    assert_eq!(keys_in(&empty, 1..), vec![]);
    assert_eq!(keys_in(&empty, ..=1), vec![]);
}

#[test]
fn inclusive_range_that_was_used_up_covers_nothing() {
    let t = filled(2, &[1, 2, 3, 4]);
    let mut used = 2..=3;
    assert_eq!(used.next(), Some(2));
    assert_eq!(keys_in(&t, used.clone()), vec![3]);
    assert_eq!(used.next(), Some(3));
    assert_eq!(used.next(), None);
    assert_eq!(keys_in(&t, used), vec![]);
}

#[test]
fn two_half_ranges_make_up_the_whole() {
    for max_keys in 2..=4 {
        let t = filled(max_keys, &[2, 4, 6, 8, 10, 12]);
        for k in 0..=13 {
            let mut got = keys_in(&t, ..k);
            got.extend(keys_in(&t, k..));
            assert_eq!(got, vec![2, 4, 6, 8, 10, 12]);
        }
    }
}

#[test]
fn agrees_with_a_sorted_map() -> Result<(), TreeError> {
    for max_keys in 2..=7 {
        let mut t: BPlusTree<u32, u32> = BPlusTree::new(max_keys);
        let mut model: BTreeMap<u32, u32> = BTreeMap::new();
        let mut seed: u32 = 12345 + max_keys as u32;
        for step in 0..3000u32 {
            seed = seed.wrapping_mul(1664525).wrapping_add(1013904223);
            let key = (seed >> 16) % 97;
            // The first half grows the tree, the second half shrinks it.
            let grow = (seed >> 8) % 8 < if step < 1500 { 5 } else { 3 };
            if grow {
                t.insert(key, step)?;
                model.insert(key, step);
            } else {
                assert_eq!(t.delete(&key)?, model.remove(&key).is_some());
            }
            assert_eq!(t.get(&key)?, model.get(&key));
            assert_eq!(t.is_empty(), model.is_empty());
            if step % 50 == 0 {
                let want: Vec<(u32, u32)> = model.iter().map(|(k, v)| (*k, *v)).collect();
                assert_eq!(drain(t.iter()), want);
                let some: Vec<(u32, u32)> =
                    model.range(20..key + 20).map(|(k, v)| (*k, *v)).collect();
                assert_eq!(drain(t.range(20..key + 20)), some);
            }
        }
        for key in 0..97 {
            assert_eq!(t.delete(key)?, model.remove(&key).is_some());
        }
        assert!(t.is_empty());
    }
    Ok(())
}

#[test]
fn an_emptied_leaf_borrows_from_its_right() -> Result<(), TreeError> {
    // With at most two keys per node the leaf of 2 is emptied and borrows 3 from its right.
    let mut t = filled(2, &[1, 2, 3, 4]);
    assert!(t.delete(2)?);
    assert_eq!(drain(t.iter()), vec![(1, 10), (3, 30), (4, 40)]);
    t.insert(2, 21)?;
    assert_eq!(drain(t.iter()), vec![(1, 10), (2, 21), (3, 30), (4, 40)]);
    Ok(())
}

/// A key that notes down which keys it is compared with.
#[derive(Clone)]
struct Watched {
    rank: i32,
    met: Rc<RefCell<Vec<i32>>>,
}

impl PartialEq for Watched {
    fn eq(&self, other: &Self) -> bool {
        self.rank == other.rank
    }
}

impl Eq for Watched {}

impl PartialOrd for Watched {
    fn partial_cmp(&self, other: &Self) -> Option<std::cmp::Ordering> {
        Some(self.cmp(other))
    }
}

impl Ord for Watched {
    fn cmp(&self, other: &Self) -> std::cmp::Ordering {
        self.met.borrow_mut().push(other.rank);
        other.met.borrow_mut().push(self.rank);
        self.rank.cmp(&other.rank)
    }
}

fn watched(rank: i32) -> Watched {
    Watched {
        rank,
        met: Rc::new(RefCell::new(vec![])),
    }
}

/// The keys that a lookup of `rank` meets on its way, in ascending order.
fn met_by(t: &BPlusTree<Watched, i32>, rank: i32) -> Result<Vec<i32>, TreeError> {
    let key = watched(rank);
    t.get(&key)?;
    let mut met = key.met.borrow().clone();
    met.sort();
    met.dedup();
    Ok(met)
}

#[test]
fn the_separator_of_an_emptied_leaf_follows_its_new_first_key() -> Result<(), TreeError> {
    let mut t: BPlusTree<Watched, i32> = BPlusTree::new(3);
    for k in 1..=6 {
        t.insert(watched(k), k)?;
    }
    // Leaves [1], [3] and [5, 6] with the separators 3 and 5.
    assert!(t.delete(watched(4))?);
    assert!(t.delete(watched(2))?);
    assert_eq!(met_by(&t, 1)?, vec![1, 3, 5]);
    // The leaf of 3 borrows 5: leaves [1], [5] and [6] with the separators 5 and 6.
    assert!(t.delete(watched(3))?);
    assert_eq!(met_by(&t, 1)?, vec![1, 5, 6]);
    assert_eq!(met_by(&t, 3)?, vec![1, 5, 6]);
    assert_eq!(met_by(&t, 5)?, vec![5, 6]);
    Ok(())
}

#[test]
fn lookups_below_one_root_meet_only_keys_that_are_there() -> Result<(), TreeError> {
    // So few keys that all leaves have the root for their parent.
    for (max_keys, ranks) in [(2, 3), (3, 4), (5, 12), (12, 61)] {
        let mut t: BPlusTree<Watched, i32> = BPlusTree::new(max_keys);
        let mut model: BTreeMap<i32, i32> = BTreeMap::new();
        let mut seed: u32 = 99 + max_keys as u32;
        for step in 0..1200 {
            seed = seed.wrapping_mul(1664525).wrapping_add(1013904223);
            let rank = ((seed >> 16) % ranks) as i32;
            if (seed >> 8) % 8 < if step < 600 { 5 } else { 3 } {
                t.insert(watched(rank), step)?;
                model.insert(rank, step);
            } else {
                assert_eq!(t.delete(watched(rank))?, model.remove(&rank).is_some());
            }
            for sought in [0, rank, 2, 30, 60] {
                for met in met_by(&t, sought)? {
                    assert!(model.contains_key(&met));
                }
            }
        }
    }
    Ok(())
}

#[test]
fn a_delete_repairs_the_separator_of_the_direct_parent() -> Result<(), TreeError> {
    let mut t: BPlusTree<Watched, i32> = BPlusTree::new(3);
    for k in 1..=10 {
        t.insert(watched(k), k)?;
    }
    // The root has the separator 7, its right child the separator 9 and the leaves [7, 8], [9, 10].
    assert_eq!(met_by(&t, 10)?, vec![7, 9, 10]);
    assert!(t.delete(watched(9))?);
    assert_eq!(met_by(&t, 10)?, vec![7, 10]);
    // The leaf of 7 is a first child: the separator to its left stands in the root, and stays.
    assert!(t.delete(watched(7))?);
    assert_eq!(met_by(&t, 8)?, vec![7, 8, 10]);
    assert_eq!(t.get(&watched(7))?, None);
    t.insert(watched(7), 70)?;
    assert_eq!(t.get(&watched(7))?, Some(&70));
    Ok(())
}

#[test]
fn inserts_keep_the_separators_aligned() -> Result<(), TreeError> {
    for max_keys in 2..=5 {
        let mut t: BPlusTree<Watched, i32> = BPlusTree::new(max_keys);
        for step in 0..60 {
            t.insert(watched((step * 37) % 61), step)?;
            for sought in 0..61 {
                for met in met_by(&t, sought)? {
                    assert!(t.get(&watched(met))?.is_some());
                }
            }
        }
    }
    Ok(())
}

#[test]
fn keys_are_found_by_what_they_hold() -> Result<(), TreeError> {
    let mut lists: BPlusTree<Vec<u8>, i32> = BPlusTree::new(3);
    let mut boxes: BPlusTree<Box<i32>, i32> = BPlusTree::new(3);
    let mut counted: BPlusTree<Rc<i32>, i32> = BPlusTree::new(3);
    let mut shared: BPlusTree<Arc<i32>, i32> = BPlusTree::new(3);
    for i in 1..=9 {
        lists.insert(vec![i as u8, 0], i)?;
        boxes.insert(Box::new(i), i)?;
        counted.insert(Rc::new(i), i)?;
        shared.insert(Arc::new(i), i)?;
    }
    let wanted: &[u8] = &[4, 0];
    let other: &[u8] = &[4];
    assert_eq!(lists.get(wanted)?, Some(&4));
    assert_eq!(lists.get(other)?, None);
    assert_eq!(lists.get(&vec![5, 0])?, Some(&5));
    assert_eq!(boxes.get(&6)?, Some(&6));
    assert_eq!(boxes.get(&Box::new(7))?, Some(&7));
    assert_eq!(boxes.get(&0)?, None);
    assert_eq!(counted.get(&8)?, Some(&8));
    assert_eq!(shared.get(&9)?, Some(&9));
    Ok(())
}

#[test]
fn tree_errors_in_words() {
    let said = [
        (TreeError::UnknownPage, "Invalid Page Id dereference"),
        (TreeError::CorruptInternal(12), "corrupt internal node 12"),
        (TreeError::NoLeafFound, "find_leaf returned a non-leaf node"),
        (TreeError::LeafMissing, "the given node is corrupted"),
        (TreeError::LeafOnly, "Expected a leaf node ONLY"),
        (TreeError::LeafExpected, "Expected a leaf node"),
        (TreeError::PageNotFound, "Given page id not found"),
        (TreeError::SplitOfLeaf(3), "split_internal called on leaf 3"),
        (TreeError::NotAChild(4, 10), "node 4 not a child of 10"),
        (TreeError::NotALeaf(5), "node 5 is not a leaf"),
        (TreeError::NotInternal(6), "node 6 is not internal"),
        (TreeError::ParentNotInternal(7), "parent 7 is not internal"),
        (TreeError::SiblingNotALeaf(8), "sibling 8 is not a leaf"),
        (TreeError::SiblingNotInternal(9), "sibling 9 is not internal"),
        (TreeError::EmptySibling(0), "sibling 0 is empty"),
    ];
    for (error, text) in said {
        assert_eq!(error.message(), text);
    }
}

#[test]
fn string_keys_are_found_by_their_text() -> Result<(), TreeError> {
    let mut t: BPlusTree<String, i32> = BPlusTree::new(3);
    for (i, name) in ["ant", "bee", "cow", "dog", "elk"].iter().enumerate() {
        t.insert(name.to_string(), i as i32)?;
    }
    assert_eq!(t.get("cow")?, Some(&2));
    assert_eq!(t.get(&"elk".to_string())?, Some(&4));
    assert_eq!(t.get("cat")?, None);
    assert!(t.delete(&"cow".to_string())?);
    assert_eq!(t.get("cow")?, None);
    Ok(())
}

#[test]
fn delete_by_pointers_to_a_key() -> Result<(), TreeError> {
    let mut t = filled(3, &[1, 2, 3, 4, 5, 6]);
    let mut two = 2;
    assert!(t.delete(Box::new(1))?);
    assert!(t.delete(&mut two)?);
    assert!(t.delete(Rc::new(3))?);
    assert!(t.delete(Arc::new(4))?);
    assert!(t.delete(&5)?);
    assert_eq!(drain(t.iter()), vec![(6, 60)]);
    Ok(())
}

/// A key whose clones can be told from it, though they compare equal to it.
struct Marked {
    rank: i32,
    copies: u32,
}

impl PartialEq for Marked {
    fn eq(&self, other: &Self) -> bool {
        self.rank == other.rank
    }
}

impl Eq for Marked {}

impl PartialOrd for Marked {
    fn partial_cmp(&self, other: &Self) -> Option<std::cmp::Ordering> {
        Some(self.cmp(other))
    }
}

impl Ord for Marked {
    fn cmp(&self, other: &Self) -> std::cmp::Ordering {
        self.rank.cmp(&other.rank)
    }
}

impl Clone for Marked {
    fn clone(&self) -> Self {
        Marked {
            rank: self.rank,
            copies: self.copies + 1,
        }
    }
}

#[test]
fn a_key_borrowed_from_the_left_is_a_clone() -> Result<(), TreeError> {
    let mut t: BPlusTree<Marked, i32> = BPlusTree::new(3);
    for rank in [1, 4, 5, 6, 2] {
        t.insert(Marked { rank, copies: 0 }, rank)?;
    }
    // Leaves [1, 2, 4] and [5, 6] now lose 5 and 6, so that 4 moves to the right.
    assert!(t.delete(Marked { rank: 5, copies: 0 })?);
    assert!(t.delete(Marked { rank: 6, copies: 0 })?);
    let mut ranks = vec![];
    let mut it = t.iter();
    while let Some((k, v)) = it.next() {
        assert_eq!(k.rank, *v);
        ranks.push((k.rank, k.copies));
    }
    assert_eq!(ranks, vec![(1, 0), (2, 0), (4, 1)]);
    Ok(())
}
