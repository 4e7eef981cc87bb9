use libnucleus::bptree::{Iter, TreeError};
use libnucleus::BPlusTree;

fn collect<K: Ord + Clone, V: Clone>(mut it: Iter<'_, K, V>) -> Vec<(K, V)> {
    let mut out = vec![];
    while let Some((k, v)) = it.next() {
        out.push((k.clone(), v.clone()));
    }
    out
}

fn collect_all<K: Ord + Clone, V: Clone>(t: &BPlusTree<K, V>) -> Vec<K> {
    collect(t.iter()).into_iter().map(|(k, _)| k).collect()
}

fn assert_valid<K: Ord + Clone + std::fmt::Debug, V: Clone>(t: &BPlusTree<K, V>) {
    // The leaf chain must stay strictly sorted.
    let all = collect_all(t);
    for w in all.windows(2) {
        assert!(w[0] < w[1], "leaf chain not strictly sorted: {all:?}");
    }
}

#[test]
fn delete_missing_and_empty() -> Result<(), TreeError> {
    let mut t: BPlusTree<i32, i32> = BPlusTree::new(3);
    assert!(!t.delete(1)?);
    t.insert(1, 10)?;
    assert!(!t.delete(2)?);
    assert!(t.delete(1)?);
    assert!(t.get(&1)?.is_none());
    Ok(())
}

#[test]
fn delete_borrow_and_merge() -> Result<(), TreeError> {
    let mut t = BPlusTree::new(3);
    for k in 1..=12 {
        t.insert(k, k * 10)?;
    }
    assert_valid(&t);
    // Deleting the first half forces borrows, merges, and separator fixes.
    for k in 1..=6 {
        assert!(t.delete(k)?, "missing {k}");
        assert!(t.get(&k)?.is_none());
        assert_valid(&t);
    }
    assert_eq!(collect_all(&t), vec![7, 8, 9, 10, 11, 12]);
    // Deleting the rest empties the tree and clears the root.
    for k in 7..=12 {
        assert!(t.delete(k)?);
        assert_valid(&t);
    }
    assert!(t.is_empty());
    // The emptied tree accepts inserts again.
    t.insert(42, 1)?;
    assert_eq!(t.get(&42)?, Some(&1));
    Ok(())
}

#[test]
fn delete_shrink_height() -> Result<(), TreeError> {
    let mut t = BPlusTree::new(4);
    for k in 0..30 {
        t.insert(k, k)?;
    }
    for k in 0..30 {
        t.delete(k)?;
        assert_valid(&t);
        for r in (k + 1)..30 {
            assert_eq!(t.get(&r)?, Some(&r), "lost {r} after deleting {k}");
        }
    }
    assert!(t.is_empty());
    Ok(())
}

#[test]
fn iter_yields_sorted_order_across_leaves() -> Result<(), TreeError> {
    let mut t = BPlusTree::new(3);
    // Shuffled insert forces several splits and a multi leaf chain.
    for k in [9, 1, 5, 3, 7, 11, 2, 8, 4, 6, 10, 0] {
        t.insert(k, k * 10)?;
    }
    let got: Vec<_> = collect(t.iter());
    let want: Vec<_> = (0..12).map(|k| (k, k * 10)).collect();
    assert_eq!(got, want);
    Ok(())
}

#[test]
fn iter_empty_and_after_delete() -> Result<(), TreeError> {
    let mut t: BPlusTree<i32, i32> = BPlusTree::new(3);
    assert_eq!(collect(t.iter()).len(), 0);
    for k in 1..=8 {
        t.insert(k, k)?;
    }
    // Merges stitch the `next` chain; iteration must skip freed pages.
    for k in [2, 4, 6, 8] {
        t.delete(k)?;
    }
    let keys: Vec<_> = collect_all(&t);
    assert_eq!(keys, vec![1, 3, 5, 7]);
    Ok(())
}

#[test]
fn range_bounds() -> Result<(), TreeError> {
    let mut t = BPlusTree::new(3);
    for k in 1..=6 {
        t.insert(k, k * 10)?;
    }
    let keys = |it: Iter<'_, i32, i32>| {
        collect(it)
            .into_iter()
            .map(|(k, _)| k)
            .collect::<Vec<_>>()
    };
    assert_eq!(keys(t.range(2..=4)), vec![2, 3, 4]);
    assert_eq!(keys(t.range(2..4)), vec![2, 3]);
    assert_eq!(keys(t.range(4..)), vec![4, 5, 6]);
    assert_eq!(keys(t.range(..3)), vec![1, 2]);
    assert_eq!(keys(t.range(..)), vec![1, 2, 3, 4, 5, 6]);
    assert!(keys(t.range(10..20)).is_empty());
    assert!(keys(t.range(4..2)).is_empty());
    Ok(())
}

#[test]
fn delete_both_owned_and_ref_forms() -> Result<(), TreeError> {
    let mut t = BPlusTree::new(3);
    t.insert(5, 50)?;
    assert!(t.delete(&5)?);
    t.insert(6, 60)?;
    assert!(t.delete(6)?);
    Ok(())
}
