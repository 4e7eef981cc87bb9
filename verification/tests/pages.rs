use libnucleus::pager::PageManager;
use libnucleus::BPlusTreeNode;

fn leaf(key: i32, value: i32) -> BPlusTreeNode<i32, i32> {
    BPlusTreeNode::Leaf {
        next: None,
        keys: vec![key],
        values: vec![value],
    }
}

fn keys_of(node: Option<&BPlusTreeNode<i32, i32>>) -> Vec<i32> {
    match node {
        Some(BPlusTreeNode::Leaf { keys, .. }) => keys.clone(),
        Some(BPlusTreeNode::Internal { keys, .. }) => keys.clone(),
        None => panic!("no such page"),
    }
}

#[test]
fn new_store_is_empty() {
    let store: PageManager<i32, i32> = PageManager::new();
    assert!(store.get(0).is_none());
}

#[test]
fn first_page_is_number_zero() {
    let mut store = PageManager::new();
    let id = store.new_page(leaf(1, 10));
    assert_eq!(id, 0);
    assert!(store.get(0).is_some());
    assert!(store.get(1).is_none());
}

#[test]
fn page_numbers_rise_and_are_never_reused() {
    let mut store = PageManager::new();
    let a = store.new_page(leaf(1, 10));
    let b = store.new_page(leaf(2, 20));
    store.free(b);
    let c = store.new_page(leaf(3, 30));
    store.free(a);
    let d = store.new_page(leaf(4, 40));
    assert_eq!(vec![a, b, c, d], vec![0, 1, 2, 3]);
    assert!(store.get(a).is_none());
    assert!(store.get(b).is_none());
    assert_eq!(keys_of(store.get(c)), vec![3]);
    assert_eq!(keys_of(store.get(d)), vec![4]);
}

#[test]
fn lookup_gives_back_the_stored_node() {
    let mut store = PageManager::new();
    let id = store.new_page(leaf(1, 10));
    assert!(matches!(store.get(id), Some(BPlusTreeNode::Leaf { .. })));
    match store.get(id) {
        Some(BPlusTreeNode::Leaf { next, keys, values }) => {
            assert_eq!(*next, None);
            assert_eq!(*keys, vec![1]);
            assert_eq!(*values, vec![10]);
        }
        _ => panic!("not the leaf that was stored"),
    }
}

#[test]
fn mutable_lookup_changes_one_page() {
    let mut store = PageManager::new();
    let a = store.new_page(leaf(1, 10));
    let b = store.new_page(leaf(5, 50));
    if let Some(BPlusTreeNode::Leaf { keys, .. }) = store.get_mut(a) {
        keys.push(2);
    }
    assert_eq!(keys_of(store.get(a)), vec![1, 2]);
    assert_eq!(keys_of(store.get(b)), vec![5]);
    assert!(store.get_mut(7).is_none());
}

#[test]
fn freed_page_is_gone() {
    let mut store = PageManager::new();
    let a = store.new_page(leaf(1, 10));
    let b = store.new_page(leaf(2, 20));
    store.free(a);
    assert!(store.get(a).is_none());
    assert!(store.get_mut(a).is_none());
    assert_eq!(keys_of(store.get(b)), vec![2]);
    // To free a page that is not there changes nothing.
    store.free(9);
    assert_eq!(keys_of(store.get(b)), vec![2]);
}
