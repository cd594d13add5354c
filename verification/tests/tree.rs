use bwtree::btree::BTree;
use bwtree::error::Error;
use bwtree::pagestore::PageStore;
use bwtree::Options;

fn k(s: &str) -> Vec<u8> {
    s.as_bytes().to_vec()
}

#[test]
fn empty_tree_first_put() {
    let mut tree = BTree::open(Options::new()).unwrap();
    let g = tree.pin();
    tree.put(&k("a"), 1, &k("x"), &g).unwrap();
    assert_eq!(tree.get(&k("a"), 1, &g).unwrap(), Some(k("x")));
    assert_eq!(tree.get(&k("a"), 0, &g).unwrap(), None);
    tree.unpin(g);
}

#[test]
fn overwrite_keeps_history() {
    let mut tree = BTree::open(Options::new()).unwrap();
    let g = tree.pin();
    tree.put(&k("a"), 1, &k("x"), &g).unwrap();
    tree.put(&k("a"), 2, &k("y"), &g).unwrap();
    assert_eq!(tree.get(&k("a"), 2, &g).unwrap(), Some(k("y")));
    assert_eq!(tree.get(&k("a"), 1, &g).unwrap(), Some(k("x")));
    tree.unpin(g);
}

#[test]
fn tombstone_shadows_put() {
    let mut tree = BTree::open(Options::new()).unwrap();
    let g = tree.pin();
    tree.put(&k("a"), 1, &k("x"), &g).unwrap();
    tree.delete(&k("a"), 2, &g).unwrap();
    assert_eq!(tree.get(&k("a"), 2, &g).unwrap(), None);
    assert_eq!(tree.get(&k("a"), 1, &g).unwrap(), Some(k("x")));
    tree.unpin(g);
}

#[test]
fn forced_consolidation() {
    let opts = Options { data_delta_length: 4, data_node_size: 4096, index_node_size: 4096 };
    let mut tree = BTree::open(opts).unwrap();
    let g = tree.pin();
    let keys = ["a", "b", "c", "d", "e", "f"];
    for (i, name) in keys.iter().enumerate() {
        tree.put(&k(name), (i + 1) as u64, &k("v"), &g).unwrap();
        let pid = tree.route_of(&k(name));
        if i + 1 == 4 {
            // The fourth install pushed the chain past the limit and a
            // consolidation collapsed it to a single base page.
            assert_eq!(tree.node_chain_len(pid), 1);
        }
    }
    for (i, name) in keys.iter().enumerate() {
        assert_eq!(tree.get(&k(name), 10, &g).unwrap(), Some(k("v")), "key {}", i);
    }
    tree.unpin(g);
}

#[test]
fn reads_at_mixed_lsn() {
    let mut tree = BTree::open(Options::new()).unwrap();
    let g = tree.pin();
    tree.put(&k("k1"), 1, &k("a"), &g).unwrap();
    tree.put(&k("k2"), 2, &k("b"), &g).unwrap();
    tree.delete(&k("k1"), 3, &g).unwrap();
    tree.put(&k("k1"), 4, &k("c"), &g).unwrap();
    assert_eq!(tree.get(&k("k1"), 2, &g).unwrap(), Some(k("a")));
    assert_eq!(tree.get(&k("k1"), 3, &g).unwrap(), None);
    assert_eq!(tree.get(&k("k1"), 9, &g).unwrap(), Some(k("c")));
    assert_eq!(tree.get(&k("k2"), 9, &g).unwrap(), Some(k("b")));
    assert_eq!(tree.get(&k("k3"), 9, &g).unwrap(), None);
    tree.unpin(g);
}

#[test]
fn reconcile_finds_nothing_pending() {
    let mut tree = BTree::open(Options::new()).unwrap();
    let g = tree.pin();
    tree.put(&k("a"), 1, &k("x"), &g).unwrap();
    let pid = tree.route_of(&k("a"));
    assert!(tree.try_reconcile_node(pid).is_ok());
    assert!(tree.try_consolidate_node(pid).is_ok());
    assert_eq!(tree.node_chain_len(pid), 1);
    assert_eq!(tree.get(&k("a"), 1, &g).unwrap(), Some(k("x")));
    tree.unpin(g);
}

#[test]
fn store_facade_holds_nothing() {
    let opts = Options::new();
    let mut store = PageStore::open(&opts).unwrap();
    assert!(store.page_info(3).is_none());
    assert!(matches!(store.load_page(3), Err(Error::Io)));
    let a = store.acquire_page();
    let b = store.acquire_page();
    assert_ne!(a, b);
    store.release_page(a);
}

#[test]
fn leaf_split_partitions_key_space() {
    // A byte threshold tuned low enough that a handful of keys crosses it.
    let opts = Options { data_delta_length: 8, data_node_size: 8, index_node_size: 4096 };
    let mut tree = BTree::open(opts).unwrap();
    let g = tree.pin();
    let names = ["a", "b", "c", "d", "e", "f"];
    for (i, name) in names.iter().enumerate() {
        tree.put(&k(name), (i + 1) as u64, &k(name), &g).unwrap();
    }
    let left_before = tree.route_of(&k("a"));
    assert_eq!(tree.route_of(&k("f")), left_before);
    tree.try_split_node(left_before).unwrap();
    // Two leaves with contiguous, disjoint ranges: low keys keep the old
    // node, high keys route to the sibling, and the boundary is clean.
    let left = tree.route_of(&k("a"));
    let right = tree.route_of(&k("f"));
    assert_eq!(left, left_before);
    assert_ne!(left, right);
    let mut seen_right = false;
    for name in names.iter() {
        let pid = tree.route_of(&k(name));
        if pid == right {
            seen_right = true;
        } else {
            assert_eq!(pid, left);
            assert!(!seen_right, "ranges must be contiguous");
        }
    }
    assert!(seen_right);
    // Every key still reads its value through the updated root.
    for name in names.iter() {
        assert_eq!(tree.get(&k(name), 10, &g).unwrap(), Some(k(name)));
    }
    // The reader that pinned before the split still sees its key.
    assert_eq!(tree.get(&k("a"), 10, &g).unwrap(), Some(k("a")));
    tree.unpin(g);
}

#[test]
fn split_of_tiny_leaf_is_a_no_op() {
    let mut tree = BTree::open(Options::new()).unwrap();
    let g = tree.pin();
    tree.put(&k("only"), 1, &k("v"), &g).unwrap();
    let pid = tree.route_of(&k("only"));
    tree.try_split_node(pid).unwrap();
    assert_eq!(tree.route_of(&k("only")), pid);
    assert_eq!(tree.get(&k("only"), 1, &g).unwrap(), Some(k("v")));
    tree.unpin(g);
}
