use radix_tree::node::Node;
use radix_tree::tree::Tree;

/// Checks the structural invariant on a subtree: edges strictly sorted by
/// label, each child's prefix non-empty and starting with its edge label,
/// and every non-root node holding a leaf or at least two edges.
fn check_structure<V>(node: &Node<V>, is_root: bool) {
    if !is_root {
        assert!(
            node.leaf.is_some() || node.edges.len() >= 2,
            "non-root internal node with fewer than two edges and no leaf"
        );
        assert!(!node.prefix.is_empty(), "non-root node with empty prefix");
    }
    for i in 0..node.edges.len() {
        if i + 1 < node.edges.len() {
            assert!(
                node.edges[i].label < node.edges[i + 1].label,
                "edges out of order"
            );
        }
        let child = &node.edges[i].node;
        assert_eq!(child.prefix[0], node.edges[i].label, "label mismatch");
        check_structure(child, false);
    }
}

#[test]
fn test_round_trip() {
    // inserting (k, v) then reading k returns v, for a spread of keys
    // including the empty key
    let keys: Vec<&[u8]> = vec![b"", b"a", b"ab", b"abc", b"b", b"ba", b"xyz"];
    let mut tree = Tree::<u32>::new();
    for (i, key) in keys.iter().enumerate() {
        let (new_tree, _) = tree.insert(key, i as u32);
        tree = new_tree;
        assert_eq!(tree.get(key), Some(i as u32));
    }
    // still all present afterwards
    for (i, key) in keys.iter().enumerate() {
        assert_eq!(tree.get(key), Some(i as u32));
    }
}

#[test]
fn test_update_semantics() {
    let tree = Tree::<u32>::new();
    let (tree, old) = tree.insert(b"key", 1);
    assert_eq!(old, None, "first insert finds nothing");
    assert_eq!(tree.len(), 1);

    let (tree, old) = tree.insert(b"key", 2);
    assert_eq!(old, Some(1), "update returns the previous value");
    assert_eq!(tree.len(), 1, "update does not change the key count");

    let (tree, old) = tree.insert(b"other", 3);
    assert_eq!(old, None, "new key finds nothing");
    assert_eq!(tree.len(), 2, "new key grows the count by one");
}

#[test]
fn test_delete_semantics() {
    let tree = Tree::<u32>::new();
    let (tree, _) = tree.insert(b"key", 7);
    let (tree, _) = tree.insert(b"key2", 8);
    assert_eq!(tree.len(), 2);

    let (tree, old) = tree.delete(b"key");
    assert_eq!(old, Some(7), "delete returns the removed value");
    assert_eq!(tree.len(), 1, "delete shrinks the count by one");

    let (tree, old) = tree.delete(b"key");
    assert_eq!(old, None, "a second delete finds nothing");
    assert_eq!(tree.len(), 1, "a second delete changes nothing");
}

#[test]
fn test_prefix_deletion_exact() {
    let keys: Vec<&[u8]> = vec![b"a", b"ab", b"abc", b"b", b"bc"];
    let mut tree = Tree::<u32>::new();
    for (i, key) in keys.iter().enumerate() {
        let (new_tree, _) = tree.insert(key, i as u32);
        tree = new_tree;
    }

    // removes exactly the keys below "ab" and nothing else
    let (tree, deleted) = tree.delete_prefix(b"ab");
    assert!(deleted);
    assert_eq!(tree.len(), 3);
    assert_eq!(tree.get(b"a"), Some(0));
    assert_eq!(tree.get(b"ab"), None);
    assert_eq!(tree.get(b"abc"), None);
    assert_eq!(tree.get(b"b"), Some(3));
    assert_eq!(tree.get(b"bc"), Some(4));

    // a prefix below no stored key deletes nothing and reports false
    let (tree, deleted) = tree.delete_prefix(b"zz");
    assert!(!deleted);
    assert_eq!(tree.len(), 3);
    assert_eq!(tree.get(b"a"), Some(0));
    assert_eq!(tree.get(b"b"), Some(3));
    assert_eq!(tree.get(b"bc"), Some(4));
}

#[test]
fn test_structural_invariant() {
    // after an arbitrary mix of inserts, deletes, prefix deletions and
    // commits, no non-root internal node has exactly one edge and no leaf
    let mut tree = Tree::<u32>::new();
    let keys: Vec<&[u8]> = vec![
        b"", b"romane", b"romanus", b"romulus", b"rubens", b"ruber", b"rubicon", b"rubicundus",
        b"r", b"ro",
    ];
    for (i, key) in keys.iter().enumerate() {
        let (new_tree, _) = tree.insert(key, i as u32);
        tree = new_tree;
        check_structure(&tree.root(), true);
    }
    let mut txn = tree.start_transaction();
    txn.delete(b"romane");
    txn.delete(b"rubicon");
    txn.delete(b"r");
    txn.delete_prefix(b"romu");
    let tree = txn.commit();
    check_structure(&tree.root(), true);
    assert_eq!(tree.len(), 6);

    let (tree, _) = tree.delete_prefix(b"ru");
    check_structure(&tree.root(), true);
    assert_eq!(tree.len(), 3);

    let (tree, _) = tree.delete(b"");
    check_structure(&tree.root(), true);
    assert_eq!(tree.len(), 2);
}

#[test]
fn test_split_scenario() {
    // inserting 001, 002, 003 yields one internal node with prefix "00"
    // and three single-byte children
    let tree = Tree::<u32>::new();
    let (tree, _) = tree.insert(b"001", 1);
    let (tree, _) = tree.insert(b"002", 2);
    let (tree, _) = tree.insert(b"003", 3);

    let root = tree.root();
    assert_eq!(root.edge_len(), 1);
    let (_, inner) = root.get_edge(b'0').unwrap();
    assert_eq!(inner.prefix, b"00".to_vec());
    assert_eq!(inner.edge_len(), 3);
    assert_eq!(inner.edges[0].node.prefix, b"1".to_vec());
    assert_eq!(inner.edges[1].node.prefix, b"2".to_vec());
    assert_eq!(inner.edges[2].node.prefix, b"3".to_vec());

    // inserting 010 afterwards splits the prefix to "0": the old node and
    // a "10" leaf child hang under it
    let (tree, _) = tree.insert(b"010", 10);
    let root = tree.root();
    let (_, outer) = root.get_edge(b'0').unwrap();
    assert_eq!(outer.prefix, b"0".to_vec());
    assert_eq!(outer.edge_len(), 2);
    let (_, old_node) = outer.get_edge(b'0').unwrap();
    assert_eq!(old_node.prefix, b"0".to_vec());
    assert_eq!(old_node.edge_len(), 3);
    let (_, leaf_child) = outer.get_edge(b'1').unwrap();
    assert_eq!(leaf_child.prefix, b"10".to_vec());
    assert!(leaf_child.is_leaf());
}

#[test]
fn test_query_scenario() {
    // with keys {001, 002, 003, 010, 100} inserted:
    let pairs: Vec<(&[u8], u32)> =
        vec![(b"001", 1), (b"002", 2), (b"003", 3), (b"010", 10), (b"100", 100)];
    let mut tree = Tree::<u32>::new();
    for (key, value) in pairs.iter() {
        let (new_tree, _) = tree.insert(key, *value);
        tree = new_tree;
    }

    // "00" names an internal, non-leaf node: absent
    assert_eq!(tree.get(b"00"), None);

    let root = tree.root();
    assert_eq!(root.longest_prefix(b"00123"), Some((b"001".to_vec(), 1)));
    assert_eq!(root.minimum(), Some((b"001".to_vec(), 1)));
    assert_eq!(root.maximum(), Some((b"100".to_vec(), 100)));
}

#[test]
fn test_delete_prefix_scenario() {
    // of these seven keys, exactly four start with "test" ("test" itself
    // among them): deleting that prefix removes those four and no others,
    // and the size drops from 7 to 3
    let keys: Vec<&[u8]> = vec![
        b"",
        b"test",
        b"test/test1",
        b"test/test2",
        b"test/test3",
        b"R",
        b"RA",
    ];
    let mut tree = Tree::<bool>::new();
    for key in keys.iter() {
        let (new_tree, _) = tree.insert(key, true);
        tree = new_tree;
    }
    assert_eq!(tree.len(), 7);

    let (tree, deleted) = tree.delete_prefix(b"test");
    assert!(deleted);
    assert_eq!(tree.len(), 3);
    assert_eq!(tree.get(b""), Some(true));
    assert_eq!(tree.get(b"R"), Some(true));
    assert_eq!(tree.get(b"RA"), Some(true));
    assert_eq!(tree.get(b"test"), None);
    assert_eq!(tree.get(b"test/test1"), None);
}

#[test]
fn test_empty_tree_queries() {
    let tree = Tree::<u32>::new();
    assert_eq!(tree.get(b""), None);
    assert_eq!(tree.get(b"missing"), None);

    let root = tree.root();
    assert_eq!(root.minimum(), None);
    assert_eq!(root.maximum(), None);
    assert_eq!(root.longest_prefix(b"anything"), None);

    let (tree, old) = tree.delete(b"missing");
    assert_eq!(old, None);
    assert_eq!(tree.len(), 0);

    // no stored key has the empty prefix in an empty tree
    let (tree, deleted) = tree.delete_prefix(b"");
    assert!(!deleted);
    assert_eq!(tree.len(), 0);
}

#[test]
fn test_empty_key() {
    let tree = Tree::<u32>::new();
    let (tree, old) = tree.insert(b"", 5);
    assert_eq!(old, None);
    assert_eq!(tree.len(), 1);
    assert_eq!(tree.get(b""), Some(5));

    let root = tree.root();
    assert_eq!(root.minimum(), Some((b"".to_vec(), 5)));
    assert_eq!(root.maximum(), Some((b"".to_vec(), 5)));
    assert_eq!(root.longest_prefix(b"x"), Some((b"".to_vec(), 5)));

    // the empty key is a prefix of every key: deleting it clears the tree
    let (tree, _) = tree.insert(b"x", 6);
    let (tree, deleted) = tree.delete_prefix(b"");
    assert!(deleted);
    assert_eq!(tree.len(), 0);
}

#[test]
fn test_persistence_across_snapshots() {
    // every snapshot keeps answering as it did, whatever happens later
    let t0 = Tree::<u32>::new();
    let (t1, _) = t0.insert(b"shared", 1);
    let (t2, _) = t1.insert(b"shared", 2);
    let (t3, _) = t2.delete(b"shared");
    let (t4, _) = t3.insert(b"other", 9);

    assert_eq!(t0.get(b"shared"), None);
    assert_eq!(t1.get(b"shared"), Some(1));
    assert_eq!(t2.get(b"shared"), Some(2));
    assert_eq!(t3.get(b"shared"), None);
    assert_eq!(t4.get(b"other"), Some(9));
    assert_eq!(t1.len(), 1);
    assert_eq!(t2.len(), 1);
    assert_eq!(t3.len(), 0);
}

#[test]
fn test_longest_prefix_deepest() {
    // the deepest stored prefix wins, even when shallower ones match too
    let mut tree = Tree::<u32>::new();
    let pairs: Vec<(&[u8], u32)> = vec![(b"", 0), (b"a", 1), (b"ab", 2), (b"abcd", 3)];
    for (key, value) in pairs.iter() {
        let (new_tree, _) = tree.insert(key, *value);
        tree = new_tree;
    }
    let root = tree.root();
    assert_eq!(root.longest_prefix(b"abcdef"), Some((b"abcd".to_vec(), 3)));
    assert_eq!(root.longest_prefix(b"abce"), Some((b"ab".to_vec(), 2)));
    assert_eq!(root.longest_prefix(b"ax"), Some((b"a".to_vec(), 1)));
    assert_eq!(root.longest_prefix(b"q"), Some((b"".to_vec(), 0)));
}
