use radix_tree::node::{Edge, LeafNode, Node};
use radix_tree::transaction::Txn;
use radix_tree::tree::Tree;
use std::rc::Rc;

/// Builds a node from its prefix, an optional (key, value) leaf, and its
/// children; each edge label is the first byte of the child's prefix.
fn mk<V>(prefix: &[u8], leaf: Option<(&[u8], V)>, children: Vec<Node<V>>) -> Node<V> {
    Node {
        prefix: prefix.to_vec(),
        leaf: leaf.map(|(k, v)| Rc::new(LeafNode { key: k.to_vec(), value: v })),
        edges: children
            .into_iter()
            .map(|c| Edge { label: c.prefix[0], node: Rc::new(c) })
            .collect(),
    }
}

/// Deep structural equality on nodes.
fn node_eq<V: PartialEq>(a: &Node<V>, b: &Node<V>) -> bool {
    a.prefix == b.prefix
        && match (&a.leaf, &b.leaf) {
            (Some(x), Some(y)) => x.key == y.key && x.value == y.value,
            (None, None) => true,
            _ => false,
        }
        && a.edges.len() == b.edges.len()
        && a
            .edges
            .iter()
            .zip(b.edges.iter())
            .all(|(x, y)| x.label == y.label && node_eq(&x.node, &y.node))
}

#[test]
fn test_txn_clone() {
    let tree = Tree::<u32>::new();
    let mut txn = tree.start_transaction();

    txn.insert(b"001", 1);
    txn.insert(b"002", 2);

    let txn_clone = txn.clone();

    assert!(node_eq(&txn.root(), &txn_clone.root()));
    assert_eq!(txn.len(), txn_clone.len());
    assert_eq!(txn_clone.len(), 2);
}

#[test]
fn test_txn_len() {
    let tree = Tree::<bool>::new();
    let mut txn = tree.start_transaction();

    assert_eq!(txn.len(), 0);

    txn.insert(b"", true);
    assert_eq!(txn.len(), 1);
}

#[test]
fn test_txn_root() {
    let tree = Tree::<bool>::new();
    let mut txn = tree.start_transaction();
    txn.insert(b"", true);

    let expected_root: Node<bool> = mk(b"", Some((b"", true)), vec![]);
    assert!(node_eq(&expected_root, &txn.root()));

    txn.insert(b"key", true);
    let modified_root = txn.root();
    assert!(!node_eq(&expected_root, &modified_root));
}

#[test]
fn test_txn_get() {
    let tree = Tree::<bool>::new();
    let mut txn = tree.start_transaction();
    txn.insert(b"", true);

    let result = txn.get(b"");
    assert_eq!(result, Some(true));

    txn.insert(b"key", true);
    let result = txn.get(b"key");
    assert_eq!(result, Some(true));
}

#[test]
fn test_txn_insert() {
    let tree = Tree::<u32>::new();
    let mut txn = tree.start_transaction();

    {
        let result = txn.insert(b"001", 1);
        assert!(result.is_none());
        assert_eq!(txn.len(), 1);
        let root = txn.root();
        assert_eq!(root.prefix, b"".to_vec());

        let edge = root.get_edge(b'0');
        assert!(edge.is_some());
        let (_, child_node) = edge.unwrap();
        assert!(node_eq(&child_node, &mk(b"001", Some((b"001", 1)), vec![])));
    }

    {
        // a second key with common prefix "00" splits the node
        let result = txn.insert(b"002", 2);
        assert!(result.is_none());
        assert_eq!(txn.len(), 2);
        let root = txn.root();
        assert_eq!(root.prefix, b"".to_vec());

        let edge = root.get_edge(b'0');
        assert!(edge.is_some());
        let (_, child_node) = edge.unwrap();
        assert!(node_eq(
            &child_node,
            &mk(
                b"00",
                None,
                vec![
                    mk(b"1", Some((b"001", 1)), vec![]),
                    mk(b"2", Some((b"002", 2)), vec![]),
                ],
            )
        ));
    }

    {
        // a third key with common prefix "00" appends to the edges
        let result = txn.insert(b"003", 3);
        assert!(result.is_none());
        assert_eq!(txn.len(), 3);
        let root = txn.root();
        assert_eq!(root.prefix, b"".to_vec());

        let edge = root.get_edge(b'0');
        assert!(edge.is_some());
        let (_, child_node) = edge.unwrap();
        assert!(node_eq(
            &child_node,
            &mk(
                b"00",
                None,
                vec![
                    mk(b"1", Some((b"001", 1)), vec![]),
                    mk(b"2", Some((b"002", 2)), vec![]),
                    mk(b"3", Some((b"003", 3)), vec![]),
                ],
            )
        ));
    }

    {
        // a key with the shorter common prefix "0" splits the node again
        let result = txn.insert(b"010", 10);
        assert!(result.is_none());
        assert_eq!(txn.len(), 4);
        let root = txn.root();
        assert_eq!(root.prefix, b"".to_vec());

        let edge = root.get_edge(b'0');
        assert!(edge.is_some());
        let (_, child_node) = edge.unwrap();
        assert!(node_eq(
            &child_node,
            &mk(
                b"0",
                None,
                vec![
                    mk(
                        b"0",
                        None,
                        vec![
                            mk(b"1", Some((b"001", 1)), vec![]),
                            mk(b"2", Some((b"002", 2)), vec![]),
                            mk(b"3", Some((b"003", 3)), vec![]),
                        ],
                    ),
                    mk(b"10", Some((b"010", 10)), vec![]),
                ],
            )
        ));
    }

    {
        // a key with no common prefix adds a new edge to the root
        let result = txn.insert(b"100", 100);
        assert!(result.is_none());
        assert_eq!(txn.len(), 5);
        let root = txn.root();
        assert_eq!(root.prefix, b"".to_vec());

        let edge_0 = root.get_edge(b'0');
        assert!(edge_0.is_some());
        let (_, child_node) = edge_0.unwrap();
        assert!(node_eq(
            &child_node,
            &mk(
                b"0",
                None,
                vec![
                    mk(
                        b"0",
                        None,
                        vec![
                            mk(b"1", Some((b"001", 1)), vec![]),
                            mk(b"2", Some((b"002", 2)), vec![]),
                            mk(b"3", Some((b"003", 3)), vec![]),
                        ],
                    ),
                    mk(b"10", Some((b"010", 10)), vec![]),
                ],
            )
        ));

        let edge_1 = root.get_edge(b'1');
        assert!(edge_1.is_some());
        let (_, child_node) = edge_1.unwrap();
        assert!(node_eq(&child_node, &mk(b"100", Some((b"100", 100)), vec![])));
    }

    {
        // update an existing deep key
        let result = txn.insert(b"002", 20);
        assert!(result.is_some());
        assert_eq!(result.unwrap(), 2);
        assert_eq!(txn.len(), 5);
        let root = txn.root();
        assert_eq!(root.prefix, b"".to_vec());

        let edge_0 = root.get_edge(b'0');
        assert!(edge_0.is_some());
        let (_, child_node) = edge_0.unwrap();
        assert!(node_eq(
            &child_node,
            &mk(
                b"0",
                None,
                vec![
                    mk(
                        b"0",
                        None,
                        vec![
                            mk(b"1", Some((b"001", 1)), vec![]),
                            mk(b"2", Some((b"002", 20)), vec![]),
                            mk(b"3", Some((b"003", 3)), vec![]),
                        ],
                    ),
                    mk(b"10", Some((b"010", 10)), vec![]),
                ],
            )
        ));
    }

    {
        // update an existing top-level key
        let result = txn.insert(b"100", 200);
        assert!(result.is_some());
        assert_eq!(result.unwrap(), 100);
        assert_eq!(txn.len(), 5);
        let root = txn.root();
        assert_eq!(root.prefix, b"".to_vec());

        let edge_1 = root.get_edge(b'1');
        assert!(edge_1.is_some());
        let (_, child_node) = edge_1.unwrap();
        assert!(node_eq(&child_node, &mk(b"100", Some((b"100", 200)), vec![])));
    }
}

#[test]
fn test_txn_delete() {
    let tree = Tree::<bool>::new();
    let mut txn = tree.start_transaction();

    let mock_keys: Vec<&[u8]> = vec![b"", b"001", b"002", b"003", b"010", b"100"];

    for key in mock_keys.iter() {
        let result = txn.insert(key, true);
        assert!(result.is_none());
    }

    for key in mock_keys.iter() {
        // delete for the first time
        let old_size = txn.len();
        let result = txn.delete(key);
        assert!(result.is_some());
        assert_eq!(result.unwrap(), true);
        assert_eq!(txn.len(), old_size - 1);

        // delete the second time, should be a no-op
        let new_size = txn.len();
        let result = txn.delete(key);
        assert!(result.is_none());
        assert!(old_size - 1 == new_size);
    }
}

#[test]
fn test_txn_delete_prefix() {
    {
        // prefix not a node in the tree
        let tree = Tree::<bool>::new();
        let mut txn = tree.start_transaction();
        let mock_keys: Vec<&[u8]> =
            vec![b"", b"test/test1", b"test/test2", b"test/test3", b"R", b"RA"];
        for key in mock_keys.iter() {
            let result = txn.insert(key, true);
            assert!(result.is_none());
        }
        let old_size = txn.len();
        assert_eq!(old_size, 6);

        let new_tree = txn.commit();
        let mut txn = new_tree.start_transaction();

        let has_deleted = txn.delete_prefix(b"test");
        assert!(has_deleted);
        assert_eq!(txn.len(), old_size - 3);
    }

    {
        // prefix is a node in the tree
        let tree = Tree::<bool>::new();
        let mut txn = tree.start_transaction();
        let mock_keys: Vec<&[u8]> = vec![
            b"",
            b"test",
            b"test/test1",
            b"test/test2",
            b"test/test3",
            b"test/testAAA",
            b"R",
            b"RA",
        ];
        for key in mock_keys.iter() {
            let result = txn.insert(key, true);
            assert!(result.is_none());
        }
        let old_size = txn.len();
        assert_eq!(old_size, 8);

        let tree = txn.commit();
        let mut txn = tree.start_transaction();

        let has_deleted = txn.delete_prefix(b"test");
        assert!(has_deleted);
        assert_eq!(txn.len(), old_size - 5);
    }

    {
        // longer prefix, not a node in the tree
        let tree = Tree::<bool>::new();
        let mut txn = tree.start_transaction();
        let mock_keys: Vec<&[u8]> = vec![
            b"",
            b"test/test1",
            b"test/test2",
            b"test/test3",
            b"test/testAAA",
            b"R",
            b"RA",
        ];
        for key in mock_keys.iter() {
            let result = txn.insert(key, true);
            assert!(result.is_none());
        }
        let old_size = txn.len();
        assert_eq!(old_size, 7);

        let tree = txn.commit();
        let mut txn = tree.start_transaction();

        let has_deleted = txn.delete_prefix(b"test/test");
        assert!(has_deleted);
        assert_eq!(txn.len(), old_size - 4);
    }

    {
        // prefix matches a single node
        let tree = Tree::<bool>::new();
        let mut txn = tree.start_transaction();
        let mock_keys: Vec<&[u8]> = vec![b"", b"AB", b"ABC", b"AR", b"R", b"RA"];
        for key in mock_keys.iter() {
            let result = txn.insert(key, true);
            assert!(result.is_none());
        }

        let old_size = txn.len();
        assert_eq!(old_size, 6);

        let tree = txn.commit();
        let mut txn = tree.start_transaction();

        let has_deleted = txn.delete_prefix(b"AR");
        assert!(has_deleted);
        assert_eq!(txn.len(), old_size - 1);
    }
}

#[test]
fn test_txn_merge_child() {
    // construct a node with a single child
    let mut parent_node: Node<u32> = Node::new(b"parent", None);

    let child_node = mk(
        b"child",
        Some((b"child_key", 42)),
        vec![mk(b"1", Some((b"001", 1)), vec![])],
    );

    parent_node.add_edge(Edge::new(b'c', Rc::new(child_node)));

    // merge the child into the parent
    Txn::<u32>::merge_child(&mut parent_node);

    assert_eq!(parent_node.prefix, b"parentchild".to_vec());
    assert!(parent_node.is_leaf());

    let leaf = parent_node.leaf.as_ref();
    assert!(leaf.is_some());
    let leaf = leaf.unwrap();
    assert_eq!(leaf.get_key(), &b"child_key".to_vec());
    assert_eq!(*leaf.get_value(), 42);
    assert_eq!(parent_node.edge_len(), 1);
    assert_eq!(parent_node.edges[0].label, b'1');
    assert!(node_eq(
        &parent_node.edges[0].node,
        &mk(b"1", Some((b"001", 1)), vec![])
    ));
}
