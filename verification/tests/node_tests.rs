use radix_tree::node::{Edge, LeafNode, Node};
use std::rc::Rc;

#[derive(Debug, Clone, PartialEq, Eq)]
struct TestValue {
    data: String,
}

fn tv(data: &str) -> TestValue {
    TestValue { data: data.into() }
}

/// Builds a node from its prefix, an optional (key, value) leaf, and its
/// children; each edge label is the first byte of the child's prefix.
fn mk<V>(prefix: &[u8], leaf: Option<(&[u8], V)>, children: Vec<Node<V>>) -> Node<V> {
    Node {
        prefix: prefix.to_vec(),
        leaf: leaf.map(|(k, v)| Rc::new(LeafNode { key: k.to_vec(), value: v })),
        edges: children
            .into_iter()
            .map(|c| Edge { label: c.prefix[0], node: Rc::new(c) })
            .collect(),
    }
}

/// Deep structural equality on nodes.
fn node_eq<V: PartialEq>(a: &Node<V>, b: &Node<V>) -> bool {
    a.prefix == b.prefix
        && match (&a.leaf, &b.leaf) {
            (Some(x), Some(y)) => x.key == y.key && x.value == y.value,
            (None, None) => true,
            _ => false,
        }
        && a.edges.len() == b.edges.len()
        && a
            .edges
            .iter()
            .zip(b.edges.iter())
            .all(|(x, y)| x.label == y.label && node_eq(&x.node, &y.node))
}

#[test]
fn new() {
    {
        let leaf_node = LeafNode {
            key: b"key".to_vec(),
            value: tv("test"),
        };
        let node = Node::new(b"prefix", Some(leaf_node));
        assert_eq!(node.prefix, b"prefix".to_vec());
        assert!(node.leaf.is_some());
        let stored_leaf = node.leaf.as_ref().unwrap();
        assert_eq!(stored_leaf.key, b"key".to_vec());
        assert_eq!(stored_leaf.value, tv("test"));
    }

    {
        let node_no_leaf: Node<TestValue> = Node::new(b"no_leaf", None);
        assert_eq!(node_no_leaf.prefix, b"no_leaf".to_vec());
        assert!(node_no_leaf.leaf.is_none());
    }

    {
        let blank_node: Node<TestValue> = Node::new(b"", None);
        assert_eq!(blank_node.prefix, b"".to_vec());
        assert!(blank_node.leaf.is_none());
    }
}

#[test]
fn check_is_leaf() {
    let node: Node<TestValue> = mk(b"", Some((b"key", tv("test"))), vec![]);
    assert!(node.is_leaf(), "should return true for leaf node");

    let node: Node<TestValue> = Node::empty();
    assert!(!node.is_leaf(), "should return false for non-leaf node");
}

#[test]
fn test_replace_prefix() {
    let mut node: Node<TestValue> = Node::new(b"old_prefix", None);
    assert_eq!(node.prefix, b"old_prefix".to_vec());

    node.replace_prefix(b"new_prefix");
    assert_eq!(node.prefix, b"new_prefix".to_vec());

    node.replace_prefix(b"");
    assert_eq!(node.prefix, b"".to_vec());
}

#[test]
fn test_replace_leaf() {
    let mut node: Node<TestValue> = Node::empty();

    node.replace_leaf(Some(LeafNode::new(b"new_key", tv("new_data"))));
    {
        let stored_leaf = node.leaf.as_ref();
        assert!(stored_leaf.is_some(), "leaf should be present after replacement");
        let stored_leaf = stored_leaf.unwrap();
        assert_eq!(stored_leaf.key, b"new_key".to_vec());
        assert_eq!(stored_leaf.value, tv("new_data"));
    }

    node.replace_leaf(None);
    assert!(node.leaf.is_none(), "leaf should be None after removal");
}

#[test]
fn test_add_edge() {
    {
        // insert into a node with no edges
        let mut node: Node<TestValue> = Node::empty();
        let child: Node<TestValue> = mk(b"a", None, vec![]);
        node.add_edge(Edge { label: b'a', node: Rc::new(child) });

        assert_eq!(node.edges.len(), 1);
        assert_eq!(node.edges[0].label, b'a');
    }

    {
        // insert into a node with existing edges; 'c' goes in the middle
        let mut node: Node<TestValue> = Node::empty();
        node.add_edge(Edge { label: b'b', node: Rc::new(mk(b"b", None, vec![])) });
        node.add_edge(Edge { label: b'd', node: Rc::new(mk(b"d", None, vec![])) });
        node.add_edge(Edge { label: b'c', node: Rc::new(mk(b"c", None, vec![])) });

        assert_eq!(node.edges.len(), 3);
        let labels: Vec<u8> = node.edges.iter().map(|e| e.label).collect();
        assert_eq!(labels, vec![b'b', b'c', b'd'], "edges should be in sorted order");
    }
}

#[test]
fn test_replace_edge() {
    let mut node: Node<TestValue> = Node::empty();
    node.add_edge(Edge { label: b'a', node: Rc::new(mk(b"a", None, vec![])) });
    node.add_edge(Edge { label: b'b', node: Rc::new(mk(b"b", None, vec![])) });

    // replace edge 'a'
    let new_a: Node<TestValue> = mk(b"a", Some((b"new_key", tv("new"))), vec![]);
    node.replace_edge(Edge { label: b'a', node: Rc::new(new_a) });

    assert_eq!(node.edges.len(), 2);
    assert!(
        node_eq(&node.edges[0].node, &mk(b"a", Some((b"new_key", tv("new"))), vec![])),
        "edge 'a' should be replaced"
    );
    assert!(
        node_eq(&node.edges[1].node, &mk(b"b", None, vec![])),
        "edge 'b' should remain unchanged"
    );
}

#[test]
fn test_replace_edge_at() {
    let mut node: Node<TestValue> = Node::empty();
    node.add_edge(Edge { label: b'a', node: Rc::new(mk(b"a", None, vec![])) });
    node.add_edge(Edge { label: b'b', node: Rc::new(mk(b"b", None, vec![])) });

    // replace edge at index 1 (edge 'b')
    let new_b: Node<TestValue> = mk(b"b", Some((b"new_key_b", tv("new_b"))), vec![]);
    node.replace_edge_at(1, Edge { label: b'b', node: Rc::new(new_b) });

    assert_eq!(node.edges.len(), 2);
    assert!(
        node_eq(&node.edges[0].node, &mk(b"a", None, vec![])),
        "edge 'a' should remain unchanged"
    );
    assert!(
        node_eq(&node.edges[1].node, &mk(b"b", Some((b"new_key_b", tv("new_b"))), vec![])),
        "edge 'b' should be replaced"
    );
}

#[test]
fn test_get_edge() {
    let mut node: Node<TestValue> = Node::empty();
    node.add_edge(Edge { label: b'a', node: Rc::new(mk(b"a", None, vec![])) });
    node.add_edge(Edge { label: b'b', node: Rc::new(mk(b"b", None, vec![])) });

    let result = node.get_edge(b'a');
    assert!(result.is_some(), "should find edge 'a'");
    let (idx, found_node) = result.unwrap();
    assert_eq!(idx, 0, "edge 'a' should be at index 0");
    assert!(
        node_eq(&found_node, &mk(b"a", None, vec![])),
        "found node for edge 'a' should match"
    );

    let result = node.get_edge(b'b');
    assert!(result.is_some(), "should find edge 'b'");
    let (idx, found_node) = result.unwrap();
    assert_eq!(idx, 1, "edge 'b' should be at index 1");
    assert!(
        node_eq(&found_node, &mk(b"b", None, vec![])),
        "found node for edge 'b' should match"
    );

    let result = node.get_edge(b'c');
    assert!(result.is_none(), "should not find edge 'c'");
}

#[test]
fn test_get_edge_at() {
    let mut node: Node<TestValue> = Node::empty();
    node.add_edge(Edge { label: b'a', node: Rc::new(mk(b"a", None, vec![])) });
    node.add_edge(Edge { label: b'b', node: Rc::new(mk(b"b", None, vec![])) });

    {
        let result = node.get_edge_at(0);
        assert!(result.is_some(), "should find edge at index 0");
        assert!(
            node_eq(&result.unwrap(), &mk(b"a", None, vec![])),
            "found node at index 0 should match edge 'a'"
        );
    }

    {
        let result = node.get_edge_at(1);
        assert!(result.is_some(), "should find edge at index 1");
        assert!(
            node_eq(&result.unwrap(), &mk(b"b", None, vec![])),
            "found node at index 1 should match edge 'b'"
        );
    }

    {
        let result = node.get_edge_at(2);
        assert!(result.is_none(), "should not find edge at index 2");
    }
}

#[test]
fn test_get_lower_bound_edge() {
    let mut node: Node<TestValue> = Node::empty();
    node.add_edge(Edge { label: b'a', node: Rc::new(mk(b"a", None, vec![])) });
    node.add_edge(Edge { label: b'c', node: Rc::new(mk(b"c", None, vec![])) });

    // lower bound for 'b' is edge 'c'
    let result = node.get_lower_bound_edge(b'b');
    assert!(result.is_some(), "should find lower bound edge for 'b'");
    let (idx, found_node) = result.unwrap();
    assert_eq!(idx, 1, "lower bound edge for 'b' should be at index 1");
    assert!(
        node_eq(&found_node, &mk(b"c", None, vec![])),
        "found node for lower bound edge should match edge 'c'"
    );

    // lower bound for 'c' is edge 'c' itself
    let result = node.get_lower_bound_edge(b'c');
    assert!(result.is_some(), "should find lower bound edge for 'c'");
    let (idx, _) = result.unwrap();
    assert_eq!(idx, 1, "lower bound edge for 'c' should be at index 1");

    // no lower bound for 'd'
    let result = node.get_lower_bound_edge(b'd');
    assert!(result.is_none(), "should not find lower bound edge for 'd'");
}

#[test]
fn test_delete_edge() {
    let mut node: Node<TestValue> = Node::empty();
    node.add_edge(Edge { label: b'a', node: Rc::new(mk(b"a", None, vec![])) });
    node.add_edge(Edge { label: b'b', node: Rc::new(mk(b"b", None, vec![])) });

    {
        // delete non-existent edge 'c' (should do nothing)
        node.delete_edge(b'c');
        assert_eq!(node.edges.len(), 2, "both edges should remain");
        assert_eq!(node.edges[0].label, b'a', "edge 'a' should remain");
        assert_eq!(node.edges[1].label, b'b', "edge 'b' should remain");
    }

    {
        node.delete_edge(b'a');
        assert_eq!(node.edges.len(), 1);
        assert_eq!(node.edges[0].label, b'b', "only edge 'b' should remain");
    }

    {
        node.delete_edge(b'b');
        assert_eq!(node.edges.len(), 0, "no edges should remain");
    }
}

/// The shared query-test tree: keys 001, 002, 003, 010, 100.
fn get_test_tree() -> Node<TestValue> {
    let node_001 = mk(b"1", Some((b"001", tv("value_001"))), vec![]);
    let node_002 = mk(b"2", Some((b"002", tv("value_002"))), vec![]);
    let node_003 = mk(b"3", Some((b"003", tv("value_003"))), vec![]);
    let node_00 = mk(b"0", None, vec![node_001, node_002, node_003]);
    let node_010 = mk(b"10", Some((b"010", tv("value_010"))), vec![]);
    let node_0 = mk(b"0", None, vec![node_00, node_010]);
    let node_100 = mk(b"100", Some((b"100", tv("value_100"))), vec![]);
    mk(b"", None, vec![node_0, node_100])
}

#[test]
fn test_get() {
    let root = get_test_tree();

    assert_eq!(root.get(b"001"), Some(tv("value_001")));
    assert_eq!(root.get(b"100"), Some(tv("value_100")));
    assert_eq!(root.get(b"002"), Some(tv("value_002")));
    assert_eq!(root.get(b"003"), Some(tv("value_003")));
    assert_eq!(root.get(b"010"), Some(tv("value_010")));
    assert_eq!(root.get(b"01"), None);
    assert_eq!(root.get(b"00"), None);
    assert_eq!(root.get(b"0"), None);
}

#[test]
fn node_test_test_longest_prefix() {
    let root = get_test_tree();

    assert_eq!(
        root.longest_prefix(b"00123"),
        Some((b"001".to_vec(), tv("value_001")))
    );
    assert_eq!(
        root.longest_prefix(b"003"),
        Some((b"003".to_vec(), tv("value_003")))
    );
    assert_eq!(
        root.longest_prefix(b"10099"),
        Some((b"100".to_vec(), tv("value_100")))
    );
    assert_eq!(
        root.longest_prefix(b"002abc"),
        Some((b"002".to_vec(), tv("value_002")))
    );
    assert_eq!(
        root.longest_prefix(b"010abc"),
        Some((b"010".to_vec(), tv("value_010")))
    );
    assert_eq!(root.longest_prefix(b"011abc"), None);
    assert_eq!(root.longest_prefix(b"0"), None);
    assert_eq!(root.longest_prefix(b"2"), None);
}

#[test]
fn test_minimum() {
    let root = get_test_tree();
    assert_eq!(root.minimum(), Some((b"001".to_vec(), tv("value_001"))));
}

#[test]
fn test_maximum() {
    let root = get_test_tree();
    assert_eq!(root.maximum(), Some((b"100".to_vec(), tv("value_100"))));
}

#[test]
fn test_is_empty() {
    {
        let root = get_test_tree();
        assert!(!root.empty_edge(), "node with edges should not be empty");
    }

    {
        let root: Node<TestValue> = Node::empty();
        assert!(root.empty_edge(), "node with no edges should be empty");
    }
}

#[test]
fn test_first_edge() {
    {
        let root = get_test_tree();
        let first_edge_node = root.first_edge();
        assert!(first_edge_node.is_some());
        assert_eq!(first_edge_node.unwrap().prefix, b"0".to_vec());
    }

    {
        let root: Node<TestValue> = Node::empty();
        assert!(root.first_edge().is_none());
    }
}

#[test]
fn test_last_edge() {
    {
        let root = get_test_tree();
        let last_edge_node = root.last_edge();
        assert!(last_edge_node.is_some());
        assert_eq!(last_edge_node.unwrap().prefix, b"100".to_vec());
    }

    {
        let root: Node<TestValue> = Node::empty();
        assert!(root.last_edge().is_none());
    }
}
