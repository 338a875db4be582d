//! Copy-on-write transactions.
//!
//! A [`Txn`] stages mutations against one tree snapshot. Every mutation
//! walks from the transaction's working root and rebuilds only the nodes
//! on the path being changed; untouched subtrees are shared, by reference
//! count, with the snapshot the transaction was started from and with any
//! other snapshot. Committing publishes the working root as a new,
//! immutable tree.

use crate::model::{
    add_prefix, child_of, edge_map, edge_wf, edges_map, edges_size, keys_with_prefix, keys_wf,
    lemma_add_prefix_concat, lemma_add_prefix_contains, lemma_add_prefix_empty,
    lemma_add_prefix_get, lemma_add_prefix_insert, lemma_add_prefix_remove,
    lemma_add_prefix_remove_prefixed, lemma_edge_map_key, lemma_edges_size_take_le,
    lemma_edges_size_take_step, lemma_keys_with_prefix_card, lemma_keys_with_prefix_via_edge,
    lemma_leaf_only_node, lemma_leaf_remove, lemma_leaf_update, lemma_node_congruence,
    lemma_node_drop_edge, lemma_node_drop_edge_prefixed, lemma_node_insert_at_edge,
    lemma_node_insert_new_edge, lemma_node_map_empty_key, lemma_node_map_no_edge,
    lemma_node_map_step, lemma_node_remove_at_edge, lemma_node_remove_prefixed_at_edge,
    lemma_node_size_card, lemma_node_size_child_le, lemma_prefixes_comparable, node_map,
    node_size, node_wf, rc_node, remove_prefixed, settled,
};
use crate::node::{copy_bytes, is_bytes_prefix, Edge, LeafNode, Node};
use crate::utils::{lemma_common_prefix_len, longest_prefix};
use std::rc::Rc;
use vstd::prelude::*;

verus! {

/// The path already consumed when `search` remains of `key`: the key minus
/// its `search` suffix.
pub open spec fn path_of(key: Seq<u8>, search: Seq<u8>) -> Seq<u8> {
    key.take(key.len() - search.len())
}

/// `search` is a suffix of `key`.
pub open spec fn suffix_of(key: Seq<u8>, search: Seq<u8>) -> bool {
    search.len() <= key.len() && key.skip(key.len() - search.len()) == search
}

/// Builds a shallow copy of a node: the prefix bytes and the edge list are
/// copied, while the leaf and every child stay shared by reference count.
fn clone_node<V>(n: &Node<V>) -> (r: Node<V>)
    ensures
        r.prefix@ == n.prefix@,
        r.leaf == n.leaf,
        r.edges@ == n.edges@,
{
    let mut edges: Vec<Edge<V>> = Vec::new();
    let mut i: usize = 0;
    while i < n.edges.len()
        invariant
            i <= n.edges@.len(),
            edges@ =~= n.edges@.take(i as int),
        decreases n.edges@.len() - i,
    {
        edges.push(Edge { label: n.edges[i].label, node: n.edges[i].node.clone() });
        proof {
            assert(edges@ =~= n.edges@.take(i + 1));
        }
        i += 1;
    }
    proof {
        assert(edges@ =~= n.edges@);
    }
    let leaf = match &n.leaf {
        Some(l) => Some(l.clone()),
        None => None,
    };
    Node { prefix: copy_bytes(n.prefix.as_slice()), leaf, edges }
}

/// Returns a node value the transaction may mutate freely: the node itself
/// when the transaction is its only owner, otherwise a shallow copy. Either
/// way the returned value denotes the same map as the input.
fn get_writable_node<V>(node: Rc<Node<V>>) -> (r: Node<V>)
    ensures
        r.prefix@ == node.prefix@,
        r.leaf == node.leaf,
        r.edges@ == node.edges@,
{
    match Rc::try_unwrap(node) {
        Ok(n) => n,
        Err(rc) => clone_node(&rc),
    }
}

/// A copy-on-write transaction: a working root plus the staged key count.
/// Obtained from a tree snapshot; publishes a new snapshot on commit.
pub struct Txn<V> {
    pub(crate) root: Rc<Node<V>>,
    pub(crate) size: usize,
}

impl<V: Clone> Txn<V> {
    /// Inserts `(key, value)` below `node`, where `search` is the part of
    /// the key not yet consumed. Returns the rebuilt node and the value
    /// previously stored under the key, if any.
    fn internal_insert(node: Rc<Node<V>>, key: &[u8], search: &[u8], value: V) -> (r: (
        Node<V>,
        Option<V>,
    ))
        requires
            node_wf(*node),
            suffix_of(key@, search@),
            keys_wf(*node, path_of(key@, search@)),
        ensures
            node_wf(r.0),
            node_map(r.0) == node_map(*node).insert(search@, value),
            keys_wf(r.0, path_of(key@, search@)),
            r.0.prefix@ == node.prefix@,
            settled(*node) ==> settled(r.0),
            match r.1 {
                Some(v) => node_map(*node).contains_key(search@) && cloned(
                    node_map(*node)[search@],
                    v,
                ),
                None => !node_map(*node).contains_key(search@),
            },
        decreases *node,
    {
        let ghost path = path_of(key@, search@);
        let ghost n0 = rc_node(&node);
        if search.len() == 0 {
            // The search key ends here: this node holds (or will hold) the
            // leaf. Replace it, keeping the previous value as the result.
            proof {
                assert(search@ =~= Seq::<u8>::empty());
                lemma_node_map_empty_key(n0);
                assert(path =~= key@);
            }
            let mut w = get_writable_node(node);
            let ghost w0 = w;
            proof {
                lemma_node_congruence(n0, w0);
            }
            let old_value = match &w.leaf {
                Some(l) => Some(l.value.clone()),
                None => None,
            };
            w.replace_leaf(Some(LeafNode::new(key, value)));
            proof {
                lemma_leaf_update(w0, w, value);
                assert(keys_wf(w, path)) by {
                    assert forall|i: int| 0 <= i < w.edges@.len() implies keys_wf(
                        *(#[trigger] w.edges@[i]).node,
                        path + w.edges@[i].node.prefix@,
                    ) by {
                        assert(w.edges@[i] == w0.edges@[i]);
                        assert(keys_wf(w0, path));
                    }
                }
            }
            return (w, old_value);
        }
        let node_edge = node.get_edge(search[0]);
        if node_edge.is_none() {
            // No edge for the next byte: attach a fresh leaf-only child
            // holding the whole remaining search key as its prefix.
            proof {
                lemma_node_map_no_edge(n0, search@);
            }
            let new_leaf = LeafNode::new(key, value);
            let child = Node::new(search, Some(new_leaf));
            let ghost childg = child;
            let label = search[0];
            let mut w = get_writable_node(node);
            let ghost w0 = w;
            proof {
                lemma_node_congruence(n0, w0);
            }
            let j = w.add_edge(Edge { label, node: Rc::new(child) });
            proof {
                let e = w.edges@[j as int];
                assert(*e.node == childg);
                lemma_leaf_only_node(childg);
                lemma_add_prefix_empty::<V>(search@);
                lemma_add_prefix_insert(search@, Map::<Seq<u8>, V>::empty(), Seq::empty(), value);
                assert(search@ + Seq::<u8>::empty() =~= search@);
                assert(edge_map(e) == Map::<Seq<u8>, V>::empty().insert(search@, value));
                assert(edge_wf(e));
                assert forall|k: Seq<u8>| #[trigger] edge_map(e).contains_key(k) <==> k
                    == search@ by {}
                lemma_node_insert_new_edge(w0, w, j as int, search@, value);
                assert(keys_wf(w, path)) by {
                    assert(childg.leaf matches Some(l) && l.key@ == key@);
                    assert(path + childg.prefix@ =~= key@);
                    assert(keys_wf(childg, path + childg.prefix@));
                    assert forall|i: int| 0 <= i < w.edges@.len() implies keys_wf(
                        *(#[trigger] w.edges@[i]).node,
                        path + w.edges@[i].node.prefix@,
                    ) by {
                        assert(keys_wf(w0, path));
                        if i < j as int {
                            assert(w.edges@[i] == w0.edges@[i]);
                        } else if i > j as int {
                            assert(w.edges@[i] == w0.edges@[i - 1]);
                        }
                    }
                }
            }
            return (w, None);
        }
        let (edge_idx, child) = node_edge.unwrap();
        let ghost c = rc_node(&child);
        let ghost e_old = n0.edges@[edge_idx as int];
        proof {
            assert(edge_wf(e_old));
            assert(c == child_of(e_old));
        }
        let cpl = longest_prefix(search, child.prefix.as_slice());
        proof {
            lemma_common_prefix_len(search@, c.prefix@);
        }
        if cpl == child.prefix.len() {
            // The child's whole prefix matches: consume it and recurse.
            let rest = vstd::slice::slice_subrange(search, cpl, search.len());
            proof {
                assert(c.prefix@ =~= search@.take(cpl as int));
                assert(c.prefix@.is_prefix_of(search@));
                lemma_node_map_step(n0, edge_idx as int, search@);
                assert(rest@ =~= search@.skip(c.prefix@.len() as int));
                assert(suffix_of(key@, rest@)) by {
                    assert(key@.skip(key@.len() - rest@.len()) =~= rest@);
                }
                assert(path_of(key@, rest@) =~= path + c.prefix@);
                assert(keys_wf(c, path + c.prefix@));
            }
            let (new_child, old_value) = Self::internal_insert(child, key, rest, value);
            let ghost ncg = new_child;
            let mut w = get_writable_node(node);
            let ghost w0 = w;
            proof {
                lemma_node_congruence(n0, w0);
            }
            let label = search[0];
            w.replace_edge_at(edge_idx, Edge { label, node: Rc::new(new_child) });
            proof {
                let f = w.edges@[edge_idx as int];
                assert(*f.node == ncg);
                assert(edge_wf(f));
                assert(edge_map(f) == edge_map(e_old).insert(search@, value)) by {
                    lemma_add_prefix_insert(c.prefix@, node_map(c), rest@, value);
                    assert(c.prefix@ + rest@ =~= search@);
                }
                lemma_node_insert_at_edge(w0, w, edge_idx as int, search@, value);
                assert(keys_wf(w, path)) by {
                    assert forall|i: int| 0 <= i < w.edges@.len() implies keys_wf(
                        *(#[trigger] w.edges@[i]).node,
                        path + w.edges@[i].node.prefix@,
                    ) by {
                        assert(keys_wf(w0, path));
                        if i != edge_idx as int {
                            assert(w.edges@[i] == w0.edges@[i]);
                        } else {
                            assert(path + f.node.prefix@ =~= path_of(key@, rest@));
                        }
                    }
                }
            }
            return (w, old_value);
        }
        // Only part of the child's prefix matches: split the child at the
        // boundary of the common prefix.
        proof {
            assert(cpl < c.prefix@.len());
            assert(!c.prefix@.is_prefix_of(search@)) by {
                if c.prefix@.is_prefix_of(search@) {
                    assert(search@.take(c.prefix@.len() as int) =~= c.prefix@);
                }
            }
            lemma_node_map_step(n0, edge_idx as int, search@);
            assert(!node_map(n0).contains_key(search@));
            // The first bytes agree, so at least one byte is common.
            assert(c.prefix@[0] == search@[0]);
            assert(cpl >= 1) by {
                if cpl == 0 {
                    assert(search@[0] != c.prefix@[0]);
                }
            }
        }
        let common = vstd::slice::slice_subrange(search, 0, cpl);
        let mut split_node = Node::new(common, None);
        let ghost s0 = split_node;
        // Move the existing child under the split node, with the common
        // prefix stripped off the front of its own prefix.
        let stripped = copy_bytes(
            vstd::slice::slice_subrange(child.prefix.as_slice(), cpl, child.prefix.len()),
        );
        let mlabel = stripped[0];
        let mut moved = get_writable_node(child);
        let ghost m0 = moved;
        proof {
            lemma_node_congruence(c, m0);
        }
        moved.replace_prefix(stripped.as_slice());
        let ghost mg = moved;
        proof {
            lemma_node_congruence(m0, mg);
        }
        let j1 = split_node.add_edge(Edge { label: mlabel, node: Rc::new(moved) });
        let ghost s1 = split_node;
        let rest = vstd::slice::slice_subrange(search, cpl, search.len());
        proof {
            // The split node holds exactly the old child's entries, shifted
            // by the common prefix.
            assert(s1.edges@.len() == 1);
            let em = s1.edges@[0];
            assert(*em.node == mg);
            assert(node_map(s1) =~= edge_map(em)) by {
                assert(s1.edges@.drop_last() =~= Seq::<Edge<V>>::empty());
                assert(edges_map(s1.edges@) == edges_map(Seq::<Edge<V>>::empty()).union_prefer_right(
                    edge_map(em),
                ));
            }
            assert(edge_map(em) == add_prefix(stripped@, node_map(c)));
            assert(edge_wf(em)) by {
                assert(stripped@.len() > 0);
                assert(stripped@[0] == mlabel);
                assert(settled(mg) == settled(c));
            }
        }
        if rest.len() == 0 {
            // The new key ends exactly at the split: the split node itself
            // becomes the leaf.
            split_node.replace_leaf(Some(LeafNode::new(key, value)));
            proof {
                lemma_leaf_update(s1, split_node, value);
            }
        } else {
            // The new key continues past the split: attach a fresh
            // leaf-only child beside the moved one.
            let new_leaf = LeafNode::new(key, value);
            let leaf_child = Node::new(rest, Some(new_leaf));
            let ghost lcg = leaf_child;
            let rlabel = rest[0];
            proof {
                assert(rlabel != mlabel) by {
                    assert(search@[cpl as int] != c.prefix@[cpl as int]);
                }
            }
            let j2 = split_node.add_edge(Edge { label: rlabel, node: Rc::new(leaf_child) });
            proof {
                let en = split_node.edges@[j2 as int];
                assert(*en.node == lcg);
                lemma_leaf_only_node(lcg);
                lemma_add_prefix_empty::<V>(rest@);
                lemma_add_prefix_insert(rest@, Map::<Seq<u8>, V>::empty(), Seq::empty(), value);
                assert(rest@ + Seq::<u8>::empty() =~= rest@);
                assert(edge_map(en) == Map::<Seq<u8>, V>::empty().insert(rest@, value));
                assert(edge_wf(en));
                assert forall|k: Seq<u8>| #[trigger] edge_map(en).contains_key(k) <==> k
                    == rest@ by {}
                lemma_node_insert_new_edge(s1, split_node, j2 as int, rest@, value);
            }
        }
        let ghost s2 = split_node;
        proof {
            // In both cases: node_map(s2) == edge_map(em).insert(rest, value)
            // (with rest empty meaning the empty relative key).
            assert(node_map(s2) == add_prefix(stripped@, node_map(c)).insert(rest@, value)) by {
                if rest@.len() == 0 {
                    assert(rest@ =~= Seq::<u8>::empty());
                }
            }
        }
        let mut w = get_writable_node(node);
        let ghost w0 = w;
        proof {
            lemma_node_congruence(n0, w0);
        }
        let label = search[0];
        w.replace_edge_at(edge_idx, Edge { label, node: Rc::new(split_node) });
        proof {
            let f = w.edges@[edge_idx as int];
            assert(*f.node == s2);
            assert(edge_wf(f)) by {
                assert(s2.prefix@ == common@);
                assert(common@.len() >= 1);
                assert(common@[0] == search@[0]);
                assert(settled(s2));
                assert(node_wf(s2));
            }
            assert(edge_map(f) == edge_map(e_old).insert(search@, value)) by {
                assert(edge_map(f) == add_prefix(common@, node_map(s2)));
                lemma_add_prefix_insert(
                    common@,
                    add_prefix(stripped@, node_map(c)),
                    rest@,
                    value,
                );
                assert(common@ + rest@ =~= search@);
                lemma_add_prefix_concat(common@, stripped@, node_map(c));
                assert(common@ + stripped@ =~= c.prefix@) by {
                    assert(common@ =~= c.prefix@.take(cpl as int));
                }
                assert(edge_map(e_old) == add_prefix(c.prefix@, node_map(c)));
            }
            lemma_node_insert_at_edge(w0, w, edge_idx as int, search@, value);
            assert(keys_wf(w, path)) by {
                assert(keys_wf(s2, path + common@)) by {
                    // the split node's leaf, if any, stores the full key
                    assert(rest@.len() == 0 ==> path + common@ =~= key@);
                    // the moved child keeps the old child's stored keys
                    assert(keys_wf(c, path + c.prefix@));
                    lemma_node_congruence(c, mg);
                    assert((path + common@) + stripped@ =~= path + c.prefix@) by {
                        assert(common@ + stripped@ =~= c.prefix@);
                    }
                    assert(keys_wf(mg, (path + common@) + stripped@));
                    // the fresh leaf-only child stores the full key
                    assert(rest@.len() > 0 ==> (path + common@) + rest@ =~= key@);
                    assert forall|i: int| 0 <= i < s2.edges@.len() implies keys_wf(
                        *(#[trigger] s2.edges@[i]).node,
                        (path + common@) + s2.edges@[i].node.prefix@,
                    ) by {
                        if *s2.edges@[i].node == mg {
                        } else {
                        }
                    }
                }
                assert forall|i: int| 0 <= i < w.edges@.len() implies keys_wf(
                    *(#[trigger] w.edges@[i]).node,
                    path + w.edges@[i].node.prefix@,
                ) by {
                    assert(keys_wf(w0, path));
                    if i != edge_idx as int {
                        assert(w.edges@[i] == w0.edges@[i]);
                    } else {
                        assert(path + w.edges@[i].node.prefix@ =~= path + common@);
                    }
                }
            }
        }
        (w, None)
    }
}

impl<V> Txn<V> {
    /// Collapses a leafless single-edge node into its only child: the
    /// child\'s prefix is appended to the node\'s own, and the child\'s leaf
    /// and edges move onto the node. Restores the invariant that no
    /// non-root internal node keeps exactly one edge and no leaf.
    pub fn merge_child(node: &mut Node<V>)
        requires
            node_wf(*old(node)),
            old(node).leaf is None,
            old(node).edges@.len() == 1,
        ensures
            node_wf(*final(node)),
            settled(*final(node)),
            final(node).prefix@ == old(node).prefix@ + child_of(old(node).edges@[0]).prefix@,
            node_map(*final(node)) == node_map(child_of(old(node).edges@[0])),
            forall|q: Seq<u8>|
                #[trigger] keys_wf(child_of(old(node).edges@[0]), q) ==> keys_wf(
                    *final(node),
                    q,
                ),
    {
        let ghost e0 = old(node).edges@[0];
        proof {
            assert(edge_wf(e0));
        }
        let child_rc = match node.pop_edge() {
            Some(e) => e.node,
            None => unreached(),
        };
        let ghost c = rc_node(&child_rc);
        let mut new_prefix = copy_bytes(node.prefix.as_slice());
        let mut i: usize = 0;
        let child_prefix_len = child_rc.prefix.len();
        while i < child_prefix_len
            invariant
                i <= child_rc.prefix@.len(),
                child_prefix_len == child_rc.prefix@.len(),
                new_prefix@ =~= old(node).prefix@ + child_rc.prefix@.take(i as int),
            decreases child_prefix_len - i,
        {
            new_prefix.push(child_rc.prefix[i]);
            proof {
                assert(new_prefix@ =~= old(node).prefix@ + child_rc.prefix@.take(i + 1));
            }
            i += 1;
        }
        proof {
            assert(new_prefix@ =~= old(node).prefix@ + c.prefix@);
        }
        let cw = get_writable_node(child_rc);
        node.prefix = new_prefix;
        node.leaf = cw.leaf;
        node.edges = cw.edges;
        proof {
            lemma_node_congruence(c, *node);
        }
    }
}

impl<V: Clone> Txn<V> {
    /// Deletes `search` below `node`. Returns the rebuilt node when the key
    /// was present (`None` otherwise: nothing changed), together with the
    /// removed leaf. `is_root` suppresses path compression at the working
    /// root; `path` is the full key consumed on arrival at `node`,
    /// including `node`\'s own prefix.
    fn internal_delete(node: Rc<Node<V>>, search: &[u8], is_root: bool, path: Ghost<Seq<u8>>) -> (r:
        (Option<Node<V>>, Option<Rc<LeafNode<V>>>))
        requires
            node_wf(*node),
            keys_wf(*node, path@),
            is_root || settled(*node),
        ensures
            match r.0 {
                None => !node_map(*node).contains_key(search@) && r.1 is None,
                Some(n) => {
                    &&& node_map(*node).contains_key(search@)
                    &&& node_wf(n)
                    &&& add_prefix(n.prefix@, node_map(n)) == add_prefix(
                        node.prefix@,
                        node_map(*node).remove(search@),
                    )
                    &&& node.prefix@.is_prefix_of(n.prefix@)
                    &&& keys_wf(n, path@ + n.prefix@.skip(node.prefix@.len() as int))
                    &&& (is_root ==> n.prefix@ == node.prefix@ && node_map(n) == node_map(
                        *node,
                    ).remove(search@))
                    &&& (settled(n) || is_root || (n.leaf is None && n.edges@.len() == 0))
                    &&& (r.1 matches Some(l) && l.value == node_map(*node)[search@])
                },
            },
        decreases *node,
    {
        let ghost n0 = rc_node(&node);
        if search.len() == 0 {
            proof {
                assert(search@ =~= Seq::<u8>::empty());
                lemma_node_map_empty_key(n0);
            }
            if !node.is_leaf() {
                return (None, None);
            }
            let mut w = get_writable_node(node);
            let ghost w0 = w;
            proof {
                lemma_node_congruence(n0, w0);
            }
            let removed = w.take_leaf();
            let ghost w1 = w;
            proof {
                lemma_leaf_remove(w0, w1);
                assert(keys_wf(w1, path@)) by {
                    assert forall|i: int| 0 <= i < w1.edges@.len() implies keys_wf(
                        *(#[trigger] w1.edges@[i]).node,
                        path@ + w1.edges@[i].node.prefix@,
                    ) by {
                        assert(w1.edges@[i] == w0.edges@[i]);
                        assert(keys_wf(w0, path@));
                    }
                }
            }
            if !is_root && w.edge_len() == 1 {
                let ghost e1 = w1.edges@[0];
                Self::merge_child(&mut w);
                proof {
                    assert(node_map(w1) =~= edge_map(e1)) by {
                        assert(w1.edges@.drop_last() =~= Seq::<Edge<V>>::empty());
                        assert(edges_map(w1.edges@) == edges_map(
                            Seq::<Edge<V>>::empty(),
                        ).union_prefer_right(edge_map(e1)));
                    }
                    lemma_add_prefix_concat(w1.prefix@, e1.node.prefix@, node_map(child_of(e1)));
                    assert(add_prefix(w.prefix@, node_map(w)) == add_prefix(
                        w1.prefix@,
                        node_map(w1),
                    ));
                    assert(keys_wf(w, path@ + w.prefix@.skip(n0.prefix@.len() as int))) by {
                        assert(keys_wf(child_of(e1), path@ + e1.node.prefix@));
                        assert(path@ + w.prefix@.skip(n0.prefix@.len() as int) =~= path@
                            + e1.node.prefix@);
                    }
                }
                return (Some(w), removed);
            }
            proof {
                assert(path@ + w1.prefix@.skip(n0.prefix@.len() as int) =~= path@);
                assert(settled(w1) || is_root || (w1.leaf is None && w1.edges@.len() == 0)) by {
                    if !is_root {
                        assert(w1.edges@.len() != 1);
                    }
                }
            }
            return (Some(w), removed);
        }
        let node_edge = node.get_edge(search[0]);
        if node_edge.is_none() {
            proof {
                lemma_node_map_no_edge(n0, search@);
            }
            return (None, None);
        }
        let (edge_idx, child) = node_edge.unwrap();
        let ghost c = rc_node(&child);
        let ghost e_old = n0.edges@[edge_idx as int];
        proof {
            assert(edge_wf(e_old));
            assert(c == child_of(e_old));
            lemma_node_map_step(n0, edge_idx as int, search@);
        }
        if !is_bytes_prefix(child.prefix.as_slice(), search) {
            return (None, None);
        }
        let plen = child.prefix.len();
        let rest = vstd::slice::slice_subrange(search, plen, search.len());
        proof {
            assert(c.prefix@.is_prefix_of(search@));
            assert(rest@ =~= search@.skip(c.prefix@.len() as int));
            assert(keys_wf(c, path@ + c.prefix@));
            assert(settled(c));
        }
        let (new_child, removed) = Self::internal_delete(
            child,
            rest,
            false,
            Ghost(path@ + c.prefix@),
        );
        if new_child.is_none() {
            return (None, None);
        }
        let nc = match new_child {
            Some(n) => n,
            None => unreached(),
        };
        let ghost ncg = nc;
        let label = search[0];
        let mut w = get_writable_node(node);
        let ghost w0 = w;
        proof {
            lemma_node_congruence(n0, w0);
        }
        if !nc.is_leaf() && nc.edge_len() == 0 {
            // The child lost its last entry: drop the edge entirely.
            w.delete_edge(label);
            let ghost w1 = w;
            proof {
                lemma_leaf_only_node(ncg);
                assert(node_map(ncg) =~= Map::<Seq<u8>, V>::empty());
                lemma_add_prefix_empty::<V>(ncg.prefix@);
                assert(add_prefix(c.prefix@, node_map(c).remove(rest@)) =~= Map::<
                    Seq<u8>,
                    V,
                >::empty());
                // the child had exactly the one removed entry
                assert forall|k: Seq<u8>| #[trigger] edge_map(e_old).contains_key(k) <==> k
                    == search@ by {
                    lemma_add_prefix_contains::<V>(c.prefix@, node_map(c), k);
                    if node_map(c).contains_key(k.skip(c.prefix@.len() as int)) && k.len()
                        >= c.prefix@.len() && k.take(c.prefix@.len() as int) == c.prefix@ {
                        if k.skip(c.prefix@.len() as int) != rest@ {
                            assert(node_map(c).remove(rest@).contains_key(
                                k.skip(c.prefix@.len() as int),
                            ));
                            lemma_add_prefix_get(
                                c.prefix@,
                                node_map(c).remove(rest@),
                                k.skip(c.prefix@.len() as int),
                            );
                            assert(c.prefix@ + k.skip(c.prefix@.len() as int) =~= k);
                            assert(false);
                        } else {
                            assert(k =~= c.prefix@ + rest@);
                            assert(c.prefix@ + rest@ =~= search@);
                        }
                    }
                    if k == search@ {
                        assert(node_map(c).contains_key(rest@));
                        lemma_add_prefix_get(c.prefix@, node_map(c), rest@);
                        assert(c.prefix@ + rest@ =~= search@);
                    }
                }
                let wi = choose|i: int|
                    0 <= i < w0.edges@.len() && (#[trigger] w0.edges@[i]).label == label
                        && w1.edges@ == w0.edges@.remove(i);
                assert(wi == edge_idx as int) by {
                    if wi < edge_idx as int {
                        assert(w0.edges@[wi].label < w0.edges@[edge_idx as int].label);
                    } else if wi > edge_idx as int {
                        assert(w0.edges@[edge_idx as int].label < w0.edges@[wi].label);
                    }
                }
                lemma_node_drop_edge(w0, w1, edge_idx as int, search@);
                assert(keys_wf(w1, path@)) by {
                    assert forall|i: int| 0 <= i < w1.edges@.len() implies keys_wf(
                        *(#[trigger] w1.edges@[i]).node,
                        path@ + w1.edges@[i].node.prefix@,
                    ) by {
                        assert(keys_wf(w0, path@));
                        if i < edge_idx as int {
                            assert(w1.edges@[i] == w0.edges@[i]);
                        } else {
                            assert(w1.edges@[i] == w0.edges@[i + 1]);
                        }
                    }
                }
            }
            if !is_root && !w.is_leaf() && w.edge_len() == 1 {
                let ghost w1 = w;
                let ghost e1 = w1.edges@[0];
                Self::merge_child(&mut w);
                proof {
                    assert(node_map(w1) =~= edge_map(e1)) by {
                        assert(w1.edges@.drop_last() =~= Seq::<Edge<V>>::empty());
                        assert(edges_map(w1.edges@) == edges_map(
                            Seq::<Edge<V>>::empty(),
                        ).union_prefer_right(edge_map(e1)));
                    }
                    lemma_add_prefix_concat(w1.prefix@, e1.node.prefix@, node_map(child_of(e1)));
                    assert(add_prefix(w.prefix@, node_map(w)) == add_prefix(
                        w1.prefix@,
                        node_map(w1),
                    ));
                    assert(keys_wf(w, path@ + w.prefix@.skip(n0.prefix@.len() as int))) by {
                        assert(keys_wf(child_of(e1), path@ + e1.node.prefix@));
                        assert(path@ + w.prefix@.skip(n0.prefix@.len() as int) =~= path@
                            + e1.node.prefix@);
                    }
                }
                return (Some(w), removed);
            }
            proof {
                assert(path@ + w.prefix@.skip(n0.prefix@.len() as int) =~= path@);
                assert(settled(w) || is_root || (w.leaf is None && w.edges@.len() == 0)) by {
                    if !is_root && w.leaf is None {
                        assert(w.edges@.len() != 1);
                    }
                }
            }
            return (Some(w), removed);
        }
        // The child still holds entries: re-point the edge at it.
        w.replace_edge_at(edge_idx, Edge { label, node: Rc::new(nc) });
        proof {
            let f = w.edges@[edge_idx as int];
            assert(*f.node == ncg);
            assert(edge_wf(f)) by {
                assert(ncg.prefix@.len() > 0);
                assert(ncg.prefix@[0] == c.prefix@[0]);
                assert(settled(ncg));
            }
            assert(edge_map(f) == edge_map(e_old).remove(search@)) by {
                assert(edge_map(f) == add_prefix(ncg.prefix@, node_map(ncg)));
                lemma_add_prefix_remove(c.prefix@, node_map(c), rest@);
                assert(c.prefix@ + rest@ =~= search@);
            }
            lemma_node_remove_at_edge(w0, w, edge_idx as int, search@);
            assert(keys_wf(w, path@)) by {
                assert forall|i: int| 0 <= i < w.edges@.len() implies keys_wf(
                    *(#[trigger] w.edges@[i]).node,
                    path@ + w.edges@[i].node.prefix@,
                ) by {
                    assert(keys_wf(w0, path@));
                    if i != edge_idx as int {
                        assert(w.edges@[i] == w0.edges@[i]);
                    } else {
                        assert(path@ + f.node.prefix@ =~= (path@ + c.prefix@)
                            + ncg.prefix@.skip(c.prefix@.len() as int));
                    }
                }
            }
            assert(path@ + w.prefix@.skip(n0.prefix@.len() as int) =~= path@);
        }
        (Some(w), removed)
    }
}

impl<V> Txn<V> {
    /// Counts the leaves (stored keys) in the subtree of a node.
    fn count_node(node: &Node<V>) -> (r: usize)
        requires
            node_wf(*node),
            node_size(*node) <= usize::MAX,
        ensures
            r == node_size(*node),
        decreases *node,
    {
        let mut count: usize = 0;
        let mut i: usize = 0;
        proof {
            assert(node.edges@.take(0) =~= Seq::<Edge<V>>::empty());
        }
        while i < node.edges.len()
            invariant
                i <= node.edges@.len(),
                count == edges_size(node.edges@.take(i as int)),
                node_wf(*node),
                node_size(*node) <= usize::MAX,
            decreases node.edges@.len() - i,
        {
            proof {
                assert(edge_wf(node.edges@[i as int]));
                lemma_edges_size_take_step(node.edges@, i as int);
                lemma_edges_size_take_le(node.edges@, i + 1);
            }
            let c = Self::count_node(&node.edges[i].node);
            count = count + c;
            i += 1;
        }
        proof {
            assert(node.edges@.take(node.edges@.len() as int) =~= node.edges@);
        }
        if node.is_leaf() {
            count = count + 1;
        }
        count
    }

    /// Removes every key below `search` in the subtree of `node`. Returns
    /// the rebuilt node when the walk reached the prefix (`None` when it
    /// diverged: nothing below `search` is stored), and the number of keys
    /// removed.
    fn internal_delete_prefix(
        node: Rc<Node<V>>,
        search: &[u8],
        is_root: bool,
        path: Ghost<Seq<u8>>,
    ) -> (r: (Option<Node<V>>, usize))
        requires
            node_wf(*node),
            keys_wf(*node, path@),
            is_root || settled(*node),
            node_size(*node) <= usize::MAX,
        ensures
            match r.0 {
                None => (forall|k: Seq<u8>|
                    node_map(*node).contains_key(k) ==> !(#[trigger] search@.is_prefix_of(k)))
                    && r.1 == 0,
                Some(n) => {
                    &&& node_wf(n)
                    &&& add_prefix(n.prefix@, node_map(n)) == add_prefix(
                        node.prefix@,
                        remove_prefixed(node_map(*node), search@),
                    )
                    &&& node.prefix@.is_prefix_of(n.prefix@)
                    &&& keys_wf(n, path@ + n.prefix@.skip(node.prefix@.len() as int))
                    &&& (is_root ==> n.prefix@ == node.prefix@ && node_map(n) == remove_prefixed(
                        node_map(*node),
                        search@,
                    ))
                    &&& (settled(n) || is_root || (n.leaf is None && n.edges@.len() == 0))
                    &&& r.1 == keys_with_prefix(node_map(*node), search@).len()
                    &&& keys_with_prefix(node_map(*node), search@).finite()
                },
            },
        decreases *node,
    {
        let ghost n0 = rc_node(&node);
        proof {
            lemma_node_size_card(n0);
        }
        if search.len() == 0 {
            // The whole subtree lies below the prefix: discard it.
            proof {
                assert(search@ =~= Seq::<u8>::empty());
                assert forall|k: Seq<u8>| #[trigger] search@.is_prefix_of(k) by {
                    assert(search@ =~= k.take(0));
                }
                node_map(n0).dom().lemma_len_filter(|k: Seq<u8>| search@.is_prefix_of(k));
            }
            let removed_count = Self::count_node(&node);
            let mut w = get_writable_node(node);
            let ghost w0 = w;
            proof {
                lemma_node_congruence(n0, w0);
            }
            let _ = w.take_leaf();
            w.clear_edges();
            proof {
                lemma_leaf_only_node(w);
                assert(node_map(w) =~= Map::<Seq<u8>, V>::empty());
                assert(remove_prefixed(node_map(n0), search@) =~= Map::<Seq<u8>, V>::empty());
                assert(node_map(w) == remove_prefixed(node_map(n0), search@));
                assert(keys_with_prefix(node_map(n0), search@) =~= node_map(n0).dom());
                assert(path@ + w.prefix@.skip(n0.prefix@.len() as int) =~= path@);
            }
            return (Some(w), removed_count);
        }
        let node_edge = node.get_edge(search[0]);
        if node_edge.is_none() {
            proof {
                assert forall|k: Seq<u8>|
                    node_map(n0).contains_key(k) implies !(#[trigger] search@.is_prefix_of(
                    k,
                )) by {
                    if search@.is_prefix_of(k) {
                        assert(k.take(search@.len() as int)[0] == k[0]);
                        lemma_node_map_no_edge(n0, k);
                    }
                }
            }
            return (None, 0);
        }
        let (edge_idx, child) = node_edge.unwrap();
        let ghost c = rc_node(&child);
        let ghost e_old = n0.edges@[edge_idx as int];
        proof {
            assert(edge_wf(e_old));
            assert(c == child_of(e_old));
        }
        let search_under = is_bytes_prefix(search, child.prefix.as_slice());
        let child_under = is_bytes_prefix(child.prefix.as_slice(), search);
        if !search_under && !child_under {
            // The search prefix diverges from the child's prefix: nothing
            // stored lies below it.
            proof {
                assert forall|k: Seq<u8>|
                    node_map(n0).contains_key(k) implies !(#[trigger] search@.is_prefix_of(
                    k,
                )) by {
                    if search@.is_prefix_of(k) {
                        assert(k.take(search@.len() as int)[0] == k[0]);
                        lemma_node_map_step(n0, edge_idx as int, k);
                        if c.prefix@.len() <= search@.len() {
                            lemma_prefixes_comparable(c.prefix@, search@, k);
                        } else {
                            lemma_prefixes_comparable(search@, c.prefix@, k);
                        }
                    }
                }
            }
            return (None, 0);
        }
        // When the child's prefix runs past the search prefix, the whole
        // child subtree lies below it: continue with an empty search.
        let rest = if child_under {
            vstd::slice::slice_subrange(search, child.prefix.len(), search.len())
        } else {
            vstd::slice::slice_subrange(search, search.len(), search.len())
        };
        proof {
            if child_under {
                assert(rest@ =~= search@.skip(c.prefix@.len() as int));
            } else {
                assert(rest@ =~= Seq::<u8>::empty());
            }
            // the two prefixes correspond under prepending the child's prefix
            assert forall|k2: Seq<u8>| #[trigger] search@.is_prefix_of(c.prefix@ + k2)
                <==> rest@.is_prefix_of(k2) by {
                if child_under {
                    assert(c.prefix@.is_prefix_of(search@));
                    if search@.is_prefix_of(c.prefix@ + k2) {
                        assert(rest@.is_prefix_of(k2)) by {
                            assert(search@ =~= c.prefix@ + rest@);
                            assert((c.prefix@ + k2).take(search@.len() as int) =~= search@);
                            assert(k2.take(rest@.len() as int) =~= rest@);
                        }
                    }
                    if rest@.is_prefix_of(k2) {
                        assert(search@.is_prefix_of(c.prefix@ + k2)) by {
                            assert(search@ =~= c.prefix@ + rest@);
                            assert((c.prefix@ + k2).take(search@.len() as int) =~= search@);
                        }
                    }
                } else {
                    assert(search@.is_prefix_of(c.prefix@));
                    assert(rest@.is_prefix_of(k2)) by {
                        assert(rest@ =~= k2.take(0));
                    }
                    assert(search@.is_prefix_of(c.prefix@ + k2)) by {
                        assert((c.prefix@ + k2).take(search@.len() as int) =~= search@);
                    }
                }
            }
            assert(keys_wf(c, path@ + c.prefix@));
            assert(settled(c));
            lemma_node_size_child_le(n0, edge_idx as int);
        }
        let (new_child, removed_count) = Self::internal_delete_prefix(
            child,
            rest,
            false,
            Ghost(path@ + c.prefix@),
        );
        if new_child.is_none() {
            proof {
                assert forall|k: Seq<u8>|
                    node_map(n0).contains_key(k) implies !(#[trigger] search@.is_prefix_of(
                    k,
                )) by {
                    if search@.is_prefix_of(k) {
                        assert(k.take(search@.len() as int)[0] == k[0]);
                        lemma_node_map_step(n0, edge_idx as int, k);
                        assert(c.prefix@.is_prefix_of(k));
                        assert(k =~= c.prefix@ + k.skip(c.prefix@.len() as int));
                        assert(node_map(c).contains_key(k.skip(c.prefix@.len() as int)));
                    }
                }
            }
            return (None, 0);
        }
        let nc = match new_child {
            Some(n) => n,
            None => unreached(),
        };
        let ghost ncg = nc;
        let label = search[0];
        proof {
            // relate the node-level key counts through the edge
            lemma_keys_with_prefix_via_edge(n0, edge_idx as int, search@);
            lemma_node_size_card(c);
            lemma_keys_with_prefix_card(c.prefix@, node_map(c), rest@, search@);
            // relate the edge maps
            lemma_add_prefix_remove_prefixed(c.prefix@, node_map(c), rest@, search@);
        }
        let mut w = get_writable_node(node);
        let ghost w0 = w;
        proof {
            lemma_node_congruence(n0, w0);
        }
        if !nc.is_leaf() && nc.edge_len() == 0 {
            // Nothing is left of the child: drop the edge entirely.
            w.delete_edge(label);
            let ghost w1 = w;
            proof {
                lemma_leaf_only_node(ncg);
                assert(node_map(ncg) =~= Map::<Seq<u8>, V>::empty());
                assert(add_prefix(c.prefix@, remove_prefixed(node_map(c), rest@)) =~= Map::<
                    Seq<u8>,
                    V,
                >::empty());
                assert forall|k: Seq<u8>| #[trigger] edge_map(e_old).contains_key(k)
                    implies search@.is_prefix_of(k) by {
                    lemma_edge_map_key(e_old, k);
                    assert(k =~= c.prefix@ + k.skip(c.prefix@.len() as int));
                    if !search@.is_prefix_of(k) {
                        assert(!rest@.is_prefix_of(k.skip(c.prefix@.len() as int)));
                        assert(remove_prefixed(node_map(c), rest@).contains_key(
                            k.skip(c.prefix@.len() as int),
                        ));
                        lemma_add_prefix_get(
                            c.prefix@,
                            remove_prefixed(node_map(c), rest@),
                            k.skip(c.prefix@.len() as int),
                        );
                    }
                }
                assert forall|k: Seq<u8>|
                    search@.is_prefix_of(k) && #[trigger] node_map(w0).contains_key(k)
                    implies edge_map(w0.edges@[edge_idx as int]).contains_key(k) by {
                    assert(k.take(search@.len() as int)[0] == k[0]);
                    lemma_node_map_step(w0, edge_idx as int, k);
                    lemma_add_prefix_contains(c.prefix@, node_map(c), k);
                    assert(k.take(c.prefix@.len() as int) =~= c.prefix@);
                }
                let wi = choose|i: int|
                    0 <= i < w0.edges@.len() && (#[trigger] w0.edges@[i]).label == label
                        && w1.edges@ == w0.edges@.remove(i);
                assert(wi == edge_idx as int) by {
                    if wi < edge_idx as int {
                        assert(w0.edges@[wi].label < w0.edges@[edge_idx as int].label);
                    } else if wi > edge_idx as int {
                        assert(w0.edges@[edge_idx as int].label < w0.edges@[wi].label);
                    }
                }
                lemma_node_drop_edge_prefixed(w0, w1, edge_idx as int, search@);
                assert(keys_wf(w1, path@)) by {
                    assert forall|i: int| 0 <= i < w1.edges@.len() implies keys_wf(
                        *(#[trigger] w1.edges@[i]).node,
                        path@ + w1.edges@[i].node.prefix@,
                    ) by {
                        assert(keys_wf(w0, path@));
                        if i < edge_idx as int {
                            assert(w1.edges@[i] == w0.edges@[i]);
                        } else {
                            assert(w1.edges@[i] == w0.edges@[i + 1]);
                        }
                    }
                }
            }
            if !is_root && !w.is_leaf() && w.edge_len() == 1 {
                let ghost w1 = w;
                let ghost e1 = w1.edges@[0];
                Self::merge_child(&mut w);
                proof {
                    assert(node_map(w1) =~= edge_map(e1)) by {
                        assert(w1.edges@.drop_last() =~= Seq::<Edge<V>>::empty());
                        assert(edges_map(w1.edges@) == edges_map(
                            Seq::<Edge<V>>::empty(),
                        ).union_prefer_right(edge_map(e1)));
                    }
                    lemma_add_prefix_concat(w1.prefix@, e1.node.prefix@, node_map(child_of(e1)));
                    assert(add_prefix(w.prefix@, node_map(w)) == add_prefix(
                        w1.prefix@,
                        node_map(w1),
                    ));
                    assert(keys_wf(w, path@ + w.prefix@.skip(n0.prefix@.len() as int))) by {
                        assert(keys_wf(child_of(e1), path@ + e1.node.prefix@));
                        assert(path@ + w.prefix@.skip(n0.prefix@.len() as int) =~= path@
                            + e1.node.prefix@);
                    }
                }
                return (Some(w), removed_count);
            }
            proof {
                assert(path@ + w.prefix@.skip(n0.prefix@.len() as int) =~= path@);
                assert(settled(w) || is_root || (w.leaf is None && w.edges@.len() == 0)) by {
                    if !is_root && w.leaf is None {
                        assert(w.edges@.len() != 1);
                    }
                }
            }
            return (Some(w), removed_count);
        }
        // The child keeps entries outside the prefix: re-point the edge.
        w.replace_edge_at(edge_idx, Edge { label, node: Rc::new(nc) });
        proof {
            let f = w.edges@[edge_idx as int];
            assert(*f.node == ncg);
            assert(edge_wf(f)) by {
                assert(ncg.prefix@.len() > 0);
                assert(ncg.prefix@[0] == c.prefix@[0]);
                assert(settled(ncg));
            }
            assert(edge_map(f) == remove_prefixed(edge_map(e_old), search@)) by {
                assert(edge_map(f) == add_prefix(ncg.prefix@, node_map(ncg)));
            }
            lemma_node_remove_prefixed_at_edge(w0, w, edge_idx as int, search@);
            assert(keys_wf(w, path@)) by {
                assert forall|i: int| 0 <= i < w.edges@.len() implies keys_wf(
                    *(#[trigger] w.edges@[i]).node,
                    path@ + w.edges@[i].node.prefix@,
                ) by {
                    assert(keys_wf(w0, path@));
                    if i != edge_idx as int {
                        assert(w.edges@[i] == w0.edges@[i]);
                    } else {
                        assert(path@ + f.node.prefix@ =~= (path@ + c.prefix@)
                            + ncg.prefix@.skip(c.prefix@.len() as int));
                    }
                }
            }
            assert(path@ + w.prefix@.skip(n0.prefix@.len() as int) =~= path@);
        }
        (Some(w), removed_count)
    }
}

impl<V> View for Txn<V> {
    type V = Map<Seq<u8>, V>;

    closed spec fn view(&self) -> Map<Seq<u8>, V> {
        node_map(*self.root)
    }
}

impl<V> Txn<V> {
    /// The transaction's working root, as a spec value.
    pub closed spec fn spec_root(self) -> Node<V> {
        *self.root
    }

    /// Well-formedness: the working root is a structurally well-formed
    /// radix tree with an empty prefix, every stored leaf records its full
    /// key, and the staged size equals the number of stored keys.
    pub closed spec fn wf(self) -> bool {
        &&& node_wf(*self.root)
        &&& self.root.prefix@.len() == 0
        &&& keys_wf(*self.root, Seq::empty())
        &&& self.size == node_map(*self.root).dom().len()
    }

    /// The stated well-formedness, spelled over the public model: what
    /// `wf` guarantees about the root node a caller can observe.
    pub proof fn lemma_wf_root(self)
        requires
            self.wf(),
        ensures
            node_wf(self.spec_root()),
            keys_wf(self.spec_root(), Seq::empty()),
            self.spec_root().prefix@.len() == 0,
            self@ == node_map(self.spec_root()),
            self@.dom().finite(),
    {
        lemma_node_size_card(rc_node(&self.root));
    }

    /// Builds a transaction from a root and its key count.
    pub(crate) fn make(root: Rc<Node<V>>, size: usize) -> (t: Txn<V>)
        requires
            node_wf(*root),
            root.prefix@.len() == 0,
            keys_wf(*root, Seq::empty()),
            size == node_map(*root).dom().len(),
        ensures
            t.wf(),
            t@ == node_map(*root),
            t.spec_root() == *root,
    {
        Txn { root, size }
    }

    /// The number of keys currently staged in the transaction.
    pub fn len(&self) -> (r: usize)
        requires
            self.wf(),
        ensures
            r == self@.dom().len(),
    {
        self.size
    }

    /// The transaction's current working root node.
    pub fn root(&self) -> (r: Rc<Node<V>>)
        ensures
            *r == self.spec_root(),
    {
        self.root.clone()
    }
}

impl<V: Clone> Txn<V> {
    /// Returns (a clone of) the value staged under the given key.
    pub fn get(&self, key: &[u8]) -> (r: Option<V>)
        requires
            self.wf(),
        ensures
            match r {
                Some(v) => self@.contains_key(key@) && cloned(self@[key@], v),
                None => !self@.contains_key(key@),
            },
    {
        self.root.get(key)
    }

    /// Adds or updates a key. Returns the previous value when the key was
    /// already present (the staged size is unchanged); otherwise returns
    /// `None` and the staged size grows by one.
    pub fn insert(&mut self, key: &[u8], value: V) -> (r: Option<V>)
        requires
            old(self).wf(),
            old(self)@.dom().len() < usize::MAX,
        ensures
            final(self).wf(),
            final(self)@ == old(self)@.insert(key@, value),
            match r {
                Some(v) => old(self)@.contains_key(key@) && cloned(old(self)@[key@], v)
                    && final(self)@.dom().len() == old(self)@.dom().len(),
                None => !old(self)@.contains_key(key@)
                    && final(self)@.dom().len() == old(self)@.dom().len() + 1,
            },
    {
        let ghost m0 = self@;
        proof {
            lemma_node_size_card(rc_node(&self.root));
            assert(suffix_of(key@, key@)) by {
                assert(key@.skip(0) =~= key@);
            }
            assert(path_of(key@, key@) =~= Seq::<u8>::empty());
        }
        let root = self.root.clone();
        let (new_root, old_value) = Self::internal_insert(root, key, key, value);
        proof {
            assert(m0.insert(key@, value).dom() =~= m0.dom().insert(key@));
        }
        self.root = Rc::new(new_root);
        if old_value.is_none() {
            self.size = self.size + 1;
        }
        old_value
    }

    /// Removes a key. Returns its value when it was present (the staged
    /// size shrinks by one); otherwise returns `None` and nothing changes.
    pub fn delete(&mut self, key: &[u8]) -> (r: Option<V>)
        requires
            old(self).wf(),
        ensures
            final(self).wf(),
            final(self)@ == old(self)@.remove(key@),
            match r {
                Some(v) => old(self)@.contains_key(key@) && cloned(old(self)@[key@], v)
                    && final(self)@.dom().len() + 1 == old(self)@.dom().len(),
                None => !old(self)@.contains_key(key@) && final(self)@ == old(self)@,
            },
    {
        let ghost m0 = self@;
        proof {
            lemma_node_size_card(rc_node(&self.root));
        }
        let root = self.root.clone();
        let (new_root, removed) = Self::internal_delete(root, key, true, Ghost(Seq::empty()));
        match new_root {
            Some(n) => {
                proof {
                    m0.lemma_remove_key_len(key@);
                }
                self.root = Rc::new(n);
                self.size = self.size - 1;
                match removed {
                    Some(l) => Some(l.value.clone()),
                    None => unreached(),
                }
            },
            None => {
                proof {
                    assert(m0.remove(key@) =~= m0);
                }
                None
            },
        }
    }

    /// Removes every key that starts with the given prefix. Returns true
    /// exactly when at least one such key was staged; otherwise nothing
    /// changes. The staged size shrinks by the number of keys removed.
    pub fn delete_prefix(&mut self, prefix: &[u8]) -> (r: bool)
        requires
            old(self).wf(),
        ensures
            final(self).wf(),
            final(self)@ == remove_prefixed(old(self)@, prefix@),
            r == exists|k: Seq<u8>|
                #[trigger] old(self)@.contains_key(k) && prefix@.is_prefix_of(k),
            final(self)@.dom().len() + keys_with_prefix(old(self)@, prefix@).len()
                == old(self)@.dom().len(),
    {
        let ghost m0 = self@;
        proof {
            lemma_node_size_card(rc_node(&self.root));
        }
        let root = self.root.clone();
        let (new_root, removed_count) = Self::internal_delete_prefix(
            root,
            prefix,
            true,
            Ghost(Seq::empty()),
        );
        let ghost pref_keys = keys_with_prefix(m0, prefix@);
        match new_root {
            Some(n) => {
                proof {
                    assert(remove_prefixed(m0, prefix@) =~= m0.remove_keys(pref_keys));
                    assert(forall|k: Seq<u8>| #[trigger] pref_keys.contains(k) ==> m0.contains_key(
                        k,
                    ));
                    m0.lemma_remove_keys_len(pref_keys);
                }
                if removed_count > 0 {
                    proof {
                        assert(pref_keys.contains(pref_keys.choose()));
                    }
                    self.root = Rc::new(n);
                    self.size = self.size - removed_count;
                    true
                } else {
                    proof {
                        pref_keys.lemma_len0_is_empty();
                        assert(remove_prefixed(m0, prefix@) =~= m0);
                        if exists|k: Seq<u8>|
                            #[trigger] m0.contains_key(k) && prefix@.is_prefix_of(k) {
                            let k = choose|k: Seq<u8>|
                                #[trigger] m0.contains_key(k) && prefix@.is_prefix_of(k);
                            assert(pref_keys.contains(k));
                        }
                    }
                    false
                }
            },
            None => {
                proof {
                    assert(remove_prefixed(m0, prefix@) =~= m0);
                    assert(pref_keys =~= Set::<Seq<u8>>::empty());
                }
                false
            },
        }
    }

    /// Finalizes the transaction, publishing its working root as a new,
    /// immutable tree. Snapshots the transaction was derived from are
    /// untouched.
    pub fn commit(self) -> (t: crate::tree::Tree<V>)
        requires
            self.wf(),
        ensures
            t.wf(),
            t@ == self@,
    {
        proof {
            lemma_node_size_card(rc_node(&self.root));
        }
        crate::tree::Tree::make(self.root, self.size)
    }
}

impl<V> Clone for Txn<V> {
    /// A transaction can be cloned mid-flight; the clone stages the same
    /// keys and continues independently.
    fn clone(&self) -> (r: Self)
        ensures
            r == *self,
    {
        let r = Txn { root: self.root.clone(), size: self.size };
        proof {
            assert(r == *self);
        }
        r
    }
}

} // verus!
