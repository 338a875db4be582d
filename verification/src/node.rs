//! Nodes of the radix tree and the read-only query interface.
//!
//! A [`Node`] is a plain, deeply immutable value: a prefix segment, an
//! optional [`LeafNode`] holding a stored key/value pair, and a list of
//! [`Edge`]s to child nodes kept sorted by label. Children are shared by
//! reference count; "modification" always means building a new `Node`
//! value, never mutating one that has been published in a tree.

use crate::model::{
    child_of, edge_map, edge_wf, edges_map, keys_wf, leaf_entry, lemma_add_prefix_get,
    lemma_edge_map_key, lemma_edges_map_char, lemma_leaf_only_node, lemma_node_map_empty_key,
    lemma_node_map_no_edge, lemma_node_map_step, lemma_settled_nonempty, node_map, node_wf,
    rc_node,
};
use crate::order::{is_lex_max, is_lex_min, lemma_lex_first_byte, lemma_lex_translate, lex_leq};
use std::rc::Rc;
use vstd::prelude::*;

verus! {

/// Copies a byte slice into a freshly allocated vector.
pub fn copy_bytes(s: &[u8]) -> (r: Vec<u8>)
    ensures
        r@ == s@,
{
    let mut v: Vec<u8> = Vec::new();
    let mut i: usize = 0;
    while i < s.len()
        invariant
            i <= s@.len(),
            v@ == s@.take(i as int),
        decreases s@.len() - i,
    {
        v.push(s[i]);
        proof {
            assert(v@ =~= s@.take(i + 1));
        }
        i += 1;
    }
    proof {
        assert(v@ =~= s@);
    }
    v
}

/// A stored key/value pair, attached to the node where the key ends.
pub struct LeafNode<V> {
    /// The full key, as stored from the root of the tree.
    pub key: Vec<u8>,
    /// The value associated with the key.
    pub value: V,
}

impl<V> LeafNode<V> {
    /// Creates a leaf holding the given key and value.
    pub fn new(key: &[u8], value: V) -> (r: LeafNode<V>)
        ensures
            r.key@ == key@,
            r.value == value,
    {
        LeafNode { key: copy_bytes(key), value }
    }

    /// The stored key.
    pub fn get_key(&self) -> (r: &Vec<u8>)
        ensures
            r == &self.key,
    {
        &self.key
    }

    /// The stored value.
    pub fn get_value(&self) -> (r: &V)
        ensures
            r == &self.value,
    {
        &self.value
    }
}

/// A labelled edge to a child node. The label is the first byte of the
/// child's prefix.
pub struct Edge<V> {
    /// The first byte of the child's prefix, as seen from the parent.
    pub label: u8,
    /// The child node the edge leads to.
    pub node: Rc<Node<V>>,
}

impl<V> Edge<V> {
    /// Creates an edge with the given label and child.
    pub fn new(label: u8, node: Rc<Node<V>>) -> (r: Edge<V>)
        ensures
            r.label == label,
            r.node == node,
    {
        Edge { label, node }
    }
}

/// A node of the radix tree: a prefix segment consumed to reach it from its
/// parent, an optional leaf, and edges to children sorted by label.
pub struct Node<V> {
    /// The byte segment consumed to reach this node from its parent.
    pub prefix: Vec<u8>,
    /// The stored pair, if a key ends at this node.
    pub leaf: Option<Rc<LeafNode<V>>>,
    /// Edges to child nodes, sorted ascending by distinct labels.
    pub edges: Vec<Edge<V>>,
}

/// Edges are sorted strictly ascending by label (labels are distinct).
pub open spec fn edges_sorted<V>(es: Seq<Edge<V>>) -> bool {
    forall|i: int, j: int| 0 <= i < j < es.len() ==> es[i].label < es[j].label
}

impl<V> Node<V> {
    /// Creates a node with the given prefix, an optional leaf, and no edges.
    pub fn new(prefix: &[u8], leaf: Option<LeafNode<V>>) -> (r: Node<V>)
        ensures
            r.prefix@ == prefix@,
            match leaf {
                Some(l) => r.leaf matches Some(rl) && *rl == l,
                None => r.leaf is None,
            },
            r.edges@.len() == 0,
    {
        Node {
            prefix: copy_bytes(prefix),
            leaf: match leaf {
                Some(l) => Some(Rc::new(l)),
                None => None,
            },
            edges: Vec::new(),
        }
    }

    /// Creates an empty node: empty prefix, no leaf, no edges.
    pub fn empty() -> (r: Node<V>)
        ensures
            r.prefix@ == Seq::<u8>::empty(),
            r.leaf is None,
            r.edges@.len() == 0,
    {
        Node { prefix: Vec::new(), leaf: None, edges: Vec::new() }
    }

    /// Returns true if the node is a leaf node (a stored key ends here).
    pub fn is_leaf(&self) -> (r: bool)
        ensures
            r == (self.leaf is Some),
    {
        self.leaf.is_some()
    }

    /// Replaces the prefix of the node.
    pub fn replace_prefix(&mut self, prefix: &[u8])
        ensures
            final(self).prefix@ == prefix@,
            final(self).leaf == old(self).leaf,
            final(self).edges == old(self).edges,
    {
        self.prefix = copy_bytes(prefix);
    }

    /// Replaces (or removes) the leaf of the node.
    pub fn replace_leaf(&mut self, leaf: Option<LeafNode<V>>)
        ensures
            match leaf {
                Some(l) => final(self).leaf matches Some(rl) && *rl == l,
                None => final(self).leaf is None,
            },
            final(self).prefix == old(self).prefix,
            final(self).edges == old(self).edges,
    {
        self.leaf = match leaf {
            Some(l) => Some(Rc::new(l)),
            None => None,
        };
    }

    /// Removes the leaf of the node and returns it.
    pub fn take_leaf(&mut self) -> (r: Option<Rc<LeafNode<V>>>)
        ensures
            r == old(self).leaf,
            final(self).leaf is None,
            final(self).prefix == old(self).prefix,
            final(self).edges == old(self).edges,
    {
        self.leaf.take()
    }

    /// Returns the index of the first edge whose label is not below the
    /// given label, by binary search over the sorted edge list.
    fn lower_bound_index(&self, label: u8) -> (r: usize)
        requires
            edges_sorted(self.edges@),
        ensures
            r <= self.edges@.len(),
            forall|i: int| 0 <= i < r ==> self.edges@[i].label < label,
            forall|i: int| r <= i < self.edges@.len() ==> self.edges@[i].label >= label,
    {
        let mut lo: usize = 0;
        let mut hi: usize = self.edges.len();
        while lo < hi
            invariant
                lo <= hi <= self.edges@.len(),
                edges_sorted(self.edges@),
                forall|i: int| 0 <= i < lo ==> self.edges@[i].label < label,
                forall|i: int| hi <= i < self.edges@.len() ==> self.edges@[i].label >= label,
            decreases hi - lo,
        {
            let mid = lo + (hi - lo) / 2;
            if self.edges[mid].label < label {
                lo = mid + 1;
            } else {
                hi = mid;
            }
        }
        lo
    }

    /// Adds an edge while keeping the edge list sorted; returns the index at
    /// which the edge was inserted. The label must not already be present.
    pub fn add_edge(&mut self, edge: Edge<V>) -> (r: usize)
        requires
            edges_sorted(old(self).edges@),
            forall|i: int| 0 <= i < old(self).edges@.len()
                ==> (#[trigger] old(self).edges@[i]).label != edge.label,
        ensures
            r <= old(self).edges@.len(),
            final(self).edges@ == old(self).edges@.insert(r as int, edge),
            edges_sorted(final(self).edges@),
            final(self).prefix == old(self).prefix,
            final(self).leaf == old(self).leaf,
    {
        let idx = self.lower_bound_index(edge.label);
        self.edges.insert(idx, edge);
        proof {
            assert forall|i: int, j: int| 0 <= i < j < self.edges@.len()
                implies self.edges@[i].label < self.edges@[j].label by {
                if i < idx && j == idx {
                } else if i == idx && j > idx {
                    assert(self.edges@[j] == old(self).edges@[j - 1]);
                    assert(old(self).edges@[j - 1].label >= edge.label);
                    assert(old(self).edges@[j - 1].label != edge.label);
                }
            }
        }
        idx
    }

    /// Replaces the child of the edge at the given index; the new edge must
    /// carry the same label as the one it replaces.
    pub fn replace_edge_at(&mut self, index: usize, edge: Edge<V>)
        requires
            index < old(self).edges@.len(),
            old(self).edges@[index as int].label == edge.label,
        ensures
            final(self).edges@ == old(self).edges@.update(index as int, edge),
            final(self).prefix == old(self).prefix,
            final(self).leaf == old(self).leaf,
    {
        self.edges[index] = edge;
    }

    /// Replaces the child of the edge with the same label as the given edge.
    /// An edge with that label must be present.
    pub fn replace_edge(&mut self, edge: Edge<V>)
        requires
            edges_sorted(old(self).edges@),
            exists|i: int| 0 <= i < old(self).edges@.len()
                && (#[trigger] old(self).edges@[i]).label == edge.label,
        ensures
            exists|i: int| 0 <= i < old(self).edges@.len()
                && (#[trigger] old(self).edges@[i]).label == edge.label
                && final(self).edges@ == old(self).edges@.update(i, edge),
            final(self).prefix == old(self).prefix,
            final(self).leaf == old(self).leaf,
    {
        let idx = self.lower_bound_index(edge.label);
        proof {
            let w = choose|i: int| 0 <= i < old(self).edges@.len()
                && (#[trigger] old(self).edges@[i]).label == edge.label;
            assert(w >= idx);
            if w > idx {
                assert(self.edges@[idx as int].label < self.edges@[w].label);
                assert(false);
            }
            assert(w == idx);
        }
        self.edges[idx] = edge;
    }

    /// Returns the index and child of the edge with the given label, if any.
    pub fn get_edge(&self, label: u8) -> (r: Option<(usize, Rc<Node<V>>)>)
        requires
            edges_sorted(self.edges@),
        ensures
            match r {
                Some((i, c)) => i < self.edges@.len() && self.edges@[i as int].label == label
                    && c == self.edges@[i as int].node,
                None => forall|i: int| 0 <= i < self.edges@.len()
                    ==> (#[trigger] self.edges@[i]).label != label,
            },
    {
        let idx = self.lower_bound_index(label);
        if idx < self.edges.len() && self.edges[idx].label == label {
            Some((idx, self.edges[idx].node.clone()))
        } else {
            None
        }
    }

    /// Returns the child of the edge at the given index, if the index is in
    /// range.
    pub fn get_edge_at(&self, index: usize) -> (r: Option<Rc<Node<V>>>)
        ensures
            match r {
                Some(c) => index < self.edges@.len() && c == self.edges@[index as int].node,
                None => index >= self.edges@.len(),
            },
    {
        if index < self.edges.len() {
            Some(self.edges[index].node.clone())
        } else {
            None
        }
    }

    /// Returns the index and child of the first edge whose label is not
    /// below the given label, if any.
    pub fn get_lower_bound_edge(&self, label: u8) -> (r: Option<(usize, Rc<Node<V>>)>)
        requires
            edges_sorted(self.edges@),
        ensures
            match r {
                Some((i, c)) => i < self.edges@.len() && self.edges@[i as int].label >= label
                    && c == self.edges@[i as int].node
                    && forall|j: int| 0 <= j < i ==> (#[trigger] self.edges@[j]).label < label,
                None => forall|j: int| 0 <= j < self.edges@.len()
                    ==> (#[trigger] self.edges@[j]).label < label,
            },
    {
        let idx = self.lower_bound_index(label);
        if idx < self.edges.len() {
            Some((idx, self.edges[idx].node.clone()))
        } else {
            None
        }
    }

    /// Deletes the edge with the given label, if present.
    pub fn delete_edge(&mut self, label: u8)
        requires
            edges_sorted(old(self).edges@),
        ensures
            (exists|i: int| 0 <= i < old(self).edges@.len()
                && (#[trigger] old(self).edges@[i]).label == label
                && final(self).edges@ == old(self).edges@.remove(i))
                || (final(self).edges@ == old(self).edges@
                    && forall|i: int| 0 <= i < old(self).edges@.len()
                        ==> (#[trigger] old(self).edges@[i]).label != label),
            edges_sorted(final(self).edges@),
            final(self).prefix == old(self).prefix,
            final(self).leaf == old(self).leaf,
    {
        let idx = self.lower_bound_index(label);
        if idx < self.edges.len() && self.edges[idx].label == label {
            self.edges.remove(idx);
            proof {
                assert(edges_sorted(self.edges@));
            }
        }
    }

    /// Returns true if the node has no edges.
    pub fn empty_edge(&self) -> (r: bool)
        ensures
            r == (self.edges@.len() == 0),
    {
        self.edges.len() == 0
    }

    /// Returns the number of edges.
    pub fn edge_len(&self) -> (r: usize)
        ensures
            r == self.edges@.len(),
    {
        self.edges.len()
    }

    /// Returns the child of the first (lowest-labelled) edge, if any.
    pub fn first_edge(&self) -> (r: Option<Rc<Node<V>>>)
        ensures
            match r {
                Some(c) => self.edges@.len() > 0 && c == self.edges@[0].node,
                None => self.edges@.len() == 0,
            },
    {
        if self.edges.len() > 0 {
            Some(self.edges[0].node.clone())
        } else {
            None
        }
    }

    /// Returns the child of the last (highest-labelled) edge, if any.
    pub fn last_edge(&self) -> (r: Option<Rc<Node<V>>>)
        ensures
            match r {
                Some(c) => self.edges@.len() > 0
                    && c == self.edges@[self.edges@.len() - 1].node,
                None => self.edges@.len() == 0,
            },
    {
        if self.edges.len() > 0 {
            Some(self.edges[self.edges.len() - 1].node.clone())
        } else {
            None
        }
    }

    /// Removes and returns the last edge, if any.
    pub fn pop_edge(&mut self) -> (r: Option<Edge<V>>)
        ensures
            match r {
                Some(e) => old(self).edges@.len() > 0
                    && e == old(self).edges@[old(self).edges@.len() - 1]
                    && final(self).edges@ == old(self).edges@.drop_last(),
                None => old(self).edges@.len() == 0 && final(self).edges@ == old(self).edges@,
            },
            final(self).prefix == old(self).prefix,
            final(self).leaf == old(self).leaf,
    {
        self.edges.pop()
    }

    /// Removes all edges.
    pub fn clear_edges(&mut self)
        ensures
            final(self).edges@.len() == 0,
            final(self).prefix == old(self).prefix,
            final(self).leaf == old(self).leaf,
    {
        self.edges.clear();
    }

    /// Removes all edges and releases their storage.
    pub fn reset_edges(&mut self)
        ensures
            final(self).edges@.len() == 0,
            final(self).prefix == old(self).prefix,
            final(self).leaf == old(self).leaf,
    {
        self.edges = Vec::new();
    }
}

/// Returns true if `p` is a byte-prefix of `k`.
pub fn is_bytes_prefix(p: &[u8], k: &[u8]) -> (r: bool)
    ensures
        r == p@.is_prefix_of(k@),
{
    if p.len() > k.len() {
        return false;
    }
    let mut i: usize = 0;
    while i < p.len()
        invariant
            i <= p@.len() <= k@.len(),
            forall|j: int| 0 <= j < i ==> p@[j] == k@[j],
        decreases p@.len() - i,
    {
        if p[i] != k[i] {
            proof {
                assert(k@.subrange(0, p@.len() as int)[i as int] == k@[i as int]);
            }
            return false;
        }
        i += 1;
    }
    proof {
        assert(p@ =~= k@.subrange(0, p@.len() as int));
    }
    true
}

impl<V: Clone> Node<V> {
    /// Returns (a clone of) the value stored under the given key in the
    /// subtree below this node; the key is relative to this node, i.e. this
    /// node's own prefix has already been consumed.
    pub fn get(&self, key: &[u8]) -> (r: Option<V>)
        requires
            crate::model::node_wf(*self),
        ensures
            match r {
                Some(v) => crate::model::node_map(*self).contains_key(key@) && cloned(
                    crate::model::node_map(*self)[key@],
                    v,
                ),
                None => !crate::model::node_map(*self).contains_key(key@),
            },
        decreases *self,
    {
        if key.len() == 0 {
            proof {
                assert(key@ =~= Seq::<u8>::empty());
                crate::model::lemma_node_map_empty_key(*self);
            }
            match &self.leaf {
                Some(l) => Some(l.value.clone()),
                None => None,
            }
        } else {
            match self.get_edge(key[0]) {
                None => {
                    proof {
                        crate::model::lemma_node_map_no_edge(*self, key@);
                    }
                    None
                },
                Some((idx, child)) => {
                    proof {
                        crate::model::lemma_node_map_step(*self, idx as int, key@);
                        assert(child == self.edges@[idx as int].node);
                    }
                    let plen = child.prefix.len();
                    if is_bytes_prefix(child.prefix.as_slice(), key) {
                        let rest = vstd::slice::slice_subrange(key, plen, key.len());
                        child.get(rest)
                    } else {
                        None
                    }
                },
            }
        }
    }
}

impl<V: Clone> Node<V> {
    /// Returns the stored pair with the lexicographically least key in the
    /// subtree below this node. The returned key is the full stored key;
    /// relative to this node it is the least key of the node\'s map.
    pub fn minimum(&self) -> (r: Option<(Vec<u8>, V)>)
        requires
            node_wf(*self),
        ensures
            match r {
                Some(kv) => exists|rk: Seq<u8>|
                    #[trigger] is_lex_min(node_map(*self), rk) && cloned(node_map(*self)[rk], kv.1)
                        && (forall|p: Seq<u8>| #[trigger] keys_wf(*self, p) ==> kv.0@ == p + rk),
                None => forall|j: Seq<u8>| !(#[trigger] node_map(*self).contains_key(j)),
            },
        decreases *self,
    {
        match &self.leaf {
            Some(l) => {
                // A leaf right here ends the walk: the empty relative key
                // precedes every other.
                proof {
                    lemma_node_map_empty_key(*self);
                    let e: Seq<u8> = Seq::empty();
                    assert(is_lex_min(node_map(*self), e));
                    assert forall|p: Seq<u8>| #[trigger] keys_wf(*self, p) implies l.key@ == p
                        + e by {
                        assert(p + e =~= p);
                    }
                }
                Some((copy_bytes(l.key.as_slice()), l.value.clone()))
            },
            None => {
                if self.edges.len() == 0 {
                    proof {
                        lemma_leaf_only_node(*self);
                    }
                    None
                } else {
                    proof {
                        assert(edge_wf(self.edges@[0]));
                    }
                    let rmin = self.edges[0].node.minimum();
                    match rmin {
                        Some(kv) => {
                            proof {
                                let e0 = self.edges@[0];
                                let c = child_of(e0);
                                let p0 = c.prefix@;
                                let rkc = choose|rk: Seq<u8>|
                                    #[trigger] is_lex_min(node_map(c), rk) && cloned(
                                        node_map(c)[rk],
                                        kv.1,
                                    ) && (forall|p: Seq<u8>|
                                        #[trigger] keys_wf(c, p) ==> kv.0@ == p + rk);
                                let rk = p0 + rkc;
                                lemma_add_prefix_get(p0, node_map(c), rkc);
                                assert(rk[0] == e0.label);
                                lemma_node_map_step(*self, 0, rk);
                                assert(p0.is_prefix_of(rk)) by {
                                    assert(rk.take(p0.len() as int) =~= p0);
                                }
                                assert(rk.skip(p0.len() as int) =~= rkc);
                                assert(node_map(*self).contains_key(rk));
                                assert(node_map(*self)[rk] == node_map(c)[rkc]);
                                lemma_node_map_empty_key(*self);
                                assert forall|j: Seq<u8>|
                                    node_map(*self).contains_key(j) implies lex_leq(rk, j) by {
                                    assert(j.len() > 0) by {
                                        if j.len() == 0 {
                                            assert(j =~= Seq::<u8>::empty());
                                        }
                                    }
                                    lemma_edges_map_char(self.edges@, j);
                                    assert(!leaf_entry(*self).contains_key(j));
                                    let w = choose|i: int|
                                        0 <= i < self.edges@.len() && #[trigger] edge_map(
                                            self.edges@[i],
                                        ).contains_key(j);
                                    lemma_edge_map_key(self.edges@[w], j);
                                    if w == 0 {
                                        let j2 = j.skip(p0.len() as int);
                                        assert(j =~= p0 + j2);
                                        assert(node_map(c).contains_key(j2));
                                        assert(lex_leq(rkc, j2));
                                        lemma_lex_translate(p0, rkc, j2);
                                    } else {
                                        assert(self.edges@[0].label < self.edges@[w].label);
                                        lemma_lex_first_byte(rk, j);
                                    }
                                }
                                assert(is_lex_min(node_map(*self), rk));
                                assert forall|p: Seq<u8>| #[trigger] keys_wf(*self, p)
                                    implies kv.0@ == p + rk by {
                                    assert(keys_wf(c, p + p0));
                                    assert(kv.0@ == (p + p0) + rkc);
                                    assert((p + p0) + rkc =~= p + rk);
                                }
                            }
                            Some(kv)
                        },
                        None => {
                            proof {
                                lemma_settled_nonempty(child_of(self.edges@[0]));
                            }
                            unreached()
                        },
                    }
                }
            },
        }
    }

    /// Returns the stored pair with the lexicographically greatest key in
    /// the subtree below this node. The walk always follows the last edge;
    /// a leaf counts only once a childless node is reached.
    pub fn maximum(&self) -> (r: Option<(Vec<u8>, V)>)
        requires
            node_wf(*self),
        ensures
            match r {
                Some(kv) => exists|rk: Seq<u8>|
                    #[trigger] is_lex_max(node_map(*self), rk) && cloned(node_map(*self)[rk], kv.1)
                        && (forall|p: Seq<u8>| #[trigger] keys_wf(*self, p) ==> kv.0@ == p + rk),
                None => forall|j: Seq<u8>| !(#[trigger] node_map(*self).contains_key(j)),
            },
        decreases *self,
    {
        if self.edges.len() > 0 {
            let last_idx = self.edges.len() - 1;
            proof {
                assert(edge_wf(self.edges@[last_idx as int]));
            }
            let rmax = self.edges[last_idx].node.maximum();
            match rmax {
                Some(kv) => {
                    proof {
                        let e0 = self.edges@[last_idx as int];
                        let c = child_of(e0);
                        let p0 = c.prefix@;
                        let rkc = choose|rk: Seq<u8>|
                            #[trigger] is_lex_max(node_map(c), rk) && cloned(node_map(c)[rk], kv.1)
                                && (forall|p: Seq<u8>|
                                #[trigger] keys_wf(c, p) ==> kv.0@ == p + rk);
                        let rk = p0 + rkc;
                        lemma_add_prefix_get(p0, node_map(c), rkc);
                        assert(rk[0] == e0.label);
                        lemma_node_map_step(*self, last_idx as int, rk);
                        assert(p0.is_prefix_of(rk)) by {
                            assert(rk.take(p0.len() as int) =~= p0);
                        }
                        assert(rk.skip(p0.len() as int) =~= rkc);
                        assert(node_map(*self).contains_key(rk));
                        assert(node_map(*self)[rk] == node_map(c)[rkc]);
                        assert forall|j: Seq<u8>|
                            node_map(*self).contains_key(j) implies lex_leq(j, rk) by {
                            if j.len() > 0 {
                                lemma_edges_map_char(self.edges@, j);
                                assert(!leaf_entry(*self).contains_key(j) || j
                                    =~= Seq::<u8>::empty());
                                if edges_map(self.edges@).contains_key(j) {
                                    let w = choose|i: int|
                                        0 <= i < self.edges@.len() && #[trigger] edge_map(
                                            self.edges@[i],
                                        ).contains_key(j);
                                    lemma_edge_map_key(self.edges@[w], j);
                                    if w == last_idx as int {
                                        let j2 = j.skip(p0.len() as int);
                                        assert(j =~= p0 + j2);
                                        assert(node_map(c).contains_key(j2));
                                        assert(lex_leq(j2, rkc));
                                        lemma_lex_translate(p0, j2, rkc);
                                    } else {
                                        assert(self.edges@[w].label < self.edges@[last_idx as int].label);
                                        lemma_lex_first_byte(j, rk);
                                    }
                                }
                            }
                        }
                        assert(is_lex_max(node_map(*self), rk));
                        assert forall|p: Seq<u8>| #[trigger] keys_wf(*self, p) implies kv.0@ == p
                            + rk by {
                            assert(keys_wf(c, p + p0));
                            assert(kv.0@ == (p + p0) + rkc);
                            assert((p + p0) + rkc =~= p + rk);
                        }
                    }
                    Some(kv)
                },
                None => {
                    proof {
                        lemma_settled_nonempty(child_of(self.edges@[last_idx as int]));
                    }
                    unreached()
                },
            }
        } else {
            match &self.leaf {
                Some(l) => {
                    proof {
                        lemma_node_map_empty_key(*self);
                        lemma_leaf_only_node(*self);
                        let e: Seq<u8> = Seq::empty();
                        assert forall|j: Seq<u8>|
                            node_map(*self).contains_key(j) implies lex_leq(j, e) by {
                            assert(j =~= e);
                        }
                        assert(is_lex_max(node_map(*self), e));
                        assert forall|p: Seq<u8>| #[trigger] keys_wf(*self, p) implies l.key@ == p
                            + e by {
                            assert(p + e =~= p);
                        }
                    }
                    Some((copy_bytes(l.key.as_slice()), l.value.clone()))
                },
                None => {
                    proof {
                        lemma_leaf_only_node(*self);
                    }
                    None
                },
            }
        }
    }
}

impl<V: Clone> Node<V> {
    /// Returns the stored pair whose key is the longest stored prefix of
    /// the given key, walking the subtree below this node; the given key is
    /// relative to this node. The returned key is the full stored key.
    pub fn longest_prefix(&self, key: &[u8]) -> (r: Option<(Vec<u8>, V)>)
        requires
            node_wf(*self),
        ensures
            match r {
                Some(kv) => exists|rk: Seq<u8>|
                    {
                        &&& #[trigger] node_map(*self).contains_key(rk)
                        &&& rk.is_prefix_of(key@)
                        &&& forall|j: Seq<u8>|
                            node_map(*self).contains_key(j) && #[trigger] j.is_prefix_of(key@)
                                ==> j.len() <= rk.len()
                        &&& cloned(node_map(*self)[rk], kv.1)
                        &&& forall|p: Seq<u8>| #[trigger] keys_wf(*self, p) ==> kv.0@ == p + rk
                    },
                None => forall|j: Seq<u8>|
                    node_map(*self).contains_key(j) ==> !(#[trigger] j.is_prefix_of(key@)),
            },
        decreases *self,
    {
        // Walk towards the deepest stored key along the path first; fall
        // back to this node\'s own leaf when nothing deeper matches.
        if key.len() > 0 {
            match self.get_edge(key[0]) {
                Some((idx, child)) => {
                    let ghost e0 = self.edges@[idx as int];
                    let ghost c = child_of(e0);
                    proof {
                        assert(edge_wf(e0));
                        assert(c == rc_node(&child));
                    }
                    if is_bytes_prefix(child.prefix.as_slice(), key) {
                        let plen = child.prefix.len();
                        let rest = vstd::slice::slice_subrange(key, plen, key.len());
                        proof {
                            assert(rest@ =~= key@.skip(c.prefix@.len() as int));
                        }
                        let deeper = child.longest_prefix(rest);
                        match deeper {
                            Some(kv) => {
                                proof {
                                    let p0 = c.prefix@;
                                    let rkc = choose|rk: Seq<u8>|
                                        {
                                            &&& #[trigger] node_map(c).contains_key(rk)
                                            &&& rk.is_prefix_of(rest@)
                                            &&& forall|j: Seq<u8>|
                                                node_map(c).contains_key(j)
                                                    && #[trigger] j.is_prefix_of(rest@) ==> j.len()
                                                    <= rk.len()
                                            &&& cloned(node_map(c)[rk], kv.1)
                                            &&& forall|p: Seq<u8>|
                                                #[trigger] keys_wf(c, p) ==> kv.0@ == p + rk
                                        };
                                    let rk = p0 + rkc;
                                    lemma_add_prefix_get(p0, node_map(c), rkc);
                                    assert(rk[0] == e0.label);
                                    lemma_node_map_step(*self, idx as int, rk);
                                    assert(p0.is_prefix_of(rk)) by {
                                        assert(rk.take(p0.len() as int) =~= p0);
                                    }
                                    assert(rk.skip(p0.len() as int) =~= rkc);
                                    assert(node_map(*self).contains_key(rk));
                                    assert(node_map(*self)[rk] == node_map(c)[rkc]);
                                    assert(rk.is_prefix_of(key@)) by {
                                        assert(key@ =~= p0 + rest@);
                                        assert(key@.take(rk.len() as int) =~= rk) by {
                                            assert(rest@.take(rkc.len() as int) =~= rkc);
                                        }
                                    }
                                    assert forall|j: Seq<u8>|
                                        node_map(*self).contains_key(j) && #[trigger] j.is_prefix_of(
                                            key@,
                                        ) implies j.len() <= rk.len() by {
                                        if j.len() > 0 {
                                            assert(j[0] == key@[0]) by {
                                                assert(key@.take(j.len() as int)[0] == key@[0]);
                                            }
                                            lemma_node_map_step(*self, idx as int, j);
                                            let j2 = j.skip(p0.len() as int);
                                            assert(node_map(c).contains_key(j2));
                                            assert(j2.is_prefix_of(rest@)) by {
                                                assert(j =~= p0 + j2);
                                                assert(key@ =~= p0 + rest@);
                                                assert(rest@.take(j2.len() as int) =~= j2) by {
                                                    assert(key@.take(j.len() as int) =~= j);
                                                    assert forall|t: int| 0 <= t < j2.len() implies
                                                        rest@[t] == j2[t] by {
                                                        assert(key@[p0.len() + t] == j[p0.len() + t]);
                                                    }
                                                }
                                            }
                                            assert(j2.len() <= rkc.len());
                                        }
                                    }
                                    assert forall|p: Seq<u8>| #[trigger] keys_wf(*self, p)
                                        implies kv.0@ == p + rk by {
                                        assert(keys_wf(c, p + p0));
                                        assert(kv.0@ == (p + p0) + rkc);
                                        assert((p + p0) + rkc =~= p + rk);
                                    }
                                }
                                return Some(kv);
                            },
                            None => {
                                proof {
                                    assert forall|j: Seq<u8>|
                                        node_map(*self).contains_key(j) && #[trigger] j.is_prefix_of(
                                            key@,
                                        ) implies j.len() == 0 by {
                                        if j.len() > 0 {
                                            assert(j[0] == key@[0]) by {
                                                assert(key@.take(j.len() as int)[0] == key@[0]);
                                            }
                                            lemma_node_map_step(*self, idx as int, j);
                                            let j2 = j.skip(c.prefix@.len() as int);
                                            assert(node_map(c).contains_key(j2));
                                            assert(j2.is_prefix_of(rest@)) by {
                                                assert(j =~= c.prefix@ + j2);
                                                assert(key@ =~= c.prefix@ + rest@);
                                                assert(rest@.take(j2.len() as int) =~= j2) by {
                                                    assert(key@.take(j.len() as int) =~= j);
                                                    assert forall|t: int| 0 <= t < j2.len() implies
                                                        rest@[t] == j2[t] by {
                                                        assert(key@[c.prefix@.len() + t] == j[c.prefix@.len() + t]);
                                                    }
                                                }
                                            }
                                        }
                                    }
                                }
                            },
                        }
                    } else {
                        proof {
                            assert forall|j: Seq<u8>|
                                node_map(*self).contains_key(j) && #[trigger] j.is_prefix_of(key@)
                                implies j.len() == 0 by {
                                if j.len() > 0 {
                                    assert(j[0] == key@[0]) by {
                                        assert(key@.take(j.len() as int)[0] == key@[0]);
                                    }
                                    lemma_node_map_step(*self, idx as int, j);
                                    assert(c.prefix@.is_prefix_of(j));
                                    assert(c.prefix@.is_prefix_of(key@)) by {
                                        assert(key@.take(c.prefix@.len() as int) =~= c.prefix@) by {
                                            assert(j.take(c.prefix@.len() as int) =~= c.prefix@);
                                            assert(key@.take(j.len() as int) =~= j);
                                            assert forall|t: int| 0 <= t < c.prefix@.len() implies
                                                key@[t] == c.prefix@[t] by {
                                                assert(j[t] == key@[t]);
                                            }
                                        }
                                    }
                                }
                            }
                        }
                    }
                },
                None => {
                    proof {
                        assert forall|j: Seq<u8>|
                            node_map(*self).contains_key(j) && #[trigger] j.is_prefix_of(key@)
                            implies j.len() == 0 by {
                            if j.len() > 0 {
                                assert(j[0] == key@[0]) by {
                                    assert(key@.take(j.len() as int)[0] == key@[0]);
                                }
                                lemma_node_map_no_edge(*self, j);
                            }
                        }
                    }
                },
            }
        }
        // No deeper stored key matches: every candidate is this node\'s own
        // leaf (the empty relative key), if present.
        proof {
            assert forall|j: Seq<u8>|
                node_map(*self).contains_key(j) && #[trigger] j.is_prefix_of(key@) implies j.len()
                == 0 by {
                if key@.len() == 0 {
                    assert(j.len() <= key@.len());
                }
            }
            lemma_node_map_empty_key(*self);
        }
        match &self.leaf {
            Some(l) => {
                proof {
                    let e: Seq<u8> = Seq::empty();
                    assert(node_map(*self).contains_key(e));
                    assert(e.is_prefix_of(key@)) by {
                        assert(e =~= key@.take(0));
                    }
                    assert forall|p: Seq<u8>| #[trigger] keys_wf(*self, p) implies l.key@ == p
                        + e by {
                        assert(p + e =~= p);
                    }
                }
                Some((copy_bytes(l.key.as_slice()), l.value.clone()))
            },
            None => {
                proof {
                    assert forall|j: Seq<u8>|
                        node_map(*self).contains_key(j) implies !(#[trigger] j.is_prefix_of(
                        key@,
                    )) by {
                        if j.is_prefix_of(key@) {
                            assert(j.len() == 0);
                            assert(j =~= Seq::<u8>::empty());
                        }
                    }
                }
                None
            },
        }
    }
}

} // verus!
