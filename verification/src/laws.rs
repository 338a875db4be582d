//! The laws of the tree, stated over its model.
//!
//! Every public operation speaks about the view of a tree or transaction:
//! a finite map from byte keys to values (`insert` yields `view.insert`,
//! `delete` yields `view.remove`, `delete_prefix` yields
//! [`remove_prefixed`]). The lemmas here pin down what those map
//! operations mean for callers, so the behavioural guarantees follow from
//! the operations' contracts by one lemma application.
//!
//! Persistence is structural rather than stated: a [`crate::tree::Tree`]
//! is an immutable value that no operation takes by mutable reference.
//! Mutating a transaction changes the transaction alone, and committing
//! builds a new tree; the view of every previously obtained tree is a
//! fixed map, so lookups on it answer as they always did.

use crate::model::{node_wf, remove_prefixed};
use crate::node::Node;
use crate::transaction::Txn;
use crate::tree::Tree;
use vstd::prelude::*;

verus! {

/// Round trip: after inserting `(k, v)`, the view maps `k` to `v`.
/// `insert` ensures the new view is `old.insert(k, v)`, and `get` returns
/// (a clone of) the viewed value, so reading `k` back yields `v`.
pub proof fn lemma_insert_get_round_trip<V>(m: Map<Seq<u8>, V>, k: Seq<u8>, v: V)
    ensures
        m.insert(k, v).contains_key(k),
        m.insert(k, v)[k] == v,
{
}

/// Update semantics: inserting an existing key does not change the number
/// of stored keys; inserting a new key grows it by one. (That `insert`
/// returns the previous value exactly when the key was present is part of
/// its own contract.)
pub proof fn lemma_update_semantics<V>(m: Map<Seq<u8>, V>, k: Seq<u8>, v: V)
    requires
        m.dom().finite(),
    ensures
        m.contains_key(k) ==> m.insert(k, v).dom().len() == m.dom().len(),
        !m.contains_key(k) ==> m.insert(k, v).dom().len() == m.dom().len() + 1,
{
    assert(m.insert(k, v).dom() =~= m.dom().insert(k));
    if m.contains_key(k) {
        assert(m.dom().insert(k) =~= m.dom());
    }
}

/// Delete semantics: deleting a present key shrinks the key count by one,
/// and a second delete of the same key finds nothing and changes nothing.
/// (That `delete` returns the removed value exactly when the key was
/// present is part of its own contract.)
pub proof fn lemma_delete_semantics<V>(m: Map<Seq<u8>, V>, k: Seq<u8>)
    requires
        m.dom().finite(),
    ensures
        m.contains_key(k) ==> m.remove(k).dom().len() + 1 == m.dom().len(),
        !m.remove(k).contains_key(k),
        m.remove(k).remove(k) == m.remove(k),
{
    if m.contains_key(k) {
        m.lemma_remove_key_len(k);
    }
    assert(m.remove(k).remove(k) =~= m.remove(k));
}

/// Prefix deletion is exact: it removes precisely the stored keys that
/// start with the prefix, keeps every other binding unchanged, and, when
/// no stored key has the prefix, changes nothing at all. (That
/// `delete_prefix` reports `true` exactly when some stored key had the
/// prefix is part of its own contract.)
pub proof fn lemma_prefix_deletion_exact<V>(m: Map<Seq<u8>, V>, p: Seq<u8>, k: Seq<u8>)
    ensures
        remove_prefixed(m, p).contains_key(k) <==> (m.contains_key(k) && !p.is_prefix_of(k)),
        remove_prefixed(m, p).contains_key(k) ==> remove_prefixed(m, p)[k] == m[k],
        (forall|j: Seq<u8>| m.contains_key(j) ==> !(#[trigger] p.is_prefix_of(j)))
            ==> remove_prefixed(m, p) == m,
{
    if forall|j: Seq<u8>| m.contains_key(j) ==> !(#[trigger] p.is_prefix_of(j)) {
        assert(remove_prefixed(m, p) =~= m);
    }
}

/// Structural invariant: every reachable tree is well-formed. Since
/// constructors establish `wf` and every operation preserves it, after any
/// sequence of inserts, deletes and commits the root satisfies
/// [`node_wf`]: edges are strictly sorted by distinct labels and every
/// non-root node either holds a leaf or branches into at least two edges —
/// no non-root internal node has exactly one edge and no leaf.
pub proof fn lemma_structural_invariant<V>(t: Tree<V>)
    requires
        t.wf(),
    ensures
        node_wf(t.spec_root()),
        t.spec_root().prefix@.len() == 0,
{
    t.lemma_wf_root();
}

/// The structural invariant, for a transaction's working root: it holds
/// in every intermediate state as well, not only in committed trees.
pub proof fn lemma_structural_invariant_txn<V>(t: Txn<V>)
    requires
        t.wf(),
    ensures
        node_wf(t.spec_root()),
        t.spec_root().prefix@.len() == 0,
{
    t.lemma_wf_root();
}

/// What `node_wf` says one level down, spelled out: every child of a
/// well-formed node is settled (it has a leaf or at least two edges), is
/// itself well-formed, and carries a non-empty prefix starting with its
/// edge's label.
pub proof fn lemma_children_settled<V>(n: Node<V>, i: int)
    requires
        node_wf(n),
        0 <= i < n.edges@.len(),
    ensures
        crate::model::settled(crate::model::child_of(n.edges@[i])),
        node_wf(crate::model::child_of(n.edges@[i])),
        n.edges@[i].node.prefix@.len() > 0,
        n.edges@[i].node.prefix@[0] == n.edges@[i].label,
{
    assert(crate::model::edge_wf(n.edges@[i]));
}

} // verus!
