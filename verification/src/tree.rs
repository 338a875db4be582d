//! Immutable radix-tree snapshots.
//!
//! A [`Tree`] is an immutable value: once built, no operation mutates it.
//! The convenience mutators return a fresh tree and leave the receiver as
//! it was, sharing all untouched nodes with it; batched mutation goes
//! through [`crate::transaction::Txn`].

use crate::model::{keys_wf, lemma_node_size_card, node_map, node_wf, rc_node, remove_prefixed};
use crate::node::Node;
use crate::transaction::Txn;
use std::rc::Rc;
use vstd::prelude::*;

verus! {

/// An immutable radix-tree snapshot: a root node plus the number of stored
/// keys.
pub struct Tree<V> {
    pub(crate) root: Rc<Node<V>>,
    pub(crate) size: usize,
}

impl<V> View for Tree<V> {
    type V = Map<Seq<u8>, V>;

    closed spec fn view(&self) -> Map<Seq<u8>, V> {
        node_map(*self.root)
    }
}

impl<V> Tree<V> {
    /// The tree's root node, as a spec value.
    pub closed spec fn spec_root(self) -> Node<V> {
        *self.root
    }

    /// Well-formedness: the root is a structurally well-formed radix tree
    /// with an empty prefix, every stored leaf records its full key, and
    /// the stored size equals the number of stored keys.
    pub closed spec fn wf(self) -> bool {
        &&& node_wf(*self.root)
        &&& self.root.prefix@.len() == 0
        &&& keys_wf(*self.root, Seq::empty())
        &&& self.size == node_map(*self.root).dom().len()
    }

    /// The stated well-formedness, spelled over the public model: what
    /// `wf` guarantees about the root node a caller can observe.
    pub proof fn lemma_wf_root(self)
        requires
            self.wf(),
        ensures
            node_wf(self.spec_root()),
            keys_wf(self.spec_root(), Seq::empty()),
            self.spec_root().prefix@.len() == 0,
            self@ == node_map(self.spec_root()),
            self@.dom().finite(),
    {
        lemma_node_size_card(rc_node(&self.root));
    }

    /// Builds a tree from a root and its key count.
    pub(crate) fn make(root: Rc<Node<V>>, size: usize) -> (t: Tree<V>)
        requires
            node_wf(*root),
            root.prefix@.len() == 0,
            keys_wf(*root, Seq::empty()),
            size == node_map(*root).dom().len(),
        ensures
            t.wf(),
            t@ == node_map(*root),
            t.spec_root() == *root,
    {
        Tree { root, size }
    }

    /// Creates a new empty tree.
    pub fn new() -> (t: Tree<V>)
        ensures
            t.wf(),
            t@ == Map::<Seq<u8>, V>::empty(),
    {
        let root = Node::empty();
        proof {
            crate::model::lemma_leaf_only_node(root);
            assert(node_map(root).dom() =~= Set::<Seq<u8>>::empty());
        }
        Tree { root: Rc::new(root), size: 0 }
    }

    /// The number of keys stored in the tree.
    pub fn len(&self) -> (r: usize)
        requires
            self.wf(),
        ensures
            r == self@.dom().len(),
    {
        self.size
    }

    /// The tree's root node, for read-only queries.
    pub fn root(&self) -> (r: Rc<Node<V>>)
        ensures
            *r == self.spec_root(),
    {
        self.root.clone()
    }

    /// Opens a transaction bound to this snapshot. Mutations staged in the
    /// transaction never affect this tree.
    pub fn start_transaction(&self) -> (txn: Txn<V>)
        requires
            self.wf(),
        ensures
            txn.wf(),
            txn@ == self@,
    {
        Txn::make(self.root.clone(), self.size)
    }
}

impl<V: Clone> Tree<V> {
    /// Returns (a clone of) the value stored under the given key.
    pub fn get(&self, key: &[u8]) -> (r: Option<V>)
        requires
            self.wf(),
        ensures
            match r {
                Some(v) => self@.contains_key(key@) && cloned(self@[key@], v),
                None => !self@.contains_key(key@),
            },
    {
        self.root.get(key)
    }

    /// Returns a new tree with the key added or updated, together with the
    /// previously stored value, if any. This tree is unchanged.
    pub fn insert(&self, key: &[u8], value: V) -> (r: (Tree<V>, Option<V>))
        requires
            self.wf(),
            self@.dom().len() < usize::MAX,
        ensures
            r.0.wf(),
            r.0@ == self@.insert(key@, value),
            match r.1 {
                Some(v) => self@.contains_key(key@) && cloned(self@[key@], v),
                None => !self@.contains_key(key@),
            },
    {
        let mut txn = self.start_transaction();
        let old_value = txn.insert(key, value);
        let new_tree = txn.commit();
        (new_tree, old_value)
    }

    /// Returns a new tree with the key removed, together with the value it
    /// held, if any. This tree is unchanged.
    pub fn delete(&self, key: &[u8]) -> (r: (Tree<V>, Option<V>))
        requires
            self.wf(),
        ensures
            r.0.wf(),
            r.0@ == self@.remove(key@),
            match r.1 {
                Some(v) => self@.contains_key(key@) && cloned(self@[key@], v),
                None => !self@.contains_key(key@),
            },
    {
        let mut txn = self.start_transaction();
        let old_value = txn.delete(key);
        let new_tree = txn.commit();
        (new_tree, old_value)
    }

    /// Returns a new tree with every key below the given prefix removed,
    /// and whether any key was removed. This tree is unchanged.
    pub fn delete_prefix(&self, prefix: &[u8]) -> (r: (Tree<V>, bool))
        requires
            self.wf(),
        ensures
            r.0.wf(),
            r.0@ == remove_prefixed(self@, prefix@),
            r.1 == exists|k: Seq<u8>| #[trigger] self@.contains_key(k) && prefix@.is_prefix_of(k),
    {
        let mut txn = self.start_transaction();
        let has_deleted = txn.delete_prefix(prefix);
        let new_tree = txn.commit();
        (new_tree, has_deleted)
    }
}

} // verus!
