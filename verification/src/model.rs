//! The mathematical model of a radix tree.
//!
//! A node denotes a finite map from byte sequences to values: [`node_map`].
//! Keys are relative to the node, i.e. they are the bytes that remain to be
//! consumed *after* the node's own prefix. The empty key names the node's
//! own leaf; every other key runs through exactly one edge.
//!
//! [`node_wf`] is the structural invariant (edges strictly sorted by label,
//! each child's prefix non-empty and starting with the edge label, every
//! child settled), and [`keys_wf`] ties the full key stored in each leaf to
//! the path on which the leaf is reached.

use crate::node::{Edge, Node, edges_sorted};
use vstd::prelude::*;

verus! {

/// The map `m` with every key prepended by `p`.
pub open spec fn add_prefix<V>(p: Seq<u8>, m: Map<Seq<u8>, V>) -> Map<Seq<u8>, V> {
    Map::new(
        |k: Seq<u8>|
            k.len() >= p.len() && k.take(p.len() as int) == p && m.contains_key(
                k.skip(p.len() as int),
            ),
        |k: Seq<u8>| m[k.skip(p.len() as int)],
    )
}

/// The (at most one) entry contributed by the node's own leaf: the empty
/// relative key mapped to the leaf's value.
pub open spec fn leaf_entry<V>(n: Node<V>) -> Map<Seq<u8>, V> {
    match n.leaf {
        Some(l) => Map::empty().insert(Seq::empty(), l.value),
        None => Map::empty(),
    }
}

/// The child node of an edge, as a spec value.
pub open spec fn child_of<V>(e: Edge<V>) -> Node<V> {
    *e.node
}

/// The node behind a reference-counted pointer, as a spec value.
pub open spec fn rc_node<V>(rc: &std::rc::Rc<Node<V>>) -> Node<V> {
    **rc
}

/// The entries contributed by one edge: the child's map, with the child's
/// prefix prepended to every key.
pub open spec fn edge_map<V>(e: Edge<V>) -> Map<Seq<u8>, V>
    decreases e,
{
    add_prefix(e.node.prefix@, node_map(*e.node))
}

/// The entries contributed by a sequence of edges.
pub open spec fn edges_map<V>(es: Seq<Edge<V>>) -> Map<Seq<u8>, V>
    decreases es,
{
    if es.len() == 0 {
        Map::empty()
    } else {
        edges_map(es.drop_last()).union_prefer_right(edge_map(es.last()))
    }
}

/// The finite map denoted by a node, with keys relative to the node (the
/// node's own prefix is not part of them).
pub open spec fn node_map<V>(n: Node<V>) -> Map<Seq<u8>, V>
    decreases n,
{
    edges_map(n.edges@).union_prefer_right(leaf_entry(n))
}

/// A settled node terminates a stored key or branches: it has a leaf or at
/// least two edges. After any complete mutation, every non-root node is
/// settled.
pub open spec fn settled<V>(n: Node<V>) -> bool {
    n.leaf is Some || n.edges@.len() >= 2
}

/// Well-formedness of one edge: the child's prefix is non-empty and starts
/// with the edge's label, and the child is a settled, well-formed node.
pub open spec fn edge_wf<V>(e: Edge<V>) -> bool
    decreases e,
{
    e.node.prefix@.len() > 0 && e.node.prefix@[0] == e.label && settled(*e.node) && node_wf(
        *e.node,
    )
}

/// Structural well-formedness of a node: edges strictly sorted by label and
/// every edge well-formed. The node's own prefix and settledness are not
/// constrained, so this applies to the root as well as to nodes in the
/// middle of a mutation.
pub open spec fn node_wf<V>(n: Node<V>) -> bool
    decreases n,
{
    edges_sorted(n.edges@) && forall|i: int|
        0 <= i < n.edges@.len() ==> edge_wf(#[trigger] n.edges@[i])
}

/// The stored key of every leaf below `n` equals the full path on which the
/// leaf is reached, where `path` is the concatenation of all prefixes
/// consumed to arrive at `n` (including `n`'s own prefix).
pub open spec fn keys_wf<V>(n: Node<V>, path: Seq<u8>) -> bool
    decreases n,
{
    (match n.leaf {
        Some(l) => l.key@ == path,
        None => true,
    }) && forall|i: int|
        0 <= i < n.edges@.len() ==> keys_wf(
            *(#[trigger] n.edges@[i]).node,
            path + n.edges@[i].node.prefix@,
        )
}

/// Membership and lookup in `add_prefix(p, m)`, in both directions.
pub broadcast proof fn lemma_add_prefix_contains<V>(p: Seq<u8>, m: Map<Seq<u8>, V>, k: Seq<u8>)
    ensures
        #[trigger] add_prefix(p, m).contains_key(k) <==> (k.len() >= p.len() && k.take(
            p.len() as int,
        ) == p && m.contains_key(k.skip(p.len() as int))),
        add_prefix(p, m).contains_key(k) ==> add_prefix(p, m)[k] == m[k.skip(p.len() as int)],
{
}

/// Membership and lookup in `add_prefix(p, m)` at a key written `p + k`.
pub broadcast proof fn lemma_add_prefix_get<V>(p: Seq<u8>, m: Map<Seq<u8>, V>, k: Seq<u8>)
    ensures
        #[trigger] add_prefix(p, m).contains_key(p + k) <==> m.contains_key(k),
        m.contains_key(k) ==> add_prefix(p, m)[p + k] == m[k],
{
    assert((p + k).take(p.len() as int) =~= p);
    assert((p + k).skip(p.len() as int) =~= k);
}

/// Every key of `edge_map(e)` starts with the child's prefix, hence (when
/// the edge is well-formed) with the edge's label.
pub proof fn lemma_edge_map_key<V>(e: Edge<V>, k: Seq<u8>)
    requires
        edge_map(e).contains_key(k),
        e.node.prefix@.len() > 0,
        e.node.prefix@[0] == e.label,
    ensures
        k.len() > 0,
        k[0] == e.label,
        e.node.prefix@.is_prefix_of(k),
        node_map(*e.node).contains_key(k.skip(e.node.prefix@.len() as int)),
        edge_map(e)[k] == node_map(*e.node)[k.skip(e.node.prefix@.len() as int)],
{
    let p = e.node.prefix@;
    lemma_add_prefix_contains(p, node_map(child_of(e)), k);
    assert(k[0] == k.take(p.len() as int)[0]);
}

/// Labels and child prefixes agree as `node_wf` requires, for each edge.
pub open spec fn edges_shallow_wf<V>(es: Seq<Edge<V>>) -> bool {
    edges_sorted(es) && forall|i: int|
        0 <= i < es.len() ==> (#[trigger] es[i]).node.prefix@.len() > 0 && es[i].node.prefix@[0]
            == es[i].label
}

/// Characterization of `edges_map`: a key is present exactly when some edge
/// contributes it, and then the value is that edge's; distinct labels make
/// the contributing edge unique.
pub proof fn lemma_edges_map_char<V>(es: Seq<Edge<V>>, k: Seq<u8>)
    requires
        edges_shallow_wf(es),
    ensures
        edges_map(es).contains_key(k) <==> exists|i: int|
            0 <= i < es.len() && #[trigger] edge_map(es[i]).contains_key(k),
        forall|i: int|
            0 <= i < es.len() && #[trigger] edge_map(es[i]).contains_key(k) ==> edges_map(es)[k]
                == edge_map(es[i])[k],
    decreases es.len(),
{
    if es.len() == 0 {
    } else {
        let es0 = es.drop_last();
        let last = es.last();
        assert(edges_shallow_wf(es0)) by {
            assert(forall|i: int| 0 <= i < es0.len() ==> es0[i] == es[i]);
        }
        lemma_edges_map_char(es0, k);
        assert(edges_map(es) == edges_map(es0).union_prefer_right(edge_map(last)));
        if edge_map(last).contains_key(k) {
            assert(edge_map(es[es.len() - 1]).contains_key(k));
            lemma_edge_map_key(last, k);
            assert forall|i: int|
                0 <= i < es.len() && #[trigger] edge_map(es[i]).contains_key(k) implies edges_map(
                es,
            )[k] == edge_map(es[i])[k] by {
                if i < es.len() - 1 {
                    lemma_edge_map_key(es[i], k);
                    assert(es[i].label == last.label);
                    assert(false);
                }
            }
        } else {
            assert forall|i: int|
                0 <= i < es.len() && #[trigger] edge_map(es[i]).contains_key(k) implies edges_map(
                es,
            )[k] == edge_map(es[i])[k] by {
                assert(i < es.len() - 1);
                assert(es0[i] == es[i]);
            }
            assert(edges_map(es).contains_key(k) <==> edges_map(es0).contains_key(k));
            if edges_map(es0).contains_key(k) {
                let w = choose|i: int|
                    0 <= i < es0.len() && #[trigger] edge_map(es0[i]).contains_key(k);
                assert(edge_map(es[w]).contains_key(k));
            }
            if exists|i: int| 0 <= i < es.len() && #[trigger] edge_map(es[i]).contains_key(k) {
                let w = choose|i: int|
                    0 <= i < es.len() && #[trigger] edge_map(es[i]).contains_key(k);
                assert(w < es.len() - 1);
                assert(edge_map(es0[w]).contains_key(k));
                assert(edges_map(es0).contains_key(k));
            }
        }
    }
}

/// The empty relative key is present exactly when the node has a leaf, and
/// then it maps to the leaf's value.
pub proof fn lemma_node_map_empty_key<V>(n: Node<V>)
    requires
        node_wf(n),
    ensures
        node_map(n).contains_key(Seq::empty()) <==> n.leaf is Some,
        match n.leaf {
            Some(l) => node_map(n)[Seq::empty()] == l.value,
            None => true,
        },
{
    lemma_edges_map_char(n.edges@, Seq::empty());
    if exists|i: int|
        0 <= i < n.edges@.len() && #[trigger] edge_map(n.edges@[i]).contains_key(
            Seq::<u8>::empty(),
        ) {
        let w = choose|i: int|
            0 <= i < n.edges@.len() && #[trigger] edge_map(n.edges@[i]).contains_key(
                Seq::<u8>::empty(),
            );
        lemma_edge_map_key(n.edges@[w], Seq::empty());
    }
}

/// A non-empty relative key is present exactly when the (unique) edge
/// carrying its first byte leads to a child that contains the rest.
pub proof fn lemma_node_map_step<V>(n: Node<V>, i: int, k: Seq<u8>)
    requires
        node_wf(n),
        0 <= i < n.edges@.len(),
        k.len() > 0,
        n.edges@[i].label == k[0],
    ensures
        node_map(n).contains_key(k) <==> (n.edges@[i].node.prefix@.is_prefix_of(k) && node_map(
            *n.edges@[i].node,
        ).contains_key(k.skip(n.edges@[i].node.prefix@.len() as int))),
        node_map(n).contains_key(k) ==> node_map(n)[k] == node_map(*n.edges@[i].node)[k.skip(
            n.edges@[i].node.prefix@.len() as int,
        )],
{
    let e = n.edges@[i];
    let p = e.node.prefix@;
    lemma_edges_map_char(n.edges@, k);
    assert(!leaf_entry(n).contains_key(k));
    lemma_add_prefix_contains(p, node_map(child_of(e)), k);
    if p.is_prefix_of(k) && node_map(child_of(e)).contains_key(k.skip(p.len() as int)) {
        assert(k.take(p.len() as int) =~= p);
        assert(edge_map(e).contains_key(k));
        assert(node_map(n).contains_key(k));
        assert(node_map(n)[k] == edges_map(n.edges@)[k]);
    }
    if node_map(n).contains_key(k) {
        let w = choose|j: int|
            0 <= j < n.edges@.len() && #[trigger] edge_map(n.edges@[j]).contains_key(k);
        lemma_edge_map_key(n.edges@[w], k);
        assert(n.edges@[w].label == k[0]);
        assert(w == i) by {
            if w < i {
                assert(n.edges@[w].label < n.edges@[i].label);
            } else if i < w {
                assert(n.edges@[i].label < n.edges@[w].label);
            }
        }
        lemma_edge_map_key(e, k);
    }
}

/// A non-empty relative key whose first byte labels no edge is absent.
pub proof fn lemma_node_map_no_edge<V>(n: Node<V>, k: Seq<u8>)
    requires
        node_wf(n),
        k.len() > 0,
        forall|i: int| 0 <= i < n.edges@.len() ==> (#[trigger] n.edges@[i]).label != k[0],
    ensures
        !node_map(n).contains_key(k),
{
    lemma_edges_map_char(n.edges@, k);
    if edges_map(n.edges@).contains_key(k) {
        let w = choose|i: int|
            0 <= i < n.edges@.len() && #[trigger] edge_map(n.edges@[i]).contains_key(k);
        lemma_edge_map_key(n.edges@[w], k);
    }
    assert(!leaf_entry(n).contains_key(k));
}

/// `add_prefix` of the empty map is empty.
pub proof fn lemma_add_prefix_empty<V>(p: Seq<u8>)
    ensures
        add_prefix(p, Map::<Seq<u8>, V>::empty()) =~= Map::<Seq<u8>, V>::empty(),
{
}

/// `add_prefix` commutes with insertion: prepending after inserting `k`
/// equals inserting `p + k` after prepending.
pub proof fn lemma_add_prefix_insert<V>(p: Seq<u8>, m: Map<Seq<u8>, V>, k: Seq<u8>, v: V)
    ensures
        add_prefix(p, m.insert(k, v)) =~= add_prefix(p, m).insert(p + k, v),
{
    lemma_add_prefix_get(p, m, k);
    lemma_add_prefix_get(p, m.insert(k, v), k);
    assert forall|j: Seq<u8>| true implies #[trigger] add_prefix(p, m.insert(k, v)).contains_key(j)
        == add_prefix(p, m).insert(p + k, v).contains_key(j) by {
        lemma_add_prefix_contains(p, m, j);
        lemma_add_prefix_contains(p, m.insert(k, v), j);
        if j.len() >= p.len() && j.take(p.len() as int) == p {
            assert(j =~= p + j.skip(p.len() as int));
        }
    }
    assert forall|j: Seq<u8>| add_prefix(p, m.insert(k, v)).contains_key(j) implies add_prefix(
        p,
        m.insert(k, v),
    )[j] == add_prefix(p, m).insert(p + k, v)[j] by {
        lemma_add_prefix_contains(p, m, j);
        lemma_add_prefix_contains(p, m.insert(k, v), j);
        if j.len() >= p.len() && j.take(p.len() as int) == p {
            assert(j =~= p + j.skip(p.len() as int));
        }
    }
}

/// `add_prefix` commutes with removal.
pub proof fn lemma_add_prefix_remove<V>(p: Seq<u8>, m: Map<Seq<u8>, V>, k: Seq<u8>)
    ensures
        add_prefix(p, m.remove(k)) =~= add_prefix(p, m).remove(p + k),
{
    assert forall|j: Seq<u8>| true implies #[trigger] add_prefix(p, m.remove(k)).contains_key(j)
        == add_prefix(p, m).remove(p + k).contains_key(j) by {
        lemma_add_prefix_contains(p, m, j);
        lemma_add_prefix_contains(p, m.remove(k), j);
        assert((p + k).skip(p.len() as int) =~= k);
        if j.len() >= p.len() && j.take(p.len() as int) == p {
            assert(j =~= p + j.skip(p.len() as int));
        }
    }
    assert forall|j: Seq<u8>| add_prefix(p, m.remove(k)).contains_key(j) implies add_prefix(
        p,
        m.remove(k),
    )[j] == add_prefix(p, m).remove(p + k)[j] by {
        lemma_add_prefix_contains(p, m, j);
        lemma_add_prefix_contains(p, m.remove(k), j);
        assert((p + k).skip(p.len() as int) =~= k);
        if j.len() >= p.len() && j.take(p.len() as int) == p {
            assert(j =~= p + j.skip(p.len() as int));
        }
    }
}

/// Composing two prefix prependings prepends the concatenated prefix.
pub proof fn lemma_add_prefix_concat<V>(p: Seq<u8>, q: Seq<u8>, m: Map<Seq<u8>, V>)
    ensures
        add_prefix(p, add_prefix(q, m)) =~= add_prefix(p + q, m),
{
    assert forall|j: Seq<u8>| true implies #[trigger] add_prefix(p, add_prefix(q, m)).contains_key(
        j,
    ) == add_prefix(p + q, m).contains_key(j) by {
        lemma_add_prefix_concat_key::<V>(p, q, m, j);
    }
    assert forall|j: Seq<u8>| add_prefix(p, add_prefix(q, m)).contains_key(j) implies add_prefix(
        p,
        add_prefix(q, m),
    )[j] == add_prefix(p + q, m)[j] by {
        lemma_add_prefix_concat_key::<V>(p, q, m, j);
    }
}

proof fn lemma_add_prefix_concat_key<V>(p: Seq<u8>, q: Seq<u8>, m: Map<Seq<u8>, V>, j: Seq<u8>)
    ensures
        add_prefix(p, add_prefix(q, m)).contains_key(j) == add_prefix(p + q, m).contains_key(j),
        add_prefix(p, add_prefix(q, m)).contains_key(j) ==> add_prefix(p, add_prefix(q, m))[j]
            == add_prefix(p + q, m)[j],
{
    lemma_add_prefix_contains(p, add_prefix(q, m), j);
    lemma_add_prefix_contains(p + q, m, j);
    if j.len() >= p.len() + q.len() {
        lemma_add_prefix_contains(q, m, j.skip(p.len() as int));
        assert(j.skip(p.len() as int).skip(q.len() as int) =~= j.skip(p.len() as int + q.len()));
        assert(j.take(p.len() as int + q.len()).take(p.len() as int) =~= j.take(p.len() as int));
        assert(j.take(p.len() as int + q.len()).skip(p.len() as int) =~= j.skip(
            p.len() as int,
        ).take(q.len() as int));
        if j.take(p.len() as int) == p && j.skip(p.len() as int).take(q.len() as int) == q {
            assert(j.take(p.len() as int + q.len()) =~= p + q);
        }
        if j.take(p.len() as int + q.len()) == p + q {
            assert((p + q).take(p.len() as int) =~= p);
            assert((p + q).skip(p.len() as int) =~= q);
        }
    } else if j.len() >= p.len() {
        lemma_add_prefix_contains(q, m, j.skip(p.len() as int));
    }
}

/// `node_map`, `node_wf` and `keys_wf` depend only on a node\'s leaf and
/// edges, not on its own prefix.
pub proof fn lemma_node_congruence<V>(a: Node<V>, b: Node<V>)
    requires
        a.edges@ == b.edges@,
        a.leaf == b.leaf,
    ensures
        node_map(a) == node_map(b),
        node_wf(a) == node_wf(b),
        forall|p: Seq<u8>| keys_wf(a, p) == keys_wf(b, p),
{
    assert(node_map(a) == node_map(b)) by {
        assert(leaf_entry(a) == leaf_entry(b));
    }
    assert forall|p: Seq<u8>| keys_wf(a, p) == #[trigger] keys_wf(b, p) by {
        assert(keys_wf(a, p) ==> keys_wf(b, p));
        assert(keys_wf(b, p) ==> keys_wf(a, p));
    }
}

/// The map of a node without edges holds at most the leaf entry.
pub proof fn lemma_leaf_only_node<V>(n: Node<V>)
    requires
        n.edges@.len() == 0,
    ensures
        match n.leaf {
            Some(l) => node_map(n) =~= Map::<Seq<u8>, V>::empty().insert(Seq::empty(), l.value),
            None => node_map(n) =~= Map::<Seq<u8>, V>::empty(),
        },
{
}

/// Replacing (or installing) the leaf of a node inserts the empty relative
/// key into its map.
pub proof fn lemma_leaf_update<V>(a: Node<V>, b: Node<V>, v: V)
    requires
        b.edges@ == a.edges@,
        b.leaf matches Some(l) && l.value == v,
    ensures
        node_map(b) =~= node_map(a).insert(Seq::empty(), v),
        node_wf(a) ==> node_wf(b),
{
    let e: Seq<u8> = Seq::empty();
    assert forall|k: Seq<u8>| true implies #[trigger] node_map(b).contains_key(k) == node_map(
        a,
    ).insert(e, v).contains_key(k) by {
        if k.len() == 0 {
            assert(k =~= e);
        }
    }
    assert forall|k: Seq<u8>| node_map(b).contains_key(k) implies node_map(b)[k] == node_map(
        a,
    ).insert(e, v)[k] by {
        if k.len() == 0 {
            assert(k =~= e);
        }
    }
}

/// Removing the leaf of a node removes the empty relative key from its map.
pub proof fn lemma_leaf_remove<V>(a: Node<V>, b: Node<V>)
    requires
        node_wf(a),
        b.edges@ == a.edges@,
        b.leaf is None,
    ensures
        node_map(b) =~= node_map(a).remove(Seq::empty()),
        node_wf(b),
{
    let e: Seq<u8> = Seq::empty();
    lemma_edges_map_char(a.edges@, e);
    if edges_map(a.edges@).contains_key(e) {
        let w = choose|i: int|
            0 <= i < a.edges@.len() && #[trigger] edge_map(a.edges@[i]).contains_key(e);
        lemma_edge_map_key(a.edges@[w], e);
    }
    assert forall|k: Seq<u8>| true implies #[trigger] node_map(b).contains_key(k) == node_map(
        a,
    ).remove(e).contains_key(k) by {
        if k.len() == 0 {
            assert(k =~= e);
        }
    }
}

/// True if `k` is non-empty and starts with the byte `l`.
pub open spec fn first_byte_is(k: Seq<u8>, l: u8) -> bool {
    k.len() > 0 && k[0] == l
}

/// Effect on `node_map` of replacing the child behind edge `i` (same
/// label): keys starting with that label are now answered by the new edge,
/// all other keys are untouched.
pub proof fn lemma_replace_edge_effect<V>(a: Node<V>, b: Node<V>, i: int)
    requires
        node_wf(a),
        b.leaf == a.leaf,
        0 <= i < a.edges@.len(),
        b.edges@.len() == a.edges@.len(),
        forall|j: int| 0 <= j < a.edges@.len() && j != i ==> b.edges@[j] == a.edges@[j],
        b.edges@[i].label == a.edges@[i].label,
        edge_wf(b.edges@[i]),
    ensures
        node_wf(b),
        forall|k: Seq<u8>| !first_byte_is(k, a.edges@[i].label) ==> (#[trigger] node_map(
            b,
        ).contains_key(k) == node_map(a).contains_key(k)) && (node_map(a).contains_key(k)
            ==> node_map(b)[k] == node_map(a)[k]),
        forall|k: Seq<u8>| first_byte_is(k, a.edges@[i].label) ==> (#[trigger] node_map(
            b,
        ).contains_key(k) == edge_map(b.edges@[i]).contains_key(k)) && (node_map(b).contains_key(k)
            ==> node_map(b)[k] == edge_map(b.edges@[i])[k]) && (node_map(a).contains_key(k)
            == edge_map(a.edges@[i]).contains_key(k)) && (node_map(a).contains_key(k)
            ==> node_map(a)[k] == edge_map(a.edges@[i])[k]),
{
    let lbl = a.edges@[i].label;
    assert(forall|j: int| 0 <= j < b.edges@.len() ==> (#[trigger] b.edges@[j]).label
        == a.edges@[j].label);
    assert(edges_sorted(b.edges@));
    assert(node_wf(b)) by {
        assert forall|j: int| 0 <= j < b.edges@.len() implies edge_wf(#[trigger] b.edges@[j]) by {
            if j != i {
                assert(b.edges@[j] == a.edges@[j]);
            }
        }
    }
    assert forall|k: Seq<u8>| !first_byte_is(k, lbl) implies (#[trigger] node_map(
        b,
    ).contains_key(k) == node_map(a).contains_key(k)) && (node_map(a).contains_key(k)
        ==> node_map(b)[k] == node_map(a)[k]) by {
        lemma_edges_map_char(a.edges@, k);
        lemma_edges_map_char(b.edges@, k);
        assert(leaf_entry(b) == leaf_entry(a));
        if edges_map(a.edges@).contains_key(k) {
            let w = choose|j: int|
                0 <= j < a.edges@.len() && #[trigger] edge_map(a.edges@[j]).contains_key(k);
            lemma_edge_map_key(a.edges@[w], k);
            assert(w != i);
            assert(edge_map(b.edges@[w]).contains_key(k));
            assert(edges_map(b.edges@)[k] == edge_map(b.edges@[w])[k]);
        }
        if edges_map(b.edges@).contains_key(k) {
            let w = choose|j: int|
                0 <= j < b.edges@.len() && #[trigger] edge_map(b.edges@[j]).contains_key(k);
            lemma_edge_map_key(b.edges@[w], k);
            assert(w != i);
            assert(edge_map(a.edges@[w]).contains_key(k));
        }
    }
    assert forall|k: Seq<u8>| first_byte_is(k, lbl) implies (#[trigger] node_map(b).contains_key(
        k,
    ) == edge_map(b.edges@[i]).contains_key(k)) && (node_map(b).contains_key(k) ==> node_map(b)[k]
        == edge_map(b.edges@[i])[k]) && (node_map(a).contains_key(k) == edge_map(
        a.edges@[i],
    ).contains_key(k)) && (node_map(a).contains_key(k) ==> node_map(a)[k] == edge_map(
        a.edges@[i],
    )[k]) by {
        lemma_edges_map_char(a.edges@, k);
        lemma_edges_map_char(b.edges@, k);
        assert(!leaf_entry(a).contains_key(k));
        assert(!leaf_entry(b).contains_key(k));
        if edges_map(a.edges@).contains_key(k) {
            let w = choose|j: int|
                0 <= j < a.edges@.len() && #[trigger] edge_map(a.edges@[j]).contains_key(k);
            lemma_edge_map_key(a.edges@[w], k);
            assert(w == i) by {
                if w < i {
                    assert(a.edges@[w].label < a.edges@[i].label);
                } else if w > i {
                    assert(a.edges@[i].label < a.edges@[w].label);
                }
            }
        }
        if edges_map(b.edges@).contains_key(k) {
            let w = choose|j: int|
                0 <= j < b.edges@.len() && #[trigger] edge_map(b.edges@[j]).contains_key(k);
            lemma_edge_map_key(b.edges@[w], k);
            assert(w == i) by {
                if w < i {
                    assert(b.edges@[w].label < b.edges@[i].label);
                } else if w > i {
                    assert(b.edges@[i].label < b.edges@[w].label);
                }
            }
        }
    }
}

/// Effect on `node_map` of deleting edge `i` outright: keys starting with
/// its label are gone, all other keys are untouched.
pub proof fn lemma_delete_edge_effect<V>(a: Node<V>, b: Node<V>, i: int)
    requires
        node_wf(a),
        b.leaf == a.leaf,
        0 <= i < a.edges@.len(),
        b.edges@ == a.edges@.remove(i),
    ensures
        node_wf(b),
        forall|k: Seq<u8>| !first_byte_is(k, a.edges@[i].label) ==> (#[trigger] node_map(
            b,
        ).contains_key(k) == node_map(a).contains_key(k)) && (node_map(a).contains_key(k)
            ==> node_map(b)[k] == node_map(a)[k]),
        forall|k: Seq<u8>| first_byte_is(k, a.edges@[i].label) ==> !(#[trigger] node_map(
            b,
        ).contains_key(k)) && (node_map(a).contains_key(k) == edge_map(a.edges@[i]).contains_key(
            k,
        )) && (node_map(a).contains_key(k) ==> node_map(a)[k] == edge_map(a.edges@[i])[k]),
{
    let lbl = a.edges@[i].label;
    assert(edges_sorted(b.edges@));
    assert(node_wf(b)) by {
        assert forall|j: int| 0 <= j < b.edges@.len() implies edge_wf(#[trigger] b.edges@[j]) by {
            if j < i {
                assert(b.edges@[j] == a.edges@[j]);
            } else {
                assert(b.edges@[j] == a.edges@[j + 1]);
            }
        }
    }
    assert forall|k: Seq<u8>| !first_byte_is(k, lbl) implies (#[trigger] node_map(
        b,
    ).contains_key(k) == node_map(a).contains_key(k)) && (node_map(a).contains_key(k)
        ==> node_map(b)[k] == node_map(a)[k]) by {
        lemma_edges_map_char(a.edges@, k);
        lemma_edges_map_char(b.edges@, k);
        assert(leaf_entry(b) == leaf_entry(a));
        if edges_map(a.edges@).contains_key(k) {
            let w = choose|j: int|
                0 <= j < a.edges@.len() && #[trigger] edge_map(a.edges@[j]).contains_key(k);
            lemma_edge_map_key(a.edges@[w], k);
            assert(w != i);
            let w2: int = if w < i { w } else { w - 1 };
            assert(b.edges@[w2] == a.edges@[w]);
            assert(edge_map(b.edges@[w2]).contains_key(k));
            assert(edges_map(b.edges@)[k] == edge_map(b.edges@[w2])[k]);
        }
        if edges_map(b.edges@).contains_key(k) {
            let w = choose|j: int|
                0 <= j < b.edges@.len() && #[trigger] edge_map(b.edges@[j]).contains_key(k);
            let w2: int = if w < i { w } else { w + 1 };
            assert(a.edges@[w2] == b.edges@[w]);
            assert(edge_map(a.edges@[w2]).contains_key(k));
        }
    }
    assert forall|k: Seq<u8>| first_byte_is(k, lbl) implies !(#[trigger] node_map(
        b,
    ).contains_key(k)) && (node_map(a).contains_key(k) == edge_map(a.edges@[i]).contains_key(k))
        && (node_map(a).contains_key(k) ==> node_map(a)[k] == edge_map(a.edges@[i])[k]) by {
        lemma_edges_map_char(a.edges@, k);
        lemma_edges_map_char(b.edges@, k);
        assert(!leaf_entry(a).contains_key(k));
        assert(!leaf_entry(b).contains_key(k));
        if edges_map(a.edges@).contains_key(k) {
            let w = choose|j: int|
                0 <= j < a.edges@.len() && #[trigger] edge_map(a.edges@[j]).contains_key(k);
            lemma_edge_map_key(a.edges@[w], k);
            assert(w == i) by {
                if w < i {
                    assert(a.edges@[w].label < a.edges@[i].label);
                } else if w > i {
                    assert(a.edges@[i].label < a.edges@[w].label);
                }
            }
        }
        if edges_map(b.edges@).contains_key(k) {
            let w = choose|j: int|
                0 <= j < b.edges@.len() && #[trigger] edge_map(b.edges@[j]).contains_key(k);
            let w2: int = if w < i { w } else { w + 1 };
            assert(a.edges@[w2] == b.edges@[w]);
            lemma_edge_map_key(b.edges@[w], k);
            assert(w2 != i);
            assert(a.edges@[w2].label == lbl);
            assert(false) by {
                if w2 < i {
                    assert(a.edges@[w2].label < a.edges@[i].label);
                } else {
                    assert(a.edges@[i].label < a.edges@[w2].label);
                }
            }
        }
    }
}

/// Effect on `node_map` of adding a fresh edge at position `j` (its label
/// occurs nowhere else): keys starting with the new label are answered by
/// the new edge, all other keys are untouched.
pub proof fn lemma_add_edge_effect<V>(a: Node<V>, b: Node<V>, j: int)
    requires
        node_wf(a),
        b.leaf == a.leaf,
        0 <= j <= a.edges@.len(),
        b.edges@ == a.edges@.insert(j, b.edges@[j]),
        edges_sorted(b.edges@),
        edge_wf(b.edges@[j]),
        forall|t: int| 0 <= t < a.edges@.len() ==> (#[trigger] a.edges@[t]).label
            != b.edges@[j].label,
    ensures
        node_wf(b),
        forall|k: Seq<u8>| !first_byte_is(k, b.edges@[j].label) ==> (#[trigger] node_map(
            b,
        ).contains_key(k) == node_map(a).contains_key(k)) && (node_map(a).contains_key(k)
            ==> node_map(b)[k] == node_map(a)[k]),
        forall|k: Seq<u8>| first_byte_is(k, b.edges@[j].label) ==> (#[trigger] node_map(
            b,
        ).contains_key(k) == edge_map(b.edges@[j]).contains_key(k)) && (node_map(b).contains_key(k)
            ==> node_map(b)[k] == edge_map(b.edges@[j])[k]) && !node_map(a).contains_key(k),
{
    let lbl = b.edges@[j].label;
    assert(node_wf(b)) by {
        assert forall|t: int| 0 <= t < b.edges@.len() implies edge_wf(#[trigger] b.edges@[t]) by {
            if t < j {
                assert(b.edges@[t] == a.edges@[t]);
            } else if t > j {
                assert(b.edges@[t] == a.edges@[t - 1]);
            }
        }
    }
    assert forall|k: Seq<u8>| !first_byte_is(k, lbl) implies (#[trigger] node_map(
        b,
    ).contains_key(k) == node_map(a).contains_key(k)) && (node_map(a).contains_key(k)
        ==> node_map(b)[k] == node_map(a)[k]) by {
        lemma_edges_map_char(a.edges@, k);
        lemma_edges_map_char(b.edges@, k);
        assert(leaf_entry(b) == leaf_entry(a));
        if edges_map(a.edges@).contains_key(k) {
            let w = choose|t: int|
                0 <= t < a.edges@.len() && #[trigger] edge_map(a.edges@[t]).contains_key(k);
            lemma_edge_map_key(a.edges@[w], k);
            let w2: int = if w < j { w } else { w + 1 };
            assert(b.edges@[w2] == a.edges@[w]);
            assert(edge_map(b.edges@[w2]).contains_key(k));
            assert(edges_map(b.edges@)[k] == edge_map(b.edges@[w2])[k]);
        }
        if edges_map(b.edges@).contains_key(k) {
            let w = choose|t: int|
                0 <= t < b.edges@.len() && #[trigger] edge_map(b.edges@[t]).contains_key(k);
            lemma_edge_map_key(b.edges@[w], k);
            assert(w != j);
            let w2: int = if w < j { w } else { w - 1 };
            assert(a.edges@[w2] == b.edges@[w]);
            assert(edge_map(a.edges@[w2]).contains_key(k));
        }
    }
    assert forall|k: Seq<u8>| first_byte_is(k, lbl) implies (#[trigger] node_map(b).contains_key(
        k,
    ) == edge_map(b.edges@[j]).contains_key(k)) && (node_map(b).contains_key(k) ==> node_map(b)[k]
        == edge_map(b.edges@[j])[k]) && !node_map(a).contains_key(k) by {
        lemma_edges_map_char(a.edges@, k);
        lemma_edges_map_char(b.edges@, k);
        assert(!leaf_entry(a).contains_key(k));
        assert(!leaf_entry(b).contains_key(k));
        if edges_map(a.edges@).contains_key(k) {
            let w = choose|t: int|
                0 <= t < a.edges@.len() && #[trigger] edge_map(a.edges@[t]).contains_key(k);
            lemma_edge_map_key(a.edges@[w], k);
            assert(false);
        }
        if edges_map(b.edges@).contains_key(k) {
            let w = choose|t: int|
                0 <= t < b.edges@.len() && #[trigger] edge_map(b.edges@[t]).contains_key(k);
            lemma_edge_map_key(b.edges@[w], k);
            assert(w == j) by {
                if w != j {
                    let w2: int = if w < j { w } else { w - 1 };
                    assert(a.edges@[w2] == b.edges@[w]);
                    assert(a.edges@[w2].label == lbl);
                }
            }
        }
    }
}

/// Replacing the child behind edge `i` by one whose entries are the old
/// entries plus `(k2, v)` inserts `(k2, v)` into the node\'s map.
pub proof fn lemma_node_insert_at_edge<V>(a: Node<V>, b: Node<V>, i: int, k2: Seq<u8>, v: V)
    requires
        node_wf(a),
        b.leaf == a.leaf,
        0 <= i < a.edges@.len(),
        b.edges@.len() == a.edges@.len(),
        forall|j: int| 0 <= j < a.edges@.len() && j != i ==> b.edges@[j] == a.edges@[j],
        b.edges@[i].label == a.edges@[i].label,
        edge_wf(b.edges@[i]),
        first_byte_is(k2, a.edges@[i].label),
        edge_map(b.edges@[i]) == edge_map(a.edges@[i]).insert(k2, v),
    ensures
        node_wf(b),
        node_map(b) == node_map(a).insert(k2, v),
{
    lemma_replace_edge_effect(a, b, i);
    let lbl = a.edges@[i].label;
    assert forall|k: Seq<u8>| true implies #[trigger] node_map(b).contains_key(k) == node_map(
        a,
    ).insert(k2, v).contains_key(k) by {
        if first_byte_is(k, lbl) {
            assert(node_map(b).contains_key(k) == edge_map(b.edges@[i]).contains_key(k));
        } else {
            assert(k != k2);
        }
    }
    assert forall|k: Seq<u8>| node_map(b).contains_key(k) implies node_map(b)[k] == node_map(
        a,
    ).insert(k2, v)[k] by {
        if first_byte_is(k, lbl) {
            assert(node_map(b)[k] == edge_map(b.edges@[i])[k]);
            if k != k2 {
                assert(edge_map(b.edges@[i])[k] == edge_map(a.edges@[i])[k]);
                assert(node_map(a).contains_key(k));
                assert(node_map(a)[k] == edge_map(a.edges@[i])[k]);
            }
        } else {
            assert(k != k2);
        }
    }
    assert(node_map(b) =~= node_map(a).insert(k2, v));
}

/// Replacing the child behind edge `i` by one whose entries are the old
/// entries minus `k2` removes `k2` from the node\'s map.
pub proof fn lemma_node_remove_at_edge<V>(a: Node<V>, b: Node<V>, i: int, k2: Seq<u8>)
    requires
        node_wf(a),
        b.leaf == a.leaf,
        0 <= i < a.edges@.len(),
        b.edges@.len() == a.edges@.len(),
        forall|j: int| 0 <= j < a.edges@.len() && j != i ==> b.edges@[j] == a.edges@[j],
        b.edges@[i].label == a.edges@[i].label,
        edge_wf(b.edges@[i]),
        first_byte_is(k2, a.edges@[i].label),
        edge_map(b.edges@[i]) == edge_map(a.edges@[i]).remove(k2),
    ensures
        node_wf(b),
        node_map(b) == node_map(a).remove(k2),
{
    lemma_replace_edge_effect(a, b, i);
    let lbl = a.edges@[i].label;
    assert forall|k: Seq<u8>| true implies #[trigger] node_map(b).contains_key(k) == node_map(
        a,
    ).remove(k2).contains_key(k) by {
        if first_byte_is(k, lbl) {
            assert(node_map(b).contains_key(k) == edge_map(b.edges@[i]).contains_key(k));
        } else {
            assert(k != k2);
        }
    }
    assert forall|k: Seq<u8>| node_map(b).contains_key(k) implies node_map(b)[k] == node_map(
        a,
    ).remove(k2)[k] by {
        if first_byte_is(k, lbl) {
            assert(node_map(b)[k] == edge_map(b.edges@[i])[k]);
            assert(k != k2);
            assert(edge_map(b.edges@[i])[k] == edge_map(a.edges@[i])[k]);
            assert(node_map(a).contains_key(k));
            assert(node_map(a)[k] == edge_map(a.edges@[i])[k]);
        } else {
            assert(k != k2);
        }
    }
    assert(node_map(b) =~= node_map(a).remove(k2));
}

/// Adding a fresh edge whose entries are exactly `(k2, v)` inserts
/// `(k2, v)` into the node\'s map, which did not contain `k2`.
pub proof fn lemma_node_insert_new_edge<V>(a: Node<V>, b: Node<V>, j: int, k2: Seq<u8>, v: V)
    requires
        node_wf(a),
        b.leaf == a.leaf,
        0 <= j <= a.edges@.len(),
        b.edges@ == a.edges@.insert(j, b.edges@[j]),
        edges_sorted(b.edges@),
        edge_wf(b.edges@[j]),
        forall|t: int| 0 <= t < a.edges@.len() ==> (#[trigger] a.edges@[t]).label
            != b.edges@[j].label,
        first_byte_is(k2, b.edges@[j].label),
        forall|k: Seq<u8>| #[trigger] edge_map(b.edges@[j]).contains_key(k) <==> k == k2,
        edge_map(b.edges@[j])[k2] == v,
    ensures
        node_wf(b),
        node_map(b) == node_map(a).insert(k2, v),
        !node_map(a).contains_key(k2),
{
    lemma_add_edge_effect(a, b, j);
    let lbl = b.edges@[j].label;
    assert(node_map(b).contains_key(k2) == edge_map(b.edges@[j]).contains_key(k2));
    assert(!node_map(a).contains_key(k2));
    assert forall|k: Seq<u8>| true implies #[trigger] node_map(b).contains_key(k) == node_map(
        a,
    ).insert(k2, v).contains_key(k) by {
        if first_byte_is(k, lbl) {
            assert(node_map(b).contains_key(k) == edge_map(b.edges@[j]).contains_key(k));
        } else {
            assert(k != k2);
        }
    }
    assert forall|k: Seq<u8>| node_map(b).contains_key(k) implies node_map(b)[k] == node_map(
        a,
    ).insert(k2, v)[k] by {
        if first_byte_is(k, lbl) {
            assert(node_map(b)[k] == edge_map(b.edges@[j])[k]);
            assert(k == k2);
        } else {
            assert(k != k2);
        }
    }
    assert(node_map(b) =~= node_map(a).insert(k2, v));
}

/// Deleting an edge whose entries are exactly `{ k2 }` removes `k2` from
/// the node\'s map.
pub proof fn lemma_node_drop_edge<V>(a: Node<V>, b: Node<V>, i: int, k2: Seq<u8>)
    requires
        node_wf(a),
        b.leaf == a.leaf,
        0 <= i < a.edges@.len(),
        b.edges@ == a.edges@.remove(i),
        first_byte_is(k2, a.edges@[i].label),
        forall|k: Seq<u8>| #[trigger] edge_map(a.edges@[i]).contains_key(k) <==> k == k2,
    ensures
        node_wf(b),
        node_map(b) == node_map(a).remove(k2),
{
    lemma_delete_edge_effect(a, b, i);
    let lbl = a.edges@[i].label;
    assert forall|k: Seq<u8>| true implies #[trigger] node_map(b).contains_key(k) == node_map(
        a,
    ).remove(k2).contains_key(k) by {
        if first_byte_is(k, lbl) {
            assert(!node_map(b).contains_key(k));
            assert(node_map(a).contains_key(k) == edge_map(a.edges@[i]).contains_key(k));
        } else {
            assert(k != k2);
        }
    }
    assert forall|k: Seq<u8>| node_map(b).contains_key(k) implies node_map(b)[k] == node_map(
        a,
    ).remove(k2)[k] by {
        assert(k != k2);
    }
    assert(node_map(b) =~= node_map(a).remove(k2));
}

/// Number of leaves (stored keys) in the subtree of a node.
pub open spec fn node_size<V>(n: Node<V>) -> nat
    decreases n,
{
    edges_size(n.edges@) + if n.leaf is Some {
        1nat
    } else {
        0nat
    }
}

/// Number of leaves reached through a sequence of edges.
pub open spec fn edges_size<V>(es: Seq<Edge<V>>) -> nat
    decreases es,
{
    if es.len() == 0 {
        0
    } else {
        edges_size(es.drop_last()) + node_size(*es.last().node)
    }
}

/// Prepending a prefix to every key changes no cardinality.
pub proof fn lemma_add_prefix_card<V>(p: Seq<u8>, m: Map<Seq<u8>, V>)
    requires
        m.dom().finite(),
    ensures
        add_prefix(p, m).dom().finite(),
        add_prefix(p, m).dom().len() == m.dom().len(),
{
    let f = |k: Seq<u8>| p + k;
    assert(vstd::relations::injective_on(f, m.dom())) by {
        assert forall|a: Seq<u8>, b: Seq<u8>|
            m.dom().contains(a) && m.dom().contains(b) && #[trigger] f(a) == #[trigger] f(b)
            implies a == b by {
            assert((p + a).skip(p.len() as int) =~= a);
            assert((p + b).skip(p.len() as int) =~= b);
        }
    }
    assert(m.dom().map(f) =~= add_prefix(p, m).dom()) by {
        assert forall|j: Seq<u8>| #[trigger] add_prefix(p, m).contains_key(j) implies m.dom().map(
            f,
        ).contains(j) by {
            lemma_add_prefix_contains(p, m, j);
            assert(j =~= p + j.skip(p.len() as int));
            assert(m.dom().contains(j.skip(p.len() as int)) && f(j.skip(p.len() as int)) == j);
        }
        assert forall|k: Seq<u8>| m.dom().contains(k) implies add_prefix(p, m).contains_key(
            #[trigger] f(k),
        ) by {
            lemma_add_prefix_get(p, m, k);
        }
    }
    vstd::set_lib::lemma_map_size(m.dom(), add_prefix(p, m).dom(), f);
}

/// The map of a well-formed node is finite, and its cardinality is the
/// leaf count of the subtree.
pub proof fn lemma_node_size_card<V>(n: Node<V>)
    requires
        node_wf(n),
    ensures
        node_map(n).dom().finite(),
        node_map(n).dom().len() == node_size(n),
    decreases n,
{
    lemma_edges_size_card(n.edges@);
    lemma_edges_map_char(n.edges@, Seq::empty());
    if edges_map(n.edges@).contains_key(Seq::<u8>::empty()) {
        let w = choose|i: int|
            0 <= i < n.edges@.len() && #[trigger] edge_map(n.edges@[i]).contains_key(
                Seq::<u8>::empty(),
            );
        lemma_edge_map_key(n.edges@[w], Seq::empty());
    }
    match n.leaf {
        Some(l) => {
            let le = leaf_entry(n);
            assert(le.dom() =~= Set::<Seq<u8>>::empty().insert(Seq::empty()));
            assert(edges_map(n.edges@).dom().disjoint(le.dom()));
            vstd::map_lib::lemma_disjoint_union_size(edges_map(n.edges@), le);
            vstd::map_lib::lemma_union_dom(edges_map(n.edges@), le);
            vstd::set_lib::lemma_set_union_finite_iff::<Seq<u8>>(
                edges_map(n.edges@).dom(),
                le.dom(),
            );
        },
        None => {
            assert(node_map(n) =~= edges_map(n.edges@));
        },
    }
}

/// The maps of a well-formed edge sequence are finite, and their combined
/// cardinality is the sum of the children\'s leaf counts.
pub proof fn lemma_edges_size_card<V>(es: Seq<Edge<V>>)
    requires
        edges_sorted(es),
        forall|i: int| 0 <= i < es.len() ==> edge_wf(#[trigger] es[i]),
    ensures
        edges_map(es).dom().finite(),
        edges_map(es).dom().len() == edges_size(es),
    decreases es,
{
    if es.len() == 0 {
        assert(edges_map(es).dom() =~= Set::<Seq<u8>>::empty());
    } else {
        let es0 = es.drop_last();
        let last = es.last();
        assert(forall|i: int| 0 <= i < es0.len() ==> es0[i] == es[i]);
        lemma_edges_size_card(es0);
        assert(edge_wf(es[es.len() - 1]));
        lemma_node_size_card(child_of(last));
        lemma_add_prefix_card(last.node.prefix@, node_map(child_of(last)));
        assert(edges_map(es0).dom().disjoint(edge_map(last).dom())) by {
            assert forall|k: Seq<u8>| !(edges_map(es0).contains_key(k) && #[trigger] edge_map(
                last,
            ).contains_key(k)) by {
                if edges_map(es0).contains_key(k) && edge_map(last).contains_key(k) {
                    lemma_edges_map_char(es0, k);
                    let w = choose|i: int|
                        0 <= i < es0.len() && #[trigger] edge_map(es0[i]).contains_key(k);
                    lemma_edge_map_key(es0[w], k);
                    lemma_edge_map_key(last, k);
                    assert(es[w].label == es[es.len() - 1].label);
                }
            }
        }
        vstd::map_lib::lemma_disjoint_union_size(edges_map(es0), edge_map(last));
        vstd::map_lib::lemma_union_dom(edges_map(es0), edge_map(last));
        vstd::set_lib::lemma_set_union_finite_iff::<Seq<u8>>(
            edges_map(es0).dom(),
            edge_map(last).dom(),
        );
    }
}

/// One step of the running sum over a prefix of the edge list.
pub proof fn lemma_edges_size_take_step<V>(es: Seq<Edge<V>>, i: int)
    requires
        0 <= i < es.len(),
    ensures
        edges_size(es.take(i + 1)) == edges_size(es.take(i)) + node_size(*es[i].node),
{
    assert(es.take(i + 1).drop_last() =~= es.take(i));
    assert(es.take(i + 1).last() == es[i]);
}

/// The running sum over a prefix of the edge list never exceeds the total.
pub proof fn lemma_edges_size_take_le<V>(es: Seq<Edge<V>>, i: int)
    requires
        0 <= i <= es.len(),
    ensures
        edges_size(es.take(i)) <= edges_size(es),
    decreases es.len() - i,
{
    if i == es.len() {
        assert(es.take(i) =~= es);
    } else {
        lemma_edges_size_take_step(es, i);
        lemma_edges_size_take_le(es, i + 1);
    }
}

/// Every child\'s subtree holds at most as many leaves as its parent.
pub proof fn lemma_node_size_child_le<V>(n: Node<V>, i: int)
    requires
        0 <= i < n.edges@.len(),
    ensures
        node_size(*n.edges@[i].node) <= node_size(n),
{
    lemma_edges_size_take_step(n.edges@, i);
    lemma_edges_size_take_le(n.edges@, i + 1);
}

/// The entries of `m` whose keys do not start with `p`.
pub open spec fn remove_prefixed<V>(m: Map<Seq<u8>, V>, p: Seq<u8>) -> Map<Seq<u8>, V> {
    Map::new(|k: Seq<u8>| m.contains_key(k) && !p.is_prefix_of(k), |k: Seq<u8>| m[k])
}

/// The keys of `m` that start with `p`.
pub open spec fn keys_with_prefix<V>(m: Map<Seq<u8>, V>, p: Seq<u8>) -> Set<Seq<u8>> {
    m.dom().filter(|k: Seq<u8>| p.is_prefix_of(k))
}

/// Two prefixes of the same sequence are comparable: the shorter is a
/// prefix of the longer.
pub proof fn lemma_prefixes_comparable(a: Seq<u8>, b: Seq<u8>, k: Seq<u8>)
    requires
        a.is_prefix_of(k),
        b.is_prefix_of(k),
        a.len() <= b.len(),
    ensures
        a.is_prefix_of(b),
{
    assert(b.take(a.len() as int) =~= k.take(b.len() as int).take(a.len() as int));
    assert(k.take(b.len() as int).take(a.len() as int) =~= k.take(a.len() as int));
}

/// Prepending a prefix commutes with dropping all keys below a given
/// prefix, provided the two prefixes correspond under the prepending.
pub proof fn lemma_add_prefix_remove_prefixed<V>(
    cp: Seq<u8>,
    m: Map<Seq<u8>, V>,
    t: Seq<u8>,
    s: Seq<u8>,
)
    requires
        forall|k2: Seq<u8>| #[trigger] s.is_prefix_of(cp + k2) <==> t.is_prefix_of(k2),
    ensures
        add_prefix(cp, remove_prefixed(m, t)) =~= remove_prefixed(add_prefix(cp, m), s),
{
    assert forall|j: Seq<u8>| true implies #[trigger] add_prefix(
        cp,
        remove_prefixed(m, t),
    ).contains_key(j) == remove_prefixed(add_prefix(cp, m), s).contains_key(j) by {
        lemma_add_prefix_contains(cp, m, j);
        lemma_add_prefix_contains(cp, remove_prefixed(m, t), j);
        if j.len() >= cp.len() && j.take(cp.len() as int) == cp {
            assert(j =~= cp + j.skip(cp.len() as int));
            assert(s.is_prefix_of(cp + j.skip(cp.len() as int)) <==> t.is_prefix_of(
                j.skip(cp.len() as int),
            ));
        }
    }
    assert forall|j: Seq<u8>| add_prefix(cp, remove_prefixed(m, t)).contains_key(j)
        implies add_prefix(cp, remove_prefixed(m, t))[j] == remove_prefixed(
        add_prefix(cp, m),
        s,
    )[j] by {
        lemma_add_prefix_contains(cp, m, j);
        lemma_add_prefix_contains(cp, remove_prefixed(m, t), j);
    }
}

/// Prepending a prefix to every key is a bijection between the keys below
/// `t` and the keys below `s`, provided the two prefixes correspond.
pub proof fn lemma_keys_with_prefix_card<V>(
    cp: Seq<u8>,
    m: Map<Seq<u8>, V>,
    t: Seq<u8>,
    s: Seq<u8>,
)
    requires
        m.dom().finite(),
        forall|k2: Seq<u8>| #[trigger] s.is_prefix_of(cp + k2) <==> t.is_prefix_of(k2),
    ensures
        keys_with_prefix(add_prefix(cp, m), s).finite(),
        keys_with_prefix(add_prefix(cp, m), s).len() == keys_with_prefix(m, t).len(),
{
    let f = |k: Seq<u8>| cp + k;
    let x = keys_with_prefix(m, t);
    let y = keys_with_prefix(add_prefix(cp, m), s);
    m.dom().lemma_len_filter(|k: Seq<u8>| t.is_prefix_of(k));
    assert(vstd::relations::injective_on(f, x)) by {
        assert forall|a: Seq<u8>, b: Seq<u8>|
            x.contains(a) && x.contains(b) && #[trigger] f(a) == #[trigger] f(b) implies a
            == b by {
            assert((cp + a).skip(cp.len() as int) =~= a);
            assert((cp + b).skip(cp.len() as int) =~= b);
        }
    }
    assert(x.map(f) =~= y) by {
        assert forall|j: Seq<u8>| #[trigger] y.contains(j) implies x.map(f).contains(j) by {
            lemma_add_prefix_contains(cp, m, j);
            assert(j =~= cp + j.skip(cp.len() as int));
            assert(s.is_prefix_of(cp + j.skip(cp.len() as int)) <==> t.is_prefix_of(
                j.skip(cp.len() as int),
            ));
            assert(x.contains(j.skip(cp.len() as int)) && f(j.skip(cp.len() as int)) == j);
        }
        assert forall|k: Seq<u8>| x.contains(k) implies y.contains(#[trigger] f(k)) by {
            lemma_add_prefix_get(cp, m, k);
        }
    }
    vstd::set_lib::lemma_map_size(x, y, f);
}

/// Keys below a prefix whose first byte labels edge `i` all live behind
/// that edge.
pub proof fn lemma_keys_with_prefix_via_edge<V>(a: Node<V>, i: int, s: Seq<u8>)
    requires
        node_wf(a),
        0 <= i < a.edges@.len(),
        first_byte_is(s, a.edges@[i].label),
    ensures
        keys_with_prefix(node_map(a), s) =~= keys_with_prefix(edge_map(a.edges@[i]), s),
{
    let lbl = a.edges@[i].label;
    assert forall|k: Seq<u8>| true implies keys_with_prefix(node_map(a), s).contains(k)
        == keys_with_prefix(edge_map(a.edges@[i]), s).contains(k) by {
        if s.is_prefix_of(k) {
            assert(k.len() > 0 && k[0] == lbl) by {
                if s.is_prefix_of(k) {
                    assert(k.take(s.len() as int)[0] == k[0]);
                }
            }
            lemma_node_map_step(a, i, k);
            lemma_add_prefix_contains(a.edges@[i].node.prefix@, node_map(child_of(a.edges@[i])), k);
            if edge_map(a.edges@[i]).contains_key(k) {
                lemma_edge_map_key(a.edges@[i], k);
                assert(k.take(a.edges@[i].node.prefix@.len() as int) =~= a.edges@[i].node.prefix@);
            }
        }
    }
}

/// Replacing the child behind edge `i` by one holding the old entries
/// minus those below `p` drops exactly the node\'s entries below `p`.
pub proof fn lemma_node_remove_prefixed_at_edge<V>(a: Node<V>, b: Node<V>, i: int, p: Seq<u8>)
    requires
        node_wf(a),
        b.leaf == a.leaf,
        0 <= i < a.edges@.len(),
        b.edges@.len() == a.edges@.len(),
        forall|j: int| 0 <= j < a.edges@.len() && j != i ==> b.edges@[j] == a.edges@[j],
        b.edges@[i].label == a.edges@[i].label,
        edge_wf(b.edges@[i]),
        first_byte_is(p, a.edges@[i].label),
        edge_map(b.edges@[i]) == remove_prefixed(edge_map(a.edges@[i]), p),
    ensures
        node_wf(b),
        node_map(b) == remove_prefixed(node_map(a), p),
{
    lemma_replace_edge_effect(a, b, i);
    let lbl = a.edges@[i].label;
    assert forall|k: Seq<u8>| true implies #[trigger] node_map(b).contains_key(k)
        == remove_prefixed(node_map(a), p).contains_key(k) by {
        if first_byte_is(k, lbl) {
            assert(node_map(b).contains_key(k) == edge_map(b.edges@[i]).contains_key(k));
        } else {
            assert(!p.is_prefix_of(k)) by {
                if p.is_prefix_of(k) {
                    assert(k.take(p.len() as int)[0] == k[0]);
                }
            }
        }
    }
    assert forall|k: Seq<u8>| node_map(b).contains_key(k) implies node_map(b)[k] == remove_prefixed(
        node_map(a),
        p,
    )[k] by {
        if first_byte_is(k, lbl) {
            assert(node_map(b)[k] == edge_map(b.edges@[i])[k]);
            assert(edge_map(b.edges@[i]).contains_key(k));
            assert(edge_map(b.edges@[i])[k] == edge_map(a.edges@[i])[k]);
            assert(node_map(a).contains_key(k));
            assert(node_map(a)[k] == edge_map(a.edges@[i])[k]);
        } else {
            assert(!p.is_prefix_of(k)) by {
                if p.is_prefix_of(k) {
                    assert(k.take(p.len() as int)[0] == k[0]);
                }
            }
        }
    }
    assert(node_map(b) =~= remove_prefixed(node_map(a), p));
}

/// Deleting an edge all of whose entries lie below `p` drops exactly the
/// node\'s entries below `p`.
pub proof fn lemma_node_drop_edge_prefixed<V>(a: Node<V>, b: Node<V>, i: int, p: Seq<u8>)
    requires
        node_wf(a),
        b.leaf == a.leaf,
        0 <= i < a.edges@.len(),
        b.edges@ == a.edges@.remove(i),
        first_byte_is(p, a.edges@[i].label),
        forall|k: Seq<u8>| #[trigger] edge_map(a.edges@[i]).contains_key(k) ==> p.is_prefix_of(k),
        forall|k: Seq<u8>|
            p.is_prefix_of(k) && #[trigger] node_map(a).contains_key(k) ==> edge_map(
                a.edges@[i],
            ).contains_key(k),
    ensures
        node_wf(b),
        node_map(b) == remove_prefixed(node_map(a), p),
{
    lemma_delete_edge_effect(a, b, i);
    let lbl = a.edges@[i].label;
    assert forall|k: Seq<u8>| true implies #[trigger] node_map(b).contains_key(k)
        == remove_prefixed(node_map(a), p).contains_key(k) by {
        if first_byte_is(k, lbl) {
            assert(!node_map(b).contains_key(k));
            assert(node_map(a).contains_key(k) == edge_map(a.edges@[i]).contains_key(k));
        } else {
            assert(!p.is_prefix_of(k)) by {
                if p.is_prefix_of(k) {
                    assert(k.take(p.len() as int)[0] == k[0]);
                }
            }
        }
    }
    assert forall|k: Seq<u8>| node_map(b).contains_key(k) implies node_map(b)[k] == remove_prefixed(
        node_map(a),
        p,
    )[k] by {
        assert(!first_byte_is(k, lbl));
    }
    assert(node_map(b) =~= remove_prefixed(node_map(a), p));
}

/// A settled, well-formed node stores at least one key.
pub proof fn lemma_settled_nonempty<V>(n: Node<V>)
    requires
        node_wf(n),
        settled(n),
    ensures
        exists|k: Seq<u8>| #[trigger] node_map(n).contains_key(k),
    decreases n,
{
    if n.leaf is Some {
        lemma_node_map_empty_key(n);
        assert(node_map(n).contains_key(Seq::empty()));
    } else {
        let e = n.edges@[0];
        assert(edge_wf(e));
        lemma_settled_nonempty(child_of(e));
        let k = choose|k: Seq<u8>| #[trigger] node_map(child_of(e)).contains_key(k);
        let p = e.node.prefix@;
        lemma_add_prefix_get(p, node_map(child_of(e)), k);
        assert((p + k).len() > 0 && (p + k)[0] == e.label);
        lemma_node_map_step(n, 0, p + k);
        assert(p.is_prefix_of(p + k)) by {
            assert((p + k).take(p.len() as int) =~= p);
        }
        assert((p + k).skip(p.len() as int) =~= k);
        assert(node_map(n).contains_key(p + k));
    }
}

} // verus!
