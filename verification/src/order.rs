//! Lexicographic order on byte sequences, used to specify the ordered
//! min/max queries.

use vstd::prelude::*;

verus! {

/// Lexicographic "less or equal" on byte sequences: the empty sequence
/// comes first; otherwise the first bytes decide, ties recurse.
pub open spec fn lex_leq(a: Seq<u8>, b: Seq<u8>) -> bool
    decreases a.len(),
{
    a.len() == 0 || (b.len() > 0 && (a[0] < b[0] || (a[0] == b[0] && lex_leq(
        a.skip(1),
        b.skip(1),
    ))))
}

/// `k` is the lexicographically least key of `m`.
pub open spec fn is_lex_min<V>(m: Map<Seq<u8>, V>, k: Seq<u8>) -> bool {
    m.contains_key(k) && forall|j: Seq<u8>| #[trigger] m.contains_key(j) ==> lex_leq(k, j)
}

/// `k` is the lexicographically greatest key of `m`.
pub open spec fn is_lex_max<V>(m: Map<Seq<u8>, V>, k: Seq<u8>) -> bool {
    m.contains_key(k) && forall|j: Seq<u8>| #[trigger] m.contains_key(j) ==> lex_leq(j, k)
}

/// Prepending a common prefix does not change the order.
pub proof fn lemma_lex_translate(p: Seq<u8>, a: Seq<u8>, b: Seq<u8>)
    ensures
        lex_leq(p + a, p + b) == lex_leq(a, b),
    decreases p.len(),
{
    if p.len() == 0 {
        assert(p + a =~= a);
        assert(p + b =~= b);
    } else {
        assert((p + a).skip(1) =~= p.skip(1) + a);
        assert((p + b).skip(1) =~= p.skip(1) + b);
        lemma_lex_translate(p.skip(1), a, b);
    }
}

/// Sequences that disagree on their first byte order by it.
pub proof fn lemma_lex_first_byte(a: Seq<u8>, b: Seq<u8>)
    requires
        a.len() > 0,
        b.len() > 0,
        a[0] < b[0],
    ensures
        lex_leq(a, b),
        !lex_leq(b, a),
{
}

} // verus!
