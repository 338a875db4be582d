//! Byte-string helpers shared by the tree algorithms.

use vstd::prelude::*;

verus! {

/// Length of the longest common prefix of two byte sequences.
pub open spec fn common_prefix_len(a: Seq<u8>, b: Seq<u8>) -> nat
    decreases a.len(),
{
    if a.len() == 0 || b.len() == 0 || a[0] != b[0] {
        0
    } else {
        1 + common_prefix_len(a.skip(1), b.skip(1))
    }
}

/// The common prefix is no longer than either sequence, both sequences agree
/// on it, and it cannot be extended.
pub proof fn lemma_common_prefix_len(a: Seq<u8>, b: Seq<u8>)
    ensures
        common_prefix_len(a, b) <= a.len(),
        common_prefix_len(a, b) <= b.len(),
        a.take(common_prefix_len(a, b) as int) == b.take(common_prefix_len(a, b) as int),
        common_prefix_len(a, b) < a.len() && common_prefix_len(a, b) < b.len()
            ==> a[common_prefix_len(a, b) as int] != b[common_prefix_len(a, b) as int],
    decreases a.len(),
{
    if a.len() == 0 || b.len() == 0 || a[0] != b[0] {
    } else {
        lemma_common_prefix_len(a.skip(1), b.skip(1));
        let n = common_prefix_len(a, b) as int;
        assert(a.take(n) =~= seq![a[0]] + a.skip(1).take(n - 1));
        assert(b.take(n) =~= seq![b[0]] + b.skip(1).take(n - 1));
    }
}

/// Returns the length of the longest common prefix of two byte strings.
pub fn longest_prefix(key1: &[u8], key2: &[u8]) -> (r: usize)
    ensures
        r == common_prefix_len(key1@, key2@),
{
    proof {
        lemma_common_prefix_len(key1@, key2@);
    }
    let max_len = if key1.len() < key2.len() {
        key1.len()
    } else {
        key2.len()
    };
    let mut i: usize = 0;
    while i < max_len
        invariant
            i <= max_len,
            max_len <= key1@.len(),
            max_len <= key2@.len(),
            max_len == key1@.len() || max_len == key2@.len(),
            forall|j: int| 0 <= j < i ==> key1@[j] == key2@[j],
        decreases max_len - i,
    {
        if key1[i] != key2[i] {
            proof {
                lemma_take_agree_bound(key1@, key2@, i as int);
            }
            return i;
        }
        i += 1;
    }
    proof {
        lemma_take_agree_bound(key1@, key2@, i as int);
    }
    i
}

/// If two sequences agree on their first `i` bytes and either `i` is the
/// length of one of them or they differ at position `i`, then `i` is the
/// length of their common prefix.
proof fn lemma_take_agree_bound(a: Seq<u8>, b: Seq<u8>, i: int)
    requires
        0 <= i <= a.len(),
        0 <= i <= b.len(),
        forall|j: int| 0 <= j < i ==> a[j] == b[j],
        i == a.len() || i == b.len() || a[i] != b[i],
    ensures
        common_prefix_len(a, b) == i,
    decreases i,
{
    if i == 0 {
    } else {
        lemma_take_agree_bound(a.skip(1), b.skip(1), i - 1);
    }
}

} // verus!
