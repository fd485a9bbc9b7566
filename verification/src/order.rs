//! Byte strings and their lexicographic order, which is the order of the
//! dictionary's keys.

use vstd::prelude::*;

verus! {

/// The first position at or after `i` in which `a` and `b` differ, or at
/// which one of them ends.
pub open spec fn first_diff_from(a: Seq<u8>, b: Seq<u8>, i: int) -> int
    decreases a.len() - i,
{
    if i < 0 || i >= a.len() || i >= b.len() || a[i] != b[i] {
        i
    } else {
        first_diff_from(a, b, i + 1)
    }
}

/// The length of the longest common prefix of `a` and `b`.
pub open spec fn spec_common_prefix_len(a: Seq<u8>, b: Seq<u8>) -> int {
    first_diff_from(a, b, 0)
}

/// `a` and `b` hold the same bytes in their first `n` positions.
pub open spec fn agree(a: Seq<u8>, b: Seq<u8>, n: int) -> bool {
    &&& 0 <= n <= a.len()
    &&& n <= b.len()
    &&& forall|j: int| 0 <= j < n ==> a[j] == b[j]
}

/// `p` is a prefix of `k`.
pub open spec fn is_prefix(p: Seq<u8>, k: Seq<u8>) -> bool {
    agree(p, k, p.len() as int)
}

/// Lexicographic order on byte strings: `a` is a proper prefix of `b`, or
/// the first byte in which they differ is smaller in `a`.
pub open spec fn lex_lt(a: Seq<u8>, b: Seq<u8>) -> bool {
    let d = spec_common_prefix_len(a, b);
    d < b.len() && (d == a.len() || a[d] < b[d])
}

/// `a` is equal to `b` or comes before it.
pub open spec fn lex_le(a: Seq<u8>, b: Seq<u8>) -> bool {
    a == b || lex_lt(a, b)
}

/// Up to the first difference at or after `i` the two strings agree from
/// `i` on, and at it they part.
pub proof fn lemma_first_diff_from(a: Seq<u8>, b: Seq<u8>, i: int)
    requires
        0 <= i <= a.len(),
        i <= b.len(),
    ensures
        i <= first_diff_from(a, b, i) <= a.len(),
        first_diff_from(a, b, i) <= b.len(),
        forall|j: int| i <= j < first_diff_from(a, b, i) ==> a[j] == b[j],
        first_diff_from(a, b, i) < a.len() && first_diff_from(a, b, i) < b.len()
            ==> a[first_diff_from(a, b, i)] != b[first_diff_from(a, b, i)],
    decreases a.len() - i,
{
    if i >= a.len() || i >= b.len() || a[i] != b[i] {
    } else {
        lemma_first_diff_from(a, b, i + 1);
    }
}

/// The common prefix length is a position up to which the two strings
/// agree and at which they part.
pub proof fn lemma_common_prefix_len(a: Seq<u8>, b: Seq<u8>)
    ensures
        agree(a, b, spec_common_prefix_len(a, b)),
        spec_common_prefix_len(a, b) < a.len() && spec_common_prefix_len(a, b) < b.len()
            ==> a[spec_common_prefix_len(a, b)] != b[spec_common_prefix_len(a, b)],
{
    lemma_first_diff_from(a, b, 0);
}

/// A position at which two strings part, and up to which they agree, is
/// their first difference from any earlier position on.
proof fn lemma_first_diff_unique(a: Seq<u8>, b: Seq<u8>, i: int, d: int)
    requires
        0 <= i <= d,
        agree(a, b, d),
        d == a.len() || d == b.len() || a[d] != b[d],
    ensures
        first_diff_from(a, b, i) == d,
    decreases d - i,
{
    if i < d {
        lemma_first_diff_unique(a, b, i + 1, d);
    }
}

/// A position up to which two strings agree and at which they part is their
/// common prefix length.
pub proof fn lemma_common_prefix_len_is(a: Seq<u8>, b: Seq<u8>, d: int)
    requires
        agree(a, b, d),
        d == a.len() || d == b.len() || a[d] != b[d],
    ensures
        spec_common_prefix_len(a, b) == d,
{
    lemma_first_diff_unique(a, b, 0, d);
}

/// The common prefix of two strings does not depend on their order.
pub proof fn lemma_common_prefix_len_symmetric(a: Seq<u8>, b: Seq<u8>)
    ensures
        spec_common_prefix_len(a, b) == spec_common_prefix_len(b, a),
{
    lemma_common_prefix_len(a, b);
    lemma_common_prefix_len_is(b, a, spec_common_prefix_len(a, b));
}

/// No byte string comes before itself.
pub proof fn lemma_lex_irreflexive(a: Seq<u8>)
    ensures
        !lex_lt(a, a),
{
    lemma_common_prefix_len_is(a, a, a.len() as int);
}

/// Of two byte strings, exactly one of these holds: they are equal, the
/// first comes before the second, the second before the first.
pub proof fn lemma_lex_trichotomy(a: Seq<u8>, b: Seq<u8>)
    ensures
        a == b || lex_lt(a, b) || lex_lt(b, a),
        !(lex_lt(a, b) && lex_lt(b, a)),
        !(a == b && lex_lt(a, b)),
{
    lemma_common_prefix_len(a, b);
    lemma_common_prefix_len_symmetric(a, b);
    lemma_lex_irreflexive(a);
    let d = spec_common_prefix_len(a, b);
    if d == a.len() && d == b.len() {
        assert(a =~= b);
    }
}

/// The order is transitive.
pub proof fn lemma_lex_transitive(a: Seq<u8>, b: Seq<u8>, c: Seq<u8>)
    requires
        lex_lt(a, b),
        lex_lt(b, c),
    ensures
        lex_lt(a, c),
{
    lemma_common_prefix_len(a, b);
    lemma_common_prefix_len(b, c);
    let d1 = spec_common_prefix_len(a, b);
    let d2 = spec_common_prefix_len(b, c);
    let d = if d1 <= d2 {
        d1
    } else {
        d2
    };
    assert(agree(a, c, d));
    lemma_common_prefix_len_is(a, c, d);
}

/// `lex_le` is transitive, and strict where one of its steps is.
pub proof fn lemma_lex_le_transitive(a: Seq<u8>, b: Seq<u8>, c: Seq<u8>)
    requires
        lex_le(a, b),
        lex_le(b, c),
    ensures
        lex_le(a, c),
        lex_lt(a, b) || lex_lt(b, c) ==> lex_lt(a, c),
{
    if lex_lt(a, b) && lex_lt(b, c) {
        lemma_lex_transitive(a, b, c);
    }
}

/// A proper prefix comes before what it is a prefix of.
pub proof fn lemma_prefix_le(p: Seq<u8>, k: Seq<u8>)
    requires
        is_prefix(p, k),
    ensures
        lex_le(p, k),
{
    if p.len() == k.len() {
        assert(p =~= k);
    } else {
        lemma_common_prefix_len_is(p, k, p.len() as int);
    }
}

/// Two strings that part at position `d` are ordered by their bytes there.
pub proof fn lemma_lex_by_first_difference(a: Seq<u8>, b: Seq<u8>, d: int)
    requires
        agree(a, b, d),
        d < a.len(),
        d < b.len(),
        a[d] != b[d],
    ensures
        lex_lt(a, b) <==> a[d] < b[d],
{
    lemma_common_prefix_len_is(a, b, d);
}

/// Returns the length of the longest common prefix of `a` and `b`.
pub fn common_prefix_len(a: &[u8], b: &[u8]) -> (res: usize)
    ensures
        res == spec_common_prefix_len(a@, b@),
        res <= a@.len(),
        res <= b@.len(),
{
    let mut i: usize = 0;
    while i < a.len() && i < b.len() && a[i] == b[i]
        invariant
            i <= a@.len(),
            i <= b@.len(),
            first_diff_from(a@, b@, 0) == first_diff_from(a@, b@, i as int),
        decreases a@.len() - i,
    {
        i = i + 1;
    }
    proof {
        lemma_first_diff_from(a@, b@, 0);
    }
    i
}

/// Tells whether `a` comes before `b` in lexicographic order.
pub fn key_lt(a: &[u8], b: &[u8]) -> (res: bool)
    ensures
        res == lex_lt(a@, b@),
{
    let d = common_prefix_len(a, b);
    d < b.len() && (d == a.len() || a[d] < b[d])
}

/// Tells whether `a` and `b` hold the same bytes.
pub fn key_eq(a: &[u8], b: &[u8]) -> (res: bool)
    ensures
        res == (a@ == b@),
{
    let d = common_prefix_len(a, b);
    proof {
        lemma_common_prefix_len(a@, b@);
        if d == a@.len() && d == b@.len() {
            assert(a@ =~= b@);
        }
    }
    d == a.len() && d == b.len()
}

} // verus!
