//! Lexicographic order on byte strings, as `Ord` orders `[u8]`:
//! a proper prefix comes before any of its extensions.
use vstd::prelude::*;

verus! {

/// `a` and `b` agree on their first `k` bytes, and `k` is where `a` falls
/// below `b`: either `a` ends there while `b` goes on, or `a[k] < b[k]`.
pub open spec fn lex_lt_at(a: Seq<u8>, b: Seq<u8>, k: int) -> bool {
    &&& 0 <= k <= a.len()
    &&& k <= b.len()
    &&& forall|i: int| 0 <= i < k ==> a[i] == b[i]
    &&& (k == a.len() && k < b.len()) || (k < a.len() && k < b.len() && a[k] < b[k])
}

/// `a` comes strictly before `b`.
pub open spec fn lex_lt(a: Seq<u8>, b: Seq<u8>) -> bool {
    exists|k: int| #[trigger] lex_lt_at(a, b, k)
}

/// `p` is a prefix of `a`.
pub open spec fn is_prefix(p: Seq<u8>, a: Seq<u8>) -> bool {
    p.len() <= a.len() && forall|i: int| 0 <= i < p.len() ==> p[i] == a[i]
}

pub proof fn lemma_lex_lt_transitive(a: Seq<u8>, b: Seq<u8>, c: Seq<u8>)
    requires
        lex_lt(a, b),
        lex_lt(b, c),
    ensures
        lex_lt(a, c),
{
    let k1 = choose|k: int| lex_lt_at(a, b, k);
    let k2 = choose|k: int| lex_lt_at(b, c, k);
    if k1 <= k2 {
        assert(lex_lt_at(a, c, k1));
    } else {
        assert(lex_lt_at(a, c, k2));
    }
}

/// Nothing that starts with `p` comes before `p`.
pub proof fn lemma_prefix_not_lt(p: Seq<u8>, a: Seq<u8>)
    requires
        is_prefix(p, a),
    ensures
        !lex_lt(a, p),
{
    if lex_lt(a, p) {
        let k = choose|k: int| lex_lt_at(a, p, k);
        assert(a[k] == p[k]);
    }
}

/// Whatever lies between `p` and a string that starts with `p` starts with `p`.
pub proof fn lemma_between_keeps_prefix(p: Seq<u8>, a: Seq<u8>, c: Seq<u8>)
    requires
        !lex_lt(a, p),
        lex_lt(a, c),
        is_prefix(p, c),
    ensures
        is_prefix(p, a),
{
    let e = choose|k: int| lex_lt_at(a, c, k);
    if e < p.len() {
        assert(lex_lt_at(a, p, e));
    }
}

} // verus!
