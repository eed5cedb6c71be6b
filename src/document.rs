//! A token sequence together with a suffix index over it.
//!
//! Tokens are laid out as bytes three to a token, so that a byte-oriented
//! suffix sort can order them. The first byte of a token has its top bit set
//! and the other two have it clear, so any occurrence of an encoded pattern
//! in the encoded document starts on a token boundary.
use vstd::prelude::*;

use crate::lexicographic::{
    is_prefix, lemma_between_keeps_prefix, lemma_lex_lt_transitive, lemma_prefix_not_lt, lex_lt,
    lex_lt_at,
};

verus! {

/// The longest byte string that the suffix sort accepts: one byte fewer
/// than `i32::MAX`.
pub const MAX_ENCODED_LEN: usize = 0x7fff_fffe;

/// `p` appears in `s` starting at position `i`.
pub open spec fn occurs_at<T>(s: Seq<T>, p: Seq<T>, i: int) -> bool {
    &&& 0 <= i
    &&& i + p.len() <= s.len()
    &&& forall|j: int| 0 <= j < p.len() ==> s[i + j] == p[j]
}

/// `p` is a contiguous run of `s`.
pub open spec fn occurs<T>(s: Seq<T>, p: Seq<T>) -> bool {
    exists|i: int| #[trigger] occurs_at(s, p, i)
}

/// Byte `j` (0, 1 or 2) of the encoding of token `t`: the top two bits of
/// `t` under a marker bit, then two groups of seven bits.
pub open spec fn byte_of(t: u16, j: int) -> u8 {
    if j == 0 {
        (0x80u16 | (t >> 14u16)) as u8
    } else if j == 1 {
        ((t >> 7u16) & 0x7fu16) as u8
    } else {
        (t & 0x7fu16) as u8
    }
}

/// The byte layout of a token sequence.
pub open spec fn encode(s: Seq<u16>) -> Seq<u8> {
    Seq::new((3 * s.len()) as nat, |i: int| byte_of(s[i / 3], i % 3))
}

/// The suffix of `s` that starts at `q`.
pub open spec fn suffix(s: Seq<u8>, q: int) -> Seq<u8> {
    s.subrange(q, s.len() as int)
}

/// `order` lists every start position of a suffix of `s`, the empty suffix
/// included, with the suffixes in strictly increasing order.
pub open spec fn is_suffix_order(s: Seq<u8>, order: Seq<u32>) -> bool {
    &&& order.len() == s.len() + 1
    &&& forall|i: int| 0 <= i < order.len() ==> order[i] <= s.len()
    &&& forall|i: int, j: int|
        0 <= i < j < order.len() ==> lex_lt(
            #[trigger] suffix(s, order[i] as int),
            #[trigger] suffix(s, order[j] as int),
        )
    &&& forall|q: int| 0 <= q <= s.len() ==> #[trigger] lists(order, q)
}

/// Position `q` stands somewhere in `order`.
pub open spec fn lists(order: Seq<u32>, q: int) -> bool {
    exists|i: int| 0 <= i < order.len() && order[i] == q
}

proof fn lemma_byte_marks(t: u16)
    ensures
        byte_of(t, 0) >= 0x80,
        byte_of(t, 1) < 0x80,
        byte_of(t, 2) < 0x80,
{
    assert(((0x80u16 | (t >> 14u16)) as u8) >= 0x80u8) by (bit_vector);
    assert((((t >> 7u16) & 0x7fu16) as u8) < 0x80u8) by (bit_vector);
    assert(((t & 0x7fu16) as u8) < 0x80u8) by (bit_vector);
}

proof fn lemma_bytes_determine_token(a: u16, b: u16)
    requires
        byte_of(a, 0) == byte_of(b, 0),
        byte_of(a, 1) == byte_of(b, 1),
        byte_of(a, 2) == byte_of(b, 2),
    ensures
        a == b,
{
    assert(((0x80u16 | (a >> 14u16)) as u8 == (0x80u16 | (b >> 14u16)) as u8 && ((a >> 7u16)
        & 0x7fu16) as u8 == ((b >> 7u16) & 0x7fu16) as u8 && (a & 0x7fu16) as u8 == (b & 0x7fu16)
        as u8) ==> a == b) by (bit_vector);
}

proof fn lemma_div3(a: int, b: int)
    requires
        0 <= a,
        0 <= b,
    ensures
        (3 * a + b) / 3 == a + b / 3,
        (3 * a + b) % 3 == b % 3,
{
}

/// Relies on `suffix_array::SuffixArray::new`, which sorts every suffix of
/// `s` (the empty one first, then the order of `[u8]`), and on `into_parts`,
/// which hands that order out. The sort underneath,
/// `cdivsufsort::sort_in_place`, asserts that `s` is shorter than `i32::MAX`
/// bytes.
#[verifier::external_body]
fn suffix_order(s: &[u8]) -> (r: Vec<u32>)
    requires
        s@.len() <= MAX_ENCODED_LEN,
    ensures
        is_suffix_order(s@, r@),
{
    suffix_array::SuffixArray::new(s).into_parts().1
}

/// Compares the suffix of `s` at `q` with `p`: whether it comes before `p`,
/// and whether it starts with `p`.
fn compare_suffix(s: &Vec<u8>, q: usize, p: &Vec<u8>) -> (r: (bool, bool))
    requires
        q <= s@.len(),
    ensures
        r.0 == lex_lt(suffix(s@, q as int), p@),
        r.1 == is_prefix(p@, suffix(s@, q as int)),
{
    let ghost a = suffix(s@, q as int);
    let mut j: usize = 0;
    while j < p.len() && j < s.len() - q && s[q + j] == p[j]
        invariant
            q <= s@.len(),
            a == suffix(s@, q as int),
            j <= p@.len(),
            j <= a.len(),
            forall|i: int| 0 <= i < j ==> a[i] == p@[i],
        decreases p@.len() - j,
    {
        j = j + 1;
    }
    if j == p.len() {
        proof {
            lemma_prefix_not_lt(p@, a);
        }
        (false, true)
    } else if j == s.len() - q {
        assert(lex_lt_at(a, p@, j as int));
        (true, false)
    } else {
        let lt = s[q + j] < p[j];
        if lt {
            assert(lex_lt_at(a, p@, j as int));
        } else {
            assert forall|k: int| !lex_lt_at(a, p@, k) by {
                if lex_lt_at(a, p@, k) && k > j {
                    assert(a[j as int] == p@[j as int]);
                }
            }
        }
        assert(a[j as int] != p@[j as int]);
        (lt, false)
    }
}

/// Whether `p` occurs in `s`, by binary search over the suffix order of `s`.
///
/// The order is kept as plain positions beside the bytes it sorts, so the
/// search runs over it here instead of through a `SuffixArray` that would
/// borrow the document's own buffer.
fn search(s: &Vec<u8>, order: &Vec<u32>, p: &Vec<u8>) -> (r: bool)
    requires
        is_suffix_order(s@, order@),
    ensures
        r == occurs(s@, p@),
{
    let mut lo: usize = 0;
    let mut hi: usize = order.len();
    while lo < hi
        invariant
            is_suffix_order(s@, order@),
            0 <= lo <= hi <= order@.len(),
            forall|i: int| 0 <= i < lo ==> lex_lt(suffix(s@, order@[i] as int), p@),
            forall|i: int| hi <= i < order@.len() ==> !lex_lt(suffix(s@, order@[i] as int), p@),
        decreases hi - lo,
    {
        let mid = lo + (hi - lo) / 2;
        let (lt, _) = compare_suffix(s, order[mid] as usize, p);
        let ghost m = suffix(s@, order@[mid as int] as int);
        if lt {
            assert forall|i: int| 0 <= i <= mid implies lex_lt(
                suffix(s@, order@[i] as int),
                p@,
            ) by {
                if i < mid {
                    lemma_lex_lt_transitive(suffix(s@, order@[i] as int), m, p@);
                }
            }
            lo = mid + 1;
        } else {
            assert forall|i: int| mid <= i < order@.len() implies !lex_lt(
                suffix(s@, order@[i] as int),
                p@,
            ) by {
                if i > mid && lex_lt(suffix(s@, order@[i] as int), p@) {
                    lemma_lex_lt_transitive(m, suffix(s@, order@[i] as int), p@);
                }
            }
            hi = mid;
        }
    }
    let found = if lo < order.len() {
        compare_suffix(s, order[lo] as usize, p).1
    } else {
        false
    };
    proof {
        if found {
            assert(occurs_at(s@, p@, order@[lo as int] as int));
        } else {
            assert forall|q: int| !occurs_at(s@, p@, q) by {
                if occurs_at(s@, p@, q) {
                    assert(lists(order@, q));
                    let i = choose|i: int| 0 <= i < order@.len() && order@[i] == q;
                    let c = suffix(s@, q);
                    assert(is_prefix(p@, c));
                    lemma_prefix_not_lt(p@, c);
                    if i > lo {
                        lemma_between_keeps_prefix(p@, suffix(s@, order@[lo as int] as int), c);
                    }
                }
            }
        }
    }
    found
}

/// A run of tokens occurs in `t` exactly where its encoding occurs in the
/// encoding of `t`.
pub proof fn lemma_encode_occurs(t: Seq<u16>, p: Seq<u16>)
    ensures
        occurs(t, p) == occurs(encode(t), encode(p)),
{
    let et = encode(t);
    let ep = encode(p);
    if occurs(t, p) {
        let k = choose|k: int| occurs_at(t, p, k);
        assert forall|j: int| 0 <= j < ep.len() implies et[3 * k + j] == ep[j] by {
            lemma_div3(k, j);
        }
        assert(occurs_at(et, ep, 3 * k));
    }
    if occurs(et, ep) {
        let q = choose|q: int| occurs_at(et, ep, q);
        if p.len() == 0 {
            assert(occurs_at(t, p, 0));
        } else {
            lemma_div3(q / 3, q % 3);
            lemma_div3(0, 0);
            lemma_byte_marks(p[0]);
            lemma_byte_marks(t[q / 3]);
            assert(et[q + 0] == ep[0]);
            assert(q % 3 == 0);
            let k = q / 3;
            assert forall|i: int| 0 <= i < p.len() implies t[k + i] == p[i] by {
                lemma_div3(k + i, 0);
                lemma_div3(k + i, 1);
                lemma_div3(k + i, 2);
                lemma_div3(i, 0);
                lemma_div3(i, 1);
                lemma_div3(i, 2);
                assert(et[q + (3 * i + 0)] == ep[3 * i + 0]);
                assert(et[q + (3 * i + 1)] == ep[3 * i + 1]);
                assert(et[q + (3 * i + 2)] == ep[3 * i + 2]);
                lemma_bytes_determine_token(t[k + i], p[i]);
            }
            assert(occurs_at(t, p, k));
        }
    }
}

/// Lays `t` out as bytes.
fn encode_tokens(t: &[u16]) -> (r: Vec<u8>)
    requires
        3 * t@.len() <= MAX_ENCODED_LEN,
    ensures
        r@ == encode(t@),
{
    let mut r: Vec<u8> = Vec::with_capacity(3 * t.len());
    let mut i: usize = 0;
    while i < t.len()
        invariant
            3 * t@.len() <= MAX_ENCODED_LEN,
            i <= t@.len(),
            r@.len() == 3 * i,
            forall|j: int| 0 <= j < 3 * i ==> r@[j] == byte_of(t@[j / 3], j % 3),
        decreases t@.len() - i,
    {
        let x = t[i];
        proof {
            lemma_div3(i as int, 0);
            lemma_div3(i as int, 1);
            lemma_div3(i as int, 2);
        }
        r.push((0x80u16 | (x >> 14u16)) as u8);
        r.push(((x >> 7u16) & 0x7fu16) as u8);
        r.push((x & 0x7fu16) as u8);
        i = i + 1;
    }
    assert(r@ =~= encode(t@));
    r
}

/// A document: its tokens and a suffix index over them, built once.
///
/// The index holds positions only, never references into the tokens.
pub struct Document {
    tokens: Vec<u16>,
    bytes: Vec<u8>,
    order: Vec<u32>,
}

impl View for Document {
    type V = Seq<u16>;

    closed spec fn view(&self) -> Seq<u16> {
        self.tokens@
    }
}

impl Document {
    /// The index agrees with the tokens.
    pub closed spec fn wf(&self) -> bool {
        &&& 3 * self.tokens@.len() <= MAX_ENCODED_LEN
        &&& self.bytes@ == encode(self.tokens@)
        &&& is_suffix_order(self.bytes@, self.order@)
    }

    /// A well-formed document is short enough for its encoding to be sorted.
    pub proof fn lemma_len_bound(&self)
        requires
            self.wf(),
        ensures
            3 * self@.len() <= MAX_ENCODED_LEN,
    {
    }

    /// Indexes `tokens`, which may be empty.
    pub fn from_tokens(tokens: Vec<u16>) -> (r: Self)
        requires
            3 * tokens@.len() <= MAX_ENCODED_LEN,
        ensures
            r@ == tokens@,
            r.wf(),
    {
        let bytes = encode_tokens(tokens.as_slice());
        let order = suffix_order(bytes.as_slice());
        Document { tokens, bytes, order }
    }

    /// Tests if it contains the given pattern, token for token.
    pub fn contains(&self, pat: &[u16]) -> (r: bool)
        requires
            self.wf(),
        ensures
            r == occurs(self@, pat@),
    {
        if pat.len() > self.tokens.len() {
            return false;
        }
        let enc = encode_tokens(pat);
        let r = search(&self.bytes, &self.order, &enc);
        proof {
            lemma_encode_occurs(self.tokens@, pat@);
        }
        r
    }

    /// The tokens in `[start, end)`.
    pub fn get_slice(&self, start: usize, end: usize) -> (r: &[u16])
        requires
            start <= end <= self@.len(),
        ensures
            r@ == self@.subrange(start as int, end as int),
    {
        &self.tokens.as_slice()[start..end]
    }

    /// The number of tokens.
    pub fn len(&self) -> (r: usize)
        ensures
            r == self@.len(),
    {
        self.tokens.len()
    }

    /// Whether there are no tokens.
    pub fn is_empty(&self) -> (r: bool)
        ensures
            r == (self@.len() == 0),
    {
        self.tokens.len() == 0
    }
}

} // verus!
