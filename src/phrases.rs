//! Greedy extraction of maximal phrases that occur in relevant documents.
use vstd::prelude::*;

use crate::document::{occurs, occurs_at, Document, MAX_ENCODED_LEN};

verus! {

/// The token sequences of a list of documents.
pub open spec fn views(docs: Seq<&Document>) -> Seq<Seq<u16>> {
    docs.map_values(|x: &Document| x@)
}

/// Phrase boundaries as pairs of integers.
pub open spec fn as_ints(v: Seq<(usize, usize)>) -> Seq<(int, int)> {
    v.map_values(|b: (usize, usize)| (b.0 as int, b.1 as int))
}

/// The search for the longest phrase at `start` of document `d`, with the
/// candidate `d[start..start + len)` now tested against relevant document `r`.
/// The result is one past the last length that was found contained.
pub open spec fn probe(d: Seq<u16>, rel: Seq<Seq<u16>>, start: int, max: int, r: int, len: int) -> int
    decreases rel.len() - r, d.len() - start - len,
{
    if r < 0 || r >= rel.len() {
        len
    } else if occurs(rel[r], d.subrange(start, start + len)) {
        if len + 1 > max || start + len + 1 > d.len() {
            len + 1
        } else {
            probe(d, rel, start, max, r, len + 1)
        }
    } else {
        probe(d, rel, start, max, r + 1, len)
    }
}

/// The phrase boundaries of `d` from cursor `start` on: where a phrase of at
/// least `min` tokens starts at the cursor, its longest extension is taken and
/// the cursor moves to its end; elsewhere the cursor moves by one token. The
/// walk stops where fewer than `min` tokens are left.
pub open spec fn phrases_from(d: Seq<u16>, rel: Seq<Seq<u16>>, min: int, max: int, start: int) -> Seq<(int, int)>
    decreases d.len() - start,
    via phrases_from_decreases
{
    if min < 1 || start < 0 || start >= d.len() || start + min > d.len() {
        seq![]
    } else {
        let l = probe(d, rel, start, max, 0, min);
        if l > min {
            seq![(start, start + l - 1)] + phrases_from(d, rel, min, max, start + l - 1)
        } else {
            phrases_from(d, rel, min, max, start + 1)
        }
    }
}

#[via_fn]
proof fn phrases_from_decreases(d: Seq<u16>, rel: Seq<Seq<u16>>, min: int, max: int, start: int) {
    if !(min < 1 || start < 0 || start >= d.len() || start + min > d.len()) {
        lemma_probe_bounds(d, rel, start, max, 0, min);
    }
}

/// The phrase boundaries of a whole document.
pub open spec fn phrases(d: Seq<u16>, rel: Seq<Seq<u16>>, min: int, max: int) -> Seq<(int, int)> {
    phrases_from(d, rel, min, max, 0)
}

proof fn lemma_probe_bounds(d: Seq<u16>, rel: Seq<Seq<u16>>, start: int, max: int, r: int, len: int)
    requires
        0 <= start,
        0 <= len,
        start + len <= d.len(),
    ensures
        len <= probe(d, rel, start, max, r, len),
        len <= max ==> probe(d, rel, start, max, r, len) <= max + 1,
        start + probe(d, rel, start, max, r, len) <= d.len() + 1,
    decreases rel.len() - r, d.len() - start - len,
{
    if r < 0 || r >= rel.len() {
    } else if occurs(rel[r], d.subrange(start, start + len)) {
        if len + 1 > max || start + len + 1 > d.len() {
        } else {
            lemma_probe_bounds(d, rel, start, max, r, len + 1);
        }
    } else {
        lemma_probe_bounds(d, rel, start, max, r + 1, len);
    }
}

/// The length one past the longest phrase at `start`, relevant documents
/// taken in their order.
fn probe_len(
    document: &Document,
    relevant_documents: &Vec<&Document>,
    start: usize,
    min_phrase_len: usize,
    max_phrase_len: usize,
) -> (r: usize)
    requires
        document.wf(),
        forall|i: int| 0 <= i < relevant_documents@.len() ==> (#[trigger] relevant_documents@[i]).wf(),
        1 <= min_phrase_len <= max_phrase_len,
        start + min_phrase_len <= document@.len(),
    ensures
        r == probe(document@, views(relevant_documents@), start as int, max_phrase_len as int, 0, min_phrase_len as int),
{
    let ghost d = document@;
    let ghost rel = views(relevant_documents@);
    let ghost goal = probe(d, rel, start as int, max_phrase_len as int, 0, min_phrase_len as int);
    proof {
        document.lemma_len_bound();
    }
    let mut len: usize = min_phrase_len;
    let mut r: usize = 0;
    while r < relevant_documents.len()
        invariant
            forall|i: int| 0 <= i < relevant_documents@.len() ==> (#[trigger] relevant_documents@[i]).wf(),
            d == document@,
            d.len() <= MAX_ENCODED_LEN,
            rel == views(relevant_documents@),
            min_phrase_len <= len <= max_phrase_len,
            start + len <= d.len(),
            r <= relevant_documents@.len(),
            probe(d, rel, start as int, max_phrase_len as int, r as int, len as int) == goal,
            goal == probe(d, rel, start as int, max_phrase_len as int, 0, min_phrase_len as int),
        decreases relevant_documents@.len() - r,
    {
        let relevant = relevant_documents[r];
        while relevant.contains(document.get_slice(start, start + len))
            invariant
                relevant.wf(),
                relevant@ == rel[r as int],
                d == document@,
                d.len() <= MAX_ENCODED_LEN,
                rel == views(relevant_documents@),
                min_phrase_len <= len <= max_phrase_len,
                start + len <= d.len(),
                r < relevant_documents@.len(),
                probe(d, rel, start as int, max_phrase_len as int, r as int, len as int) == goal,
            goal == probe(d, rel, start as int, max_phrase_len as int, 0, min_phrase_len as int),
            decreases d.len() - len,
        {
            let ghost shorter = len as int;
            len = len + 1;
            if len > max_phrase_len || start + len > document.len() {
                assert(probe(d, rel, start as int, max_phrase_len as int, r as int, shorter) == len);
                return len;
            }
        }
        r = r + 1;
    }
    len
}

/// The phrase boundaries `[start, end)` of `document`, from left to right.
pub fn collect_phrases_per_document(
    document: &Document,
    relevant_documents: &Vec<&Document>,
    min_phrase_len: usize,
    max_phrase_len: usize,
) -> (r: Vec<(usize, usize)>)
    requires
        document.wf(),
        forall|i: int| 0 <= i < relevant_documents@.len() ==> (#[trigger] relevant_documents@[i]).wf(),
        1 <= min_phrase_len <= max_phrase_len,
    ensures
        as_ints(r@) == phrases(document@, views(relevant_documents@), min_phrase_len as int, max_phrase_len as int),
{
    let ghost d = document@;
    let ghost rel = views(relevant_documents@);
    let ghost min = min_phrase_len as int;
    let ghost max = max_phrase_len as int;
    proof {
        document.lemma_len_bound();
    }
    let mut found: Vec<(usize, usize)> = Vec::new();
    let mut start: usize = 0;
    while start < document.len()
        invariant
            forall|i: int| 0 <= i < relevant_documents@.len() ==> (#[trigger] relevant_documents@[i]).wf(),
            1 <= min_phrase_len <= max_phrase_len,
            document.wf(),
            d == document@,
            d.len() <= MAX_ENCODED_LEN,
            rel == views(relevant_documents@),
            min == min_phrase_len,
            max == max_phrase_len,
            start <= d.len(),
            as_ints(found@) + phrases_from(d, rel, min, max, start as int) == phrases(d, rel, min, max),
        ensures
            start >= d.len() || start + min > d.len(),
            as_ints(found@) + phrases_from(d, rel, min, max, start as int) == phrases(d, rel, min, max),
        decreases d.len() - start,
    {
        if min_phrase_len > document.len() - start {
            break;
        }
        let len = probe_len(document, relevant_documents, start, min_phrase_len, max_phrase_len);
        proof {
            lemma_probe_bounds(d, rel, start as int, max, 0, min);
        }
        let ghost old_found = found@;
        if len > min_phrase_len {
            found.push((start, start + len - 1));
            proof {
                assert(as_ints(found@) =~= as_ints(old_found).push((start as int, start + len - 1)));
                assert(as_ints(found@) + phrases_from(d, rel, min, max, start + len - 1) =~= as_ints(old_found)
                    + phrases_from(d, rel, min, max, start as int));
            }
            start = start + len - 1;
        } else {
            start = start + 1;
        }
    }
    assert(phrases_from(d, rel, min, max, start as int) =~= Seq::<(int, int)>::empty());
    assert(as_ints(found@) =~= as_ints(found@) + phrases_from(d, rel, min, max, start as int));
    found
}


/// Position `p` lies inside one of the boundaries `bs`.
pub open spec fn covered(bs: Seq<(int, int)>, p: int) -> bool {
    exists|i: int| 0 <= i < bs.len() && (#[trigger] bs[i]).0 <= p < bs[i].1
}

proof fn lemma_ordered_from(d: Seq<u16>, rel: Seq<Seq<u16>>, min: int, max: int, start: int)
    requires
        1 <= min <= max,
        0 <= start,
    ensures
        forall|i: int|
            0 <= i < phrases_from(d, rel, min, max, start).len() ==> start <= (
            #[trigger] phrases_from(d, rel, min, max, start)[i]).0 < phrases_from(
                d,
                rel,
                min,
                max,
                start,
            )[i].1 <= d.len(),
        forall|i: int, j: int|
            0 <= i < j < phrases_from(d, rel, min, max, start).len() ==> (#[trigger] phrases_from(
                d,
                rel,
                min,
                max,
                start,
            )[i]).1 <= (#[trigger] phrases_from(d, rel, min, max, start)[j]).0,
    decreases d.len() - start,
{
    if !(start >= d.len() || start + min > d.len()) {
        let l = probe(d, rel, start, max, 0, min);
        lemma_probe_bounds(d, rel, start, max, 0, min);
        if l > min {
            lemma_ordered_from(d, rel, min, max, start + l - 1);
            let rest = phrases_from(d, rel, min, max, start + l - 1);
            let all = phrases_from(d, rel, min, max, start);
            assert(all == seq![(start, start + l - 1)] + rest);
            assert forall|i: int| 0 <= i < all.len() implies start <= (#[trigger] all[i]).0
                < all[i].1 <= d.len() by {
                if i > 0 {
                    assert(all[i] == rest[i - 1]);
                }
            }
            assert forall|i: int, j: int| 0 <= i < j < all.len() implies (#[trigger] all[i]).1
                <= (#[trigger] all[j]).0 by {
                assert(all[j] == rest[j - 1]);
                if i > 0 {
                    assert(all[i] == rest[i - 1]);
                }
            }
        } else {
            lemma_ordered_from(d, rel, min, max, start + 1);
            assert(phrases_from(d, rel, min, max, start) == phrases_from(
                d,
                rel,
                min,
                max,
                start + 1,
            ));
        }
    }
}

/// The boundaries of a document lie inside it, each is non-empty, and each
/// ends at or before the next one starts; so they never overlap and their
/// starts strictly increase.
pub proof fn lemma_phrases_ordered(d: Seq<u16>, rel: Seq<Seq<u16>>, min: int, max: int)
    requires
        1 <= min <= max,
    ensures
        forall|i: int|
            0 <= i < phrases(d, rel, min, max).len() ==> 0 <= (#[trigger] phrases(
                d,
                rel,
                min,
                max,
            )[i]).0 < phrases(d, rel, min, max)[i].1 <= d.len(),
        forall|i: int, j: int|
            0 <= i < j < phrases(d, rel, min, max).len() ==> (#[trigger] phrases(
                d,
                rel,
                min,
                max,
            )[i]).1 <= (#[trigger] phrases(d, rel, min, max)[j]).0,
{
    lemma_ordered_from(d, rel, min, max, 0);
}

/// Where the walk over `d` from cursor `start` stops.
pub open spec fn walk_end(d: Seq<u16>, rel: Seq<Seq<u16>>, min: int, max: int, start: int) -> int
    decreases d.len() - start,
    via walk_end_decreases
{
    if min < 1 || start < 0 || start >= d.len() || start + min > d.len() {
        start
    } else {
        let l = probe(d, rel, start, max, 0, min);
        if l > min {
            walk_end(d, rel, min, max, start + l - 1)
        } else {
            walk_end(d, rel, min, max, start + 1)
        }
    }
}

#[via_fn]
proof fn walk_end_decreases(d: Seq<u16>, rel: Seq<Seq<u16>>, min: int, max: int, start: int) {
    if !(min < 1 || start < 0 || start >= d.len() || start + min > d.len()) {
        lemma_probe_bounds(d, rel, start, max, 0, min);
    }
}

/// The cursor positions, from `start` on, where no phrase was found and the
/// walk moved by a single token.
pub open spec fn skips_from(d: Seq<u16>, rel: Seq<Seq<u16>>, min: int, max: int, start: int) -> Seq<int>
    decreases d.len() - start,
    via skips_from_decreases
{
    if min < 1 || start < 0 || start >= d.len() || start + min > d.len() {
        seq![]
    } else {
        let l = probe(d, rel, start, max, 0, min);
        if l > min {
            skips_from(d, rel, min, max, start + l - 1)
        } else {
            seq![start] + skips_from(d, rel, min, max, start + 1)
        }
    }
}

#[via_fn]
proof fn skips_from_decreases(d: Seq<u16>, rel: Seq<Seq<u16>>, min: int, max: int, start: int) {
    if !(min < 1 || start < 0 || start >= d.len() || start + min > d.len()) {
        lemma_probe_bounds(d, rel, start, max, 0, min);
    }
}

proof fn lemma_partition_from(d: Seq<u16>, rel: Seq<Seq<u16>>, min: int, max: int, start: int)
    requires
        1 <= min <= max,
        0 <= start <= d.len(),
    ensures
        start <= walk_end(d, rel, min, max, start) <= d.len(),
        walk_end(d, rel, min, max, start) + min > d.len(),
        forall|p: int|
            start <= p < walk_end(d, rel, min, max, start) ==> covered(
                phrases_from(d, rel, min, max, start),
                p,
            ) != skips_from(d, rel, min, max, start).contains(p),
        forall|p: int|
            walk_end(d, rel, min, max, start) <= p ==> !covered(
                phrases_from(d, rel, min, max, start),
                p,
            ) && !skips_from(d, rel, min, max, start).contains(p),
        forall|k: int|
            0 <= k < skips_from(d, rel, min, max, start).len() ==> start <= #[trigger] skips_from(
                d,
                rel,
                min,
                max,
                start,
            )[k] && probe(d, rel, skips_from(d, rel, min, max, start)[k], max, 0, min) == min,
    decreases d.len() - start,
{
    let all = phrases_from(d, rel, min, max, start);
    let sk = skips_from(d, rel, min, max, start);
    let e = walk_end(d, rel, min, max, start);
    if start >= d.len() || start + min > d.len() {
        assert forall|p: int| !covered(all, p) by {}
    } else {
        let l = probe(d, rel, start, max, 0, min);
        lemma_probe_bounds(d, rel, start, max, 0, min);
        if l > min {
            let next = start + l - 1;
            lemma_partition_from(d, rel, min, max, next);
            let rest = phrases_from(d, rel, min, max, next);
            assert(all == seq![(start, next)] + rest);
            assert(sk == skips_from(d, rel, min, max, next));
            assert forall|p: int| next <= p implies covered(all, p) == covered(rest, p) by {
                if covered(all, p) {
                    let i = choose|i: int| 0 <= i < all.len() && (#[trigger] all[i]).0 <= p < all[i].1;
                    assert(rest[i - 1] == all[i]);
                }
                if covered(rest, p) {
                    let i = choose|i: int| 0 <= i < rest.len() && (#[trigger] rest[i]).0 <= p < rest[i].1;
                    assert(all[i + 1] == rest[i]);
                }
            }
            assert forall|p: int| start <= p < next implies covered(all, p) && !sk.contains(p) by {
                assert(all[0] == (start, next));
                if sk.contains(p) {
                    let k = choose|k: int| 0 <= k < sk.len() && sk[k] == p;
                    assert(next <= sk[k]);
                }
            }
        } else {
            lemma_partition_from(d, rel, min, max, start + 1);
            lemma_ordered_from(d, rel, min, max, start + 1);
            let rest_sk = skips_from(d, rel, min, max, start + 1);
            assert(all == phrases_from(d, rel, min, max, start + 1));
            assert(sk == seq![start] + rest_sk);
            assert forall|p: int| start < p implies sk.contains(p) == rest_sk.contains(p) by {
                if sk.contains(p) {
                    let k = choose|k: int| 0 <= k < sk.len() && sk[k] == p;
                    assert(rest_sk[k - 1] == sk[k]);
                }
                if rest_sk.contains(p) {
                    let k = choose|k: int| 0 <= k < rest_sk.len() && rest_sk[k] == p;
                    assert(sk[k + 1] == rest_sk[k]);
                }
            }
            assert(sk[0] == start);
            assert(sk.contains(start));
            assert(!covered(all, start)) by {
                if covered(all, start) {
                    let i = choose|i: int| 0 <= i < all.len() && (#[trigger] all[i]).0 <= start < all[i].1;
                }
            }
            assert forall|k: int| 0 <= k < sk.len() implies start <= #[trigger] sk[k] && probe(d, rel, sk[k], max, 0, min) == min by {
                if k > 0 {
                    assert(sk[k] == rest_sk[k - 1]);
                }
            }
        }
    }
}

/// The walk over a document stops at a cursor where fewer than `min` tokens
/// are left. Every position before it lies either inside a boundary or is a
/// skipped position, never both, and nothing at or after it is either. At a
/// skipped position not even the shortest candidate occurs in a relevant
/// document.
pub proof fn lemma_phrases_partition(d: Seq<u16>, rel: Seq<Seq<u16>>, min: int, max: int)
    requires
        1 <= min <= max,
    ensures
        walk_end(d, rel, min, max, 0) <= d.len() < walk_end(d, rel, min, max, 0) + min,
        forall|p: int|
            0 <= p < walk_end(d, rel, min, max, 0) ==> covered(phrases(d, rel, min, max), p)
                != skips_from(d, rel, min, max, 0).contains(p),
        forall|p: int|
            walk_end(d, rel, min, max, 0) <= p ==> !covered(phrases(d, rel, min, max), p)
                && !skips_from(d, rel, min, max, 0).contains(p),
        forall|k: int|
            0 <= k < skips_from(d, rel, min, max, 0).len() ==> probe(
                d,
                rel,
                #[trigger] skips_from(d, rel, min, max, 0)[k],
                max,
                0,
                min,
            ) == min,
{
    lemma_partition_from(d, rel, min, max, 0);
}

/// The tokens `d[s..e)` occur in some relevant document.
pub open spec fn found_in_some(d: Seq<u16>, rel: Seq<Seq<u16>>, s: int, e: int) -> bool {
    exists|r: int| 0 <= r < rel.len() && occurs(#[trigger] rel[r], d.subrange(s, e))
}

/// Boundary `[s, e)` of `d` is a maximal phrase: its length lies within
/// `[min, max]`, it occurs in some relevant document, and unless it already
/// has `max` tokens or reaches the end of `d`, no relevant document holds it
/// extended by the next token.
pub open spec fn is_maximal_phrase(d: Seq<u16>, rel: Seq<Seq<u16>>, min: int, max: int, s: int, e: int) -> bool {
    &&& min <= e - s <= max
    &&& found_in_some(d, rel, s, e)
    &&& e - s == max || e == d.len() || forall|r: int|
        0 <= r < rel.len() ==> !occurs(#[trigger] rel[r], d.subrange(s, e + 1))
}

/// Whatever holds a run of `d` holds every shorter run from the same start.
proof fn lemma_occurs_shorter(t: Seq<u16>, d: Seq<u16>, s: int, a: int, b: int)
    requires
        0 <= s,
        0 <= a <= b,
        s + b <= d.len(),
        occurs(t, d.subrange(s, s + b)),
    ensures
        occurs(t, d.subrange(s, s + a)),
{
    let i = choose|i: int| #[trigger] occurs_at(t, d.subrange(s, s + b), i);
    assert forall|j: int| 0 <= j < a implies t[i + j] == #[trigger] d.subrange(s, s + a)[j] by {
        assert(d.subrange(s, s + b)[j] == d[s + j]);
    }
    assert(occurs_at(t, d.subrange(s, s + a), i));
}

proof fn lemma_probe_maximal(d: Seq<u16>, rel: Seq<Seq<u16>>, start: int, max: int, r: int, len: int)
    requires
        0 <= start,
        0 <= len,
        0 <= r,
        start + len <= d.len(),
        forall|k: int| 0 <= k < r && k < rel.len() ==> !occurs(#[trigger] rel[k], d.subrange(start, start + len)),
    ensures
        probe(d, rel, start, max, r, len) > len ==> found_in_some(
            d,
            rel,
            start,
            start + probe(d, rel, start, max, r, len) - 1,
        ),
        probe(d, rel, start, max, r, len) > max || start + probe(d, rel, start, max, r, len) > d.len()
            || forall|k: int|
            0 <= k < rel.len() ==> !occurs(
                #[trigger] rel[k],
                d.subrange(start, start + probe(d, rel, start, max, r, len)),
            ),
    decreases rel.len() - r, d.len() - start - len,
{
    lemma_probe_bounds(d, rel, start, max, r, len);
    if r >= rel.len() {
    } else if occurs(rel[r], d.subrange(start, start + len)) {
        if len + 1 > max || start + len + 1 > d.len() {
            assert(found_in_some(d, rel, start, start + len));
        } else {
            assert forall|k: int| 0 <= k < r && k < rel.len() implies !occurs(
                #[trigger] rel[k],
                d.subrange(start, start + len + 1),
            ) by {
                if occurs(rel[k], d.subrange(start, start + len + 1)) {
                    lemma_occurs_shorter(rel[k], d, start, len, len + 1);
                }
            }
            lemma_probe_maximal(d, rel, start, max, r, len + 1);
            assert(found_in_some(d, rel, start, start + len));
        }
    } else {
        lemma_probe_maximal(d, rel, start, max, r + 1, len);
    }
}

proof fn lemma_maximal_from(d: Seq<u16>, rel: Seq<Seq<u16>>, min: int, max: int, start: int)
    requires
        1 <= min <= max,
        0 <= start,
    ensures
        forall|i: int|
            0 <= i < phrases_from(d, rel, min, max, start).len() ==> is_maximal_phrase(
                d,
                rel,
                min,
                max,
                (#[trigger] phrases_from(d, rel, min, max, start)[i]).0,
                phrases_from(d, rel, min, max, start)[i].1,
            ),
    decreases d.len() - start,
{
    if !(start >= d.len() || start + min > d.len()) {
        let l = probe(d, rel, start, max, 0, min);
        lemma_probe_bounds(d, rel, start, max, 0, min);
        let all = phrases_from(d, rel, min, max, start);
        if l > min {
            let next = start + l - 1;
            lemma_probe_maximal(d, rel, start, max, 0, min);
            lemma_maximal_from(d, rel, min, max, next);
            let rest = phrases_from(d, rel, min, max, next);
            assert(all == seq![(start, next)] + rest);
            assert(is_maximal_phrase(d, rel, min, max, start, next));
            assert forall|i: int| 0 <= i < all.len() implies is_maximal_phrase(
                d,
                rel,
                min,
                max,
                (#[trigger] all[i]).0,
                all[i].1,
            ) by {
                if i > 0 {
                    assert(all[i] == rest[i - 1]);
                }
            }
        } else {
            lemma_maximal_from(d, rel, min, max, start + 1);
            assert(all == phrases_from(d, rel, min, max, start + 1));
        }
    }
}

/// Every boundary of a document is a maximal phrase: between `min` and `max`
/// tokens long, found in some relevant document, and not extendable by its
/// next token in any relevant document unless a cap stopped it.
pub proof fn lemma_phrases_maximal(d: Seq<u16>, rel: Seq<Seq<u16>>, min: int, max: int)
    requires
        1 <= min <= max,
    ensures
        forall|i: int|
            0 <= i < phrases(d, rel, min, max).len() ==> is_maximal_phrase(
                d,
                rel,
                min,
                max,
                (#[trigger] phrases(d, rel, min, max)[i]).0,
                phrases(d, rel, min, max)[i].1,
            ),
{
    lemma_maximal_from(d, rel, min, max, 0);
}

} // verus!
