//! Greedy phrase segmentation of token sequences against relevant documents.
use vstd::prelude::*;

use rayon::iter::{IndexedParallelIterator, IntoParallelRefIterator, ParallelIterator};

use crate::phrases::{as_ints, phrases, views};

pub mod document;
pub mod lexicographic;
pub mod phrases;

pub use crate::document::Document;
pub use crate::phrases::collect_phrases_per_document;

verus! {

/// Why a pair of phrase lengths is refused.
#[derive(Debug, Clone, Copy, PartialEq, Eq)]
pub enum PhraseLenError {
    /// The shortest phrase length is zero.
    MinIsZero,
    /// The longest phrase length is below the shortest.
    MaxBelowMin,
}

/// Every document of every entry carries a sound index.
pub open spec fn entries_wf(entries: Seq<(&Document, Vec<&Document>)>) -> bool {
    forall|i: int|
        0 <= i < entries.len() ==> {
            &&& (#[trigger] entries[i]).0.wf()
            &&& forall|j: int| 0 <= j < entries[i].1@.len() ==> (#[trigger] entries[i].1@[j]).wf()
        }
}

/// Entry `i` of `out` holds the phrase boundaries of entry `i` of `entries`.
pub open spec fn phrases_of_entries(
    entries: Seq<(&Document, Vec<&Document>)>,
    out: Seq<Vec<(usize, usize)>>,
    min: int,
    max: int,
) -> bool {
    &&& out.len() == entries.len()
    &&& forall|i: int|
        0 <= i < out.len() ==> as_ints((#[trigger] out[i])@) == phrases(
            entries[i].0@,
            views(entries[i].1@),
            min,
            max,
        )
}

/// The phrase lists of a batch are fixed by its entries and the two lengths
/// alone: any two results that meet the contract of `collect_phrases` on the
/// same input, however many workers made them, agree list for list.
pub proof fn lemma_phrases_of_entries_unique(
    entries: Seq<(&Document, Vec<&Document>)>,
    a: Seq<Vec<(usize, usize)>>,
    b: Seq<Vec<(usize, usize)>>,
    min: int,
    max: int,
)
    requires
        phrases_of_entries(entries, a, min, max),
        phrases_of_entries(entries, b, min, max),
    ensures
        a.len() == b.len(),
        forall|i: int| 0 <= i < a.len() ==> (#[trigger] a[i])@ == b[i]@,
{
    assert forall|i: int| 0 <= i < a.len() implies (#[trigger] a[i])@ == b[i]@ by {
        let x = a[i]@;
        let y = b[i]@;
        assert(as_ints(x) == as_ints(y));
        assert forall|j: int| 0 <= j < x.len() implies x[j] == y[j] by {
            assert(as_ints(x)[j] == as_ints(y)[j]);
        }
        assert(x =~= y);
    }
}

/// Relies on rayon's `IndexedParallelIterator::collect_into_vec`, which puts
/// the item made from entry `i` of the slice at index `i`, whatever order the
/// workers finish in. Each item is made by `collect_phrases_per_document`.
#[verifier::external_body]
fn collect_in_parallel(
    document_set: &[(&Document, Vec<&Document>)],
    min_phrase_len: usize,
    max_phrase_len: usize,
) -> (r: Vec<Vec<(usize, usize)>>)
    requires
        entries_wf(document_set@),
        1 <= min_phrase_len <= max_phrase_len,
    ensures
        phrases_of_entries(document_set@, r@, min_phrase_len as int, max_phrase_len as int),
{
    let mut out = Vec::new();
    document_set
        .par_iter()
        .map(|(d, rel)| collect_phrases_per_document(d, rel, min_phrase_len, max_phrase_len))
        .collect_into_vec(&mut out);
    out
}

/// The phrase boundaries of each entry's document against that entry's
/// relevant documents, one list per entry and in the order of the entries.
/// Entries are worked on in parallel.
pub fn collect_phrases(
    document_set: &[(&Document, Vec<&Document>)],
    min_phrase_len: usize,
    max_phrase_len: usize,
) -> (r: Result<Vec<Vec<(usize, usize)>>, PhraseLenError>)
    requires
        entries_wf(document_set@),
    ensures
        min_phrase_len == 0 <==> (r is Err && r->Err_0 == PhraseLenError::MinIsZero),
        (min_phrase_len >= 1 && max_phrase_len < min_phrase_len) <==> (r is Err && r->Err_0
            == PhraseLenError::MaxBelowMin),
        r is Ok ==> phrases_of_entries(
            document_set@,
            r->Ok_0@,
            min_phrase_len as int,
            max_phrase_len as int,
        ),
{
    if min_phrase_len == 0 {
        return Err(PhraseLenError::MinIsZero);
    }
    if max_phrase_len < min_phrase_len {
        return Err(PhraseLenError::MaxBelowMin);
    }
    Ok(collect_in_parallel(document_set, min_phrase_len, max_phrase_len))
}

} // verus!
