use phrase_segmentation::{collect_phrases, collect_phrases_per_document, Document, PhraseLenError};

fn docs(list: &[&[u16]]) -> Vec<Document> {
    list.iter().map(|t| Document::from_tokens(t.to_vec())).collect()
}

#[test]
fn test_collect_phrases() {
    let doc1 = Document::from_tokens(vec![0, 1, 2, 3]);
    let doc1_relevant_docs = vec![
        Document::from_tokens(vec![0, 0, 1, 1]),
        Document::from_tokens(vec![0, 2, 3, 3]),
    ];
    let doc2 = Document::from_tokens(vec![4, 5, 6, 7]);
    let doc2_relevant_docs = vec![
        Document::from_tokens(vec![5, 6, 7, 8]),
        Document::from_tokens(vec![4, 5, 6, 7]),
    ];
    let document_set = vec![
        (&doc1, doc1_relevant_docs.iter().collect::<Vec<_>>()),
        (&doc2, doc2_relevant_docs.iter().collect::<Vec<_>>()),
    ];
    let phrases = collect_phrases(document_set.as_slice(), 2, 100).unwrap();
    assert_eq!(phrases.len(), 2);
    assert_eq!(phrases[0], vec![(0, 2), (2, 4)]);
    assert_eq!(phrases[1], vec![(0, 4)]);
}

#[test]
fn phrases_split_across_two_relevant_documents() {
    let doc = Document::from_tokens(vec![0, 1, 2, 3]);
    let rel = docs(&[&[0, 0, 1, 1], &[0, 2, 3, 3]]);
    let refs: Vec<&Document> = rel.iter().collect();
    assert_eq!(collect_phrases_per_document(&doc, &refs, 2, 100), vec![(0, 2), (2, 4)]);
}

#[test]
fn extension_hands_off_to_a_later_relevant_document() {
    let doc = Document::from_tokens(vec![4, 5, 6, 7]);
    let rel = docs(&[&[5, 6, 7, 8], &[4, 5, 6, 7]]);
    let refs: Vec<&Document> = rel.iter().collect();
    assert_eq!(collect_phrases_per_document(&doc, &refs, 2, 100), vec![(0, 4)]);
}

#[test]
fn no_relevant_documents_give_no_phrases() {
    let doc = Document::from_tokens(vec![0, 1, 2]);
    let refs: Vec<&Document> = Vec::new();
    assert_eq!(collect_phrases_per_document(&doc, &refs, 1, 1), vec![]);
    assert_eq!(collect_phrases_per_document(&doc, &refs, 2, 100), vec![]);
}

#[test]
fn min_longer_than_document_gives_no_phrases() {
    let doc = Document::from_tokens(vec![0, 1, 2]);
    let rel = docs(&[&[0, 1, 2]]);
    let refs: Vec<&Document> = rel.iter().collect();
    assert_eq!(collect_phrases_per_document(&doc, &refs, 4, 10), vec![]);
    assert_eq!(collect_phrases_per_document(&doc, &refs, 3, 10), vec![(0, 3)]);
}

#[test]
fn max_len_caps_each_phrase() {
    let doc = Document::from_tokens(vec![1, 2, 3, 4, 5]);
    let rel = docs(&[&[1, 2, 3, 4, 5]]);
    let refs: Vec<&Document> = rel.iter().collect();
    assert_eq!(
        collect_phrases_per_document(&doc, &refs, 1, 2),
        vec![(0, 2), (2, 4), (4, 5)]
    );
}

#[test]
fn unmatched_tokens_are_skipped_one_at_a_time() {
    let doc = Document::from_tokens(vec![9, 1, 2, 9, 9, 3, 4]);
    let rel = docs(&[&[1, 2, 3, 4]]);
    let refs: Vec<&Document> = rel.iter().collect();
    let found = collect_phrases_per_document(&doc, &refs, 2, 10);
    assert_eq!(found, vec![(1, 3), (5, 7)]);
    for w in found.windows(2) {
        assert!(w[0].0 < w[0].1 && w[0].1 <= w[1].0);
    }
}

#[test]
fn rejected_phrase_lengths() {
    let doc = Document::from_tokens(vec![0, 1]);
    let set = vec![(&doc, Vec::new())];
    assert_eq!(collect_phrases(&set, 0, 5), Err(PhraseLenError::MinIsZero));
    assert_eq!(collect_phrases(&set, 3, 2), Err(PhraseLenError::MaxBelowMin));
    assert_eq!(collect_phrases(&set, 2, 2), Ok(vec![vec![]]));
}

#[test]
fn same_output_with_one_or_many_workers() {
    let pool: Vec<Document> = (0..40u16)
        .map(|k| Document::from_tokens((0..30u16).map(|i| (i * (k % 7 + 1)) % 11).collect()))
        .collect();
    let set: Vec<(&Document, Vec<&Document>)> = (0..pool.len())
        .map(|i| (&pool[i], vec![&pool[(i + 1) % pool.len()], &pool[(i + 5) % pool.len()]]))
        .collect();
    let one = rayon::ThreadPoolBuilder::new().num_threads(1).build().unwrap();
    let many = rayon::ThreadPoolBuilder::new().num_threads(8).build().unwrap();
    let a = one.install(|| collect_phrases(&set, 2, 6)).unwrap();
    let b = many.install(|| collect_phrases(&set, 2, 6)).unwrap();
    assert_eq!(a, b);
    for (i, (d, rel)) in set.iter().enumerate() {
        assert_eq!(a[i], collect_phrases_per_document(d, rel, 2, 6));
    }
}
