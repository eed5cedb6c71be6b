use phrase_segmentation::Document;

#[test]
fn test_contains() {
    let doc = Document::from_tokens(vec![0, 255, 256, 65535]);

    let pat = [0];
    assert!(doc.contains(&pat));
    let pat = [255];
    assert!(doc.contains(&pat));
    let pat = [256];
    assert!(doc.contains(&pat));
    let pat = [65535];
    assert!(doc.contains(&pat));

    let pat = [1];
    assert!(!doc.contains(&pat));
    let pat = [65534];
    assert!(!doc.contains(&pat));

    let pat = [0, 255];
    assert!(doc.contains(&pat));
    let pat = [0, 255, 256];
    assert!(doc.contains(&pat));
    let pat = [0, 255, 256, 65535];
    assert!(doc.contains(&pat));

    let pat = [0, 256];
    assert!(!doc.contains(&pat));
    let pat = [0, 65535];
    assert!(!doc.contains(&pat));
    let pat = [255, 65535];
    assert!(!doc.contains(&pat));
}

#[test]
fn test_get_slice() {
    let doc = Document::from_tokens(vec![0, 1, 2]);
    assert_eq!(doc.get_slice(0, 1), &[0]);
    assert_eq!(doc.get_slice(0, 2), &[0, 1]);
    assert_eq!(doc.get_slice(0, 3), &[0, 1, 2]);
    assert_eq!(doc.get_slice(1, 2), &[1]);
    assert_eq!(doc.get_slice(1, 3), &[1, 2]);
    assert_eq!(doc.get_slice(2, 3), &[2]);
}

#[test]
fn empty_document_holds_only_the_empty_pattern() {
    let doc = Document::from_tokens(vec![]);
    assert!(doc.is_empty());
    assert_eq!(doc.len(), 0);
    assert!(doc.contains(&[]));
    assert!(!doc.contains(&[0]));
}

#[test]
fn every_contiguous_run_is_contained() {
    let tokens: Vec<u16> = vec![3, 1, 4, 1, 5, 9, 2, 6, 5, 3, 5];
    let doc = Document::from_tokens(tokens.clone());
    for i in 0..=tokens.len() {
        for j in i..=tokens.len() {
            assert!(doc.contains(&tokens[i..j]));
        }
    }
    assert!(!doc.contains(&[1, 1]));
    assert!(!doc.contains(&[5, 3, 5, 8]));
    assert!(!doc.contains(&[3, 1, 4, 1, 5, 9, 2, 6, 5, 3, 5, 9]));
}

#[test]
fn byte_neighbours_do_not_cross_token_boundaries() {
    // 0x0100 then 0x0001: no run of bytes may stand for 0x0000 or 0x0101.
    let doc = Document::from_tokens(vec![0x0100, 0x0001, 0x7f80]);
    assert!(doc.contains(&[0x0100, 0x0001]));
    assert!(!doc.contains(&[0x0000]));
    assert!(!doc.contains(&[0x0101]));
    assert!(!doc.contains(&[0x0180]));
    assert!(!doc.contains(&[0x807f]));
    assert!(doc.contains(&[0x7f80]));
}

#[test]
fn length_and_emptiness() {
    let doc = Document::from_tokens(vec![7, 7, 7]);
    assert_eq!(doc.len(), 3);
    assert!(!doc.is_empty());
    assert!(doc.contains(&[7, 7, 7]));
    assert!(!doc.contains(&[7, 7, 7, 7]));
}
