use oxide::loader::{collect_blobs, inline_blob, ChangedContent};
use oxide::order::{lex_le_exec, sort_candidates};
use oxide::pipeline::parse_all_blobs;

#[test]
fn order_independence_of_the_batch() {
    let a = b"z-10 b-2".to_vec();
    let b = b"a-1 z-10".to_vec();
    let c = b"m-5".to_vec();
    let first = parse_all_blobs(&vec![a.clone(), b.clone(), c.clone()]);
    let second = parse_all_blobs(&vec![c, b, a]);
    assert_eq!(first, second);
    assert_eq!(
        first,
        vec![
            "a-1".to_string(),
            "b-2".to_string(),
            "m-5".to_string(),
            "z-10".to_string()
        ]
    );
}

#[test]
fn cross_blob_dedup() {
    let blobs = vec![b"p-4 m-2".to_vec(), b"m-2 p-4".to_vec()];
    assert_eq!(
        parse_all_blobs(&blobs),
        vec!["m-2".to_string(), "p-4".to_string()]
    );
}

#[test]
fn empty_batch_yields_nothing() {
    assert_eq!(parse_all_blobs(&Vec::new()), Vec::<String>::new());
}

#[test]
fn sorting_is_byte_lexicographic() {
    let input = vec![b"b-2".to_vec(), b"a-10".to_vec(), b"a-1".to_vec()];
    let sorted = sort_candidates(input);
    assert_eq!(sorted, vec![b"a-1".to_vec(), b"a-10".to_vec(), b"b-2".to_vec()]);
}

#[test]
fn lex_compare_prefix_and_bytes() {
    assert!(lex_le_exec(&b"a".to_vec(), &b"ab".to_vec()));
    assert!(!lex_le_exec(&b"ab".to_vec(), &b"a".to_vec()));
    assert!(lex_le_exec(&b"a-1".to_vec(), &b"a-2".to_vec()));
    assert!(lex_le_exec(&b"".to_vec(), &b"".to_vec()));
}

#[test]
fn inline_unit_becomes_its_bytes() {
    let unit = ChangedContent {
        file: None,
        content: Some("p-4".to_string()),
        extension: "html".to_string(),
    };
    assert_eq!(inline_blob(&unit), Some(b"p-4".to_vec()));
}

#[test]
fn unit_without_path_or_content_is_an_empty_blob() {
    let unit = ChangedContent {
        file: None,
        content: None,
        extension: "html".to_string(),
    };
    assert_eq!(inline_blob(&unit), Some(Vec::new()));
}

#[test]
fn path_backed_unit_needs_a_read() {
    let unit = ChangedContent {
        file: Some("index.html".to_string()),
        content: None,
        extension: "html".to_string(),
    };
    assert_eq!(inline_blob(&unit), None);
}

#[test]
fn one_failed_read_fails_the_whole_batch() {
    let parts = vec![Some(b"p-4".to_vec()), None, Some(b"m-2".to_vec())];
    assert_eq!(collect_blobs(&parts), None);
}

#[test]
fn complete_batch_is_kept_in_order() {
    let parts = vec![Some(b"p-4".to_vec()), Some(b"m-2".to_vec())];
    assert_eq!(
        collect_blobs(&parts),
        Some(vec![b"p-4".to_vec(), b"m-2".to_vec()])
    );
}
