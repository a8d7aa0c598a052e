use oxide::pipeline::parse_all_blobs;
use oxide::scanner::scan_candidates;

fn parse_one(blob: &[u8]) -> Vec<String> {
    parse_all_blobs(&vec![blob.to_vec()])
}

fn scan_sorted(blob: &[u8]) -> Vec<String> {
    let mut out: Vec<String> = scan_candidates(&blob.to_vec())
        .into_iter()
        .map(|b| String::from_utf8(b).unwrap())
        .collect();
    out.sort();
    out
}

#[test]
fn intra_file_dedup() {
    let blob = b"hover:bg-red-500 hover:bg-red-500 hover:bg-red-500";
    assert_eq!(parse_one(blob), vec!["hover:bg-red-500".to_string()]);
}

#[test]
fn bracket_balancing_full_span() {
    let blob = b"bg-[url(/a[b]c)]";
    assert_eq!(parse_one(blob), vec!["bg-[url(/a[b]c)]".to_string()]);
}

#[test]
fn bracket_unbalanced_dropped() {
    let blob = b"bg-[url(/a";
    assert_eq!(parse_one(blob), Vec::<String>::new());
}

#[test]
fn boundary_correctness() {
    let blob = b"<div class=\"p-4 m-2\">";
    assert_eq!(parse_one(blob), vec!["m-2".to_string(), "p-4".to_string()]);
}

#[test]
fn escaped_quote_does_not_terminate() {
    let blob = b"content-['it\\'s']";
    assert_eq!(parse_one(blob), vec!["content-['it\\'s']".to_string()]);
}

#[test]
fn empty_input_yields_nothing() {
    assert_eq!(parse_one(b""), Vec::<String>::new());
}

#[test]
fn whitespace_only_yields_nothing() {
    assert_eq!(parse_one(b" \t\r\n  \x0b\x0c "), Vec::<String>::new());
}

#[test]
fn sort_correctness() {
    let blob = b"z-10 a-1 m-5";
    assert_eq!(
        parse_one(blob),
        vec!["a-1".to_string(), "m-5".to_string(), "z-10".to_string()]
    );
}

#[test]
fn scanning_twice_yields_equal_sets() {
    let blob = b"p-4 m-2 p-4 hover:underline-1 m-2";
    let first = scan_sorted(blob);
    let second = scan_sorted(blob);
    assert_eq!(first, second);
    assert_eq!(
        first,
        vec![
            "hover:underline-1".to_string(),
            "m-2".to_string(),
            "p-4".to_string()
        ]
    );
}

#[test]
fn variant_chain_is_one_candidate() {
    let blob = b"hover:focus:bg-red-500/50";
    assert_eq!(parse_one(blob), vec!["hover:focus:bg-red-500/50".to_string()]);
}

#[test]
fn important_marker_starts_a_candidate() {
    let blob = b"!m-4 x!y-1";
    assert_eq!(
        parse_one(blob),
        vec!["!m-4".to_string(), "!y-1".to_string()]
    );
}

#[test]
fn bare_words_are_not_candidates() {
    let blob = b"div class flex container 100";
    assert_eq!(parse_one(blob), Vec::<String>::new());
}

#[test]
fn spaces_inside_brackets_do_not_split() {
    let blob = b"grid-cols-[repeat(2, minmax(0,1fr))]";
    assert_eq!(
        parse_one(blob),
        vec!["grid-cols-[repeat(2, minmax(0,1fr))]".to_string()]
    );
}

#[test]
fn invalid_utf8_span_is_dropped() {
    let blob = b"a-[\xff\xfe] p-4";
    assert_eq!(parse_one(blob), vec!["p-4".to_string()]);
}

#[test]
fn multibyte_text_around_candidates() {
    let mut blob: Vec<u8> = Vec::new();
    blob.extend_from_slice("日本語 ".as_bytes());
    blob.extend_from_slice(b"p-4");
    blob.extend_from_slice(" 中文".as_bytes());
    assert_eq!(parse_all_blobs(&vec![blob]), vec!["p-4".to_string()]);
}

#[test]
fn multibyte_value_inside_brackets_survives() {
    let blob = "content-['日本']".as_bytes();
    assert_eq!(parse_one(blob), vec!["content-['日本']".to_string()]);
}

#[test]
fn quotes_at_top_level_are_boundaries() {
    let blob = b"class='p-4 m-2'";
    assert_eq!(parse_one(blob), vec!["m-2".to_string(), "p-4".to_string()]);
}

#[test]
fn quoted_closer_does_not_close_the_bracket() {
    let blob = b"bg-[']']";
    assert_eq!(parse_one(blob), vec!["bg-[']']".to_string()]);
}

#[test]
fn percent_and_slash_are_body_bytes() {
    let blob = b"w-1/2 opacity-50% done.";
    assert_eq!(
        parse_one(blob),
        vec!["opacity-50%".to_string(), "w-1/2".to_string()]
    );
}
