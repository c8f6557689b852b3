use quilt::inputs::parse_input_list;
use quilt::names::disambiguate_names;

fn names(list: &[&str]) -> Vec<Vec<u8>> {
    list.iter().map(|s| s.as_bytes().to_vec()).collect()
}

#[test]
fn duplicates_are_suffixed_from_two() {
    let out = disambiguate_names(&names(&["a", "a", "a"]));
    assert_eq!(out, names(&["a", "a-2", "a-3"]));
}

#[test]
fn distinct_names_are_untouched() {
    let out = disambiguate_names(&names(&["x", "y", "z"]));
    assert_eq!(out, names(&["x", "y", "z"]));
}

#[test]
fn counting_is_per_name() {
    let out = disambiguate_names(&names(&["a", "b", "a", "b", "b"]));
    assert_eq!(out, names(&["a", "b", "a-2", "b-2", "b-3"]));
}

#[test]
fn double_digit_occurrences() {
    let list = vec![b"f".to_vec(); 11];
    let out = disambiguate_names(&list);
    assert_eq!(out[0], b"f".to_vec());
    assert_eq!(out[9], b"f-10".to_vec());
    assert_eq!(out[10], b"f-11".to_vec());
}

#[test]
fn empty_name_list() {
    let out = disambiguate_names(&Vec::new());
    assert!(out.is_empty());
}

#[test]
fn input_list_lines_are_trimmed_and_comments_skipped() {
    let text = b"  one.bin \n\n# a comment\n\ttwo.bin\nthree.bin".to_vec();
    let out = parse_input_list(&text);
    assert_eq!(out, names(&["one.bin", "two.bin", "three.bin"]));
}

#[test]
fn input_list_of_only_comments_is_empty() {
    let text = b"# x\n   \n#\n".to_vec();
    let out = parse_input_list(&text);
    assert!(out.is_empty());
}

#[test]
fn input_list_handles_crlf_line_ends() {
    let text = b"a.bin\r\nb.bin\r\n".to_vec();
    let out = parse_input_list(&text);
    assert_eq!(out, names(&["a.bin", "b.bin"]));
}
