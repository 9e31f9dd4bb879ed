use instapaper::text::{clone_strings, contains_char, decimal_string, join, split};

fn strings(items: &[&str]) -> Vec<String> {
    items.iter().map(|s| s.to_string()).collect()
}

#[test]
fn split_cuts_at_every_separator() {
    assert_eq!(split("a,b,,c", &vec![',']), strings(&["a", "b", "", "c"]));
}

#[test]
fn split_of_empty_text_is_one_empty_piece() {
    assert_eq!(split("", &vec![',']), strings(&[""]));
}

#[test]
fn split_keeps_trailing_empty_piece() {
    assert_eq!(split("line\n", &vec!['\n']), strings(&["line", ""]));
}

#[test]
fn split_with_several_separators() {
    assert_eq!(split("a-b c", &vec!['-', ' ']), strings(&["a", "b", "c"]));
}

#[test]
fn split_without_separator_in_text() {
    assert_eq!(split("plain", &vec![';']), strings(&["plain"]));
}

#[test]
fn split_handles_multibyte_characters() {
    assert_eq!(split("é–ü", &vec!['\u{2013}']), strings(&["é", "ü"]));
}

#[test]
fn join_puts_separator_between_parts() {
    assert_eq!(join(&strings(&["a", "b", "c"]), "|"), "a|b|c");
}

#[test]
fn join_of_nothing_is_empty() {
    assert_eq!(join(&strings(&[]), "|"), "");
}

#[test]
fn join_of_one_part_has_no_separator() {
    assert_eq!(join(&strings(&["only"]), ", "), "only");
}

#[test]
fn join_undoes_split() {
    let text = "one two  three";
    assert_eq!(join(&split(text, &vec![' ']), " "), text);
}

#[test]
fn contains_char_finds_member() {
    assert!(contains_char(&vec!['a', 'b'], 'b'));
    assert!(!contains_char(&vec!['a', 'b'], 'c'));
    assert!(!contains_char(&vec![], 'c'));
}

#[test]
fn clone_strings_copies_every_string() {
    let v = strings(&["x", "", "yz"]);
    assert_eq!(clone_strings(&v), v);
}

#[test]
fn decimal_string_of_small_numbers() {
    assert_eq!(decimal_string(0), "0");
    assert_eq!(decimal_string(7), "7");
    assert_eq!(decimal_string(10), "10");
    assert_eq!(decimal_string(12345), "12345");
}

#[test]
fn decimal_string_of_largest_number() {
    assert_eq!(decimal_string(usize::MAX), usize::MAX.to_string());
}
