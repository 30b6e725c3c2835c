use vimania_todos::tags::{
    join_commas, lex_le_str, normalize_strings, split_commas, tags_to_block, tags_to_storage,
    trim_string,
};

fn strings(v: &[&str]) -> Vec<String> {
    v.iter().map(|s| s.to_string()).collect()
}

#[test]
fn trim_removes_both_ends() {
    assert_eq!(trim_string("  hello  "), "hello");
    assert_eq!(trim_string("\t tabbed\t"), "tabbed");
    assert_eq!(trim_string("plain"), "plain");
    assert_eq!(trim_string("   "), "");
    assert_eq!(trim_string(""), "");
}

#[test]
fn split_keeps_empty_pieces() {
    assert_eq!(split_commas("a,b,c"), strings(&["a", "b", "c"]));
    assert_eq!(split_commas(",a,"), strings(&["", "a", ""]));
    assert_eq!(split_commas(""), strings(&[""]));
    assert_eq!(split_commas(",,"), strings(&["", "", ""]));
}

#[test]
fn join_is_inverse_of_split_without_empties() {
    assert_eq!(join_commas(&strings(&["a", "b", "c"])), "a,b,c");
    assert_eq!(join_commas(&strings(&["solo"])), "solo");
    assert_eq!(join_commas(&strings(&[])), "");
}

#[test]
fn normalize_sorts_ascending() {
    let r = normalize_strings(strings(&["zzz", "aaa", "mmm"]));
    assert_eq!(r, strings(&["aaa", "mmm", "zzz"]));
}

#[test]
fn normalize_trims_and_drops_empties() {
    let r = normalize_strings(strings(&[" b ", "", "a", "  "]));
    assert_eq!(r, strings(&["a", "b"]));
}

#[test]
fn normalize_keeps_duplicates() {
    let r = normalize_strings(strings(&["a", "a"]));
    assert_eq!(r, strings(&["a", "a"]));
}

#[test]
fn normalize_is_idempotent() {
    let once = normalize_strings(strings(&["zz", " b", "", "a ", "b"]));
    let twice = normalize_strings(once.clone());
    assert_eq!(once, twice);
}

#[test]
fn empty_normalized_set_gives_empty_block() {
    let r = normalize_strings(strings(&["", "  ", ""]));
    assert_eq!(r, strings(&[]));
    assert_eq!(tags_to_block(&r), "");
}

#[test]
fn nonempty_set_renders_block() {
    assert_eq!(tags_to_block(&strings(&["a", "b"])), "{t:a,b}");
}

#[test]
fn storage_form_wraps_commas() {
    assert_eq!(tags_to_storage(&strings(&["a", "b"])), ",a,b,");
    assert_eq!(tags_to_storage(&strings(&[])), ",,");
}

#[test]
fn lexicographic_comparison() {
    assert!(lex_le_str("a", "b"));
    assert!(lex_le_str("a", "a"));
    assert!(!lex_le_str("b", "a"));
    assert!(lex_le_str("ab", "b"));
    assert!(lex_le_str("a", "ab"));
    assert!(!lex_le_str("ab", "a"));
    assert!(lex_le_str("", "a"));
}
