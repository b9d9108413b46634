use bf_executor::brackets::{find_close_bracket, is_func};

fn chars(text: &str) -> Vec<char> {
    text.chars().collect()
}

#[test]
fn test_find_close_bracket() {
    let valid_src = String::from("...[...]...").chars().collect();
    assert_eq!(find_close_bracket(3, &valid_src), Some(7));

    let valid_src = String::from("...[.[].]...").chars().collect();
    assert_eq!(find_close_bracket(3, &valid_src), Some(8));

    let invalid_src = String::from("...[...").chars().collect();
    assert_eq!(find_close_bracket(3, &invalid_src), None);
}

#[test]
fn inner_bracket_matches_inner_close() {
    let src = chars("...[.[].]...");
    assert_eq!(find_close_bracket(5, &src), Some(6));
}

#[test]
fn adjacent_brackets_match() {
    let src = chars("[]");
    assert_eq!(find_close_bracket(0, &src), Some(1));
}

#[test]
fn deep_nesting_matches_outermost_close() {
    let src = chars("[[[]]]");
    assert_eq!(find_close_bracket(0, &src), Some(5));
    assert_eq!(find_close_bracket(1, &src), Some(4));
    assert_eq!(find_close_bracket(2, &src), Some(3));
}

#[test]
fn siblings_do_not_match_across() {
    let src = chars("[][]");
    assert_eq!(find_close_bracket(0, &src), Some(1));
    assert_eq!(find_close_bracket(2, &src), Some(3));
}

#[test]
fn unclosed_inner_leaves_outer_unmatched() {
    let src = chars("[[]");
    assert_eq!(find_close_bracket(0, &src), None);
    assert_eq!(find_close_bracket(1, &src), Some(2));
}

#[test]
fn scan_past_the_end_finds_nothing() {
    let src = chars("[]");
    assert_eq!(find_close_bracket(2, &src), None);
    assert_eq!(find_close_bracket(100, &src), None);
    let empty: Vec<char> = Vec::new();
    assert_eq!(find_close_bracket(0, &empty), None);
}

#[test]
fn scan_from_a_close_counts_below_zero() {
    let src = chars("][[]]");
    assert_eq!(find_close_bracket(0, &src), Some(3));
    let src = chars("]");
    assert_eq!(find_close_bracket(0, &src), None);
}

#[test]
fn scan_from_a_plain_character_finds_nothing_balanced() {
    let src = chars(".[]");
    assert_eq!(find_close_bracket(0, &src), Some(2));
    let src = chars("..]");
    assert_eq!(find_close_bracket(0, &src), None);
}

#[test]
fn the_eight_opcodes_are_recognised() {
    for c in ['+', '-', '>', '<', ',', '.', '[', ']'] {
        assert!(is_func(&c));
    }
}

#[test]
fn other_characters_are_no_opcodes() {
    for c in ['a', 'Z', '0', ' ', '\n', '\t', '(', ')', '{', '}', '*', '/', '=', '!', 'é', '\u{0}'] {
        assert!(!is_func(&c));
    }
}
