//! Texts and lists.
use output_fuzz_common::order::{
    has_number, has_pair, remove_repeated_pairs, remove_repeats, sort_ranked,
};
use output_fuzz_common::text::{
    bracket, decimal_text, has_text, join_texts, parse_u8, parse_usize, same_text, split_text,
    split_text_once, text_ends_with, text_leq,
};

fn list(items: &[&str]) -> Vec<String> {
    items.iter().map(|item| item.to_string()).collect()
}

#[test]
fn numbers_are_written_in_decimal() {
    assert_eq!(decimal_text(0), "0");
    assert_eq!(decimal_text(10), "10");
    assert_eq!(decimal_text(1_203), "1203");
    assert_eq!(decimal_text(u128::MAX), u128::MAX.to_string());
}

#[test]
fn numbers_read_back() {
    for n in [0usize, 9, 10, 4711, usize::MAX] {
        assert_eq!(parse_usize(&decimal_text(n as u128)), Some(n));
    }
    assert_eq!(parse_u8("255"), Some(255));
    assert_eq!(parse_u8("256"), None);
    assert_eq!(parse_u8("+7"), Some(7));
    for text in ["", "+", "-1", "1 ", "0x1", "++1"] {
        assert_eq!(parse_usize(text), None);
    }
}

#[test]
fn splitting_undoes_joining() {
    let parts = list(&["a", "", "bc"]);
    assert_eq!(join_texts(&parts, ","), "a,,bc");
    assert_eq!(split_text("a,,bc", ','), parts);
    assert_eq!(split_text("", ','), list(&[""]));
    assert_eq!(join_texts(&list(&[]), ","), "");
    assert_eq!(bracket("[", &parts, "]"), "[a, , bc]");
}

#[test]
fn texts_are_cut_at_the_first_separator() {
    assert_eq!(
        split_text_once("a=b=c", '='),
        Some(("a".to_string(), "b=c".to_string()))
    );
    assert_eq!(split_text_once("=", '='), Some((String::new(), String::new())));
    assert_eq!(split_text_once("abc", '='), None);
}

#[test]
fn texts_are_compared_character_by_character() {
    assert!(text_leq("", "a"));
    assert!(text_leq("a", "a"));
    assert!(text_leq("a10", "a2"));
    assert!(!text_leq("b", "a"));
    assert!(!text_leq("ab", "a"));
    assert!(same_text("ä", "ä"));
    assert!(!same_text("a", "A"));
    assert!(text_ends_with("node1.cjs", ".cjs"));
    assert!(!text_ends_with("cjs", ".cjs"));
    assert!(has_text(&list(&["a", "b"]), "b"));
    assert!(!has_text(&list(&["a", "b"]), "c"));
}

#[test]
fn lists_are_sorted_and_lose_repetitions() {
    assert_eq!(sort_ranked(vec![3usize, 1, 2, 1]), vec![1, 1, 2, 3]);
    assert_eq!(sort_ranked(vec![(1usize, 2usize), (0, 9), (1, 0)]), vec![(0, 9), (1, 0), (1, 2)]);
    assert_eq!(sort_ranked(list(&["b", "a10", "a2"])), list(&["a10", "a2", "b"]));
    assert_eq!(remove_repeats(&vec![1, 1, 2, 1]), vec![1, 2, 1]);
    assert_eq!(remove_repeated_pairs(&vec![(1, 2), (1, 2), (1, 3)]), vec![(1, 2), (1, 3)]);
    assert!(has_number(&vec![4, 7], 7));
    assert!(!has_number(&vec![4, 7], 5));
    assert!(has_pair(&vec![(4, 7)], 4, 7));
    assert!(!has_pair(&vec![(4, 7)], 7, 4));
}
