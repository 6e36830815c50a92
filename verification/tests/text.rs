use spent::order::{sort_order, SortKey};
use spent::text::{chars_of, slice_of, starts_with, text_less, trim, trim_bounds};

fn key(rank: i64, text: &str) -> SortKey {
    SortKey { rank, text: text.chars().collect() }
}

#[test]
fn trim_removes_surrounding_white_space() {
    assert_eq!(trim("  coffee  "), "coffee");
    assert_eq!(trim("\t a b \r\n"), "a b");
    assert_eq!(trim("\u{a0}\u{3000}x\u{2003}"), "x");
    assert_eq!(trim("   "), "");
    assert_eq!(trim(""), "");
    assert_eq!(trim("plain"), "plain");
}

#[test]
fn trim_bounds_of_characters() {
    let v: Vec<char> = " ab  ".chars().collect();
    assert_eq!(trim_bounds(&v), (1, 3));
    let blank: Vec<char> = "  ".chars().collect();
    let (from, to) = trim_bounds(&blank);
    assert_eq!(from, to);
}

#[test]
fn characters_of_a_text() {
    assert_eq!(chars_of("a\u{20ac}b"), vec!['a', '\u{20ac}', 'b']);
    assert_eq!(slice_of(&chars_of("abcdef"), 2, 4), vec!['c', 'd']);
}

#[test]
fn texts_are_ordered_by_code_point() {
    assert!(text_less(&chars_of("2024-01"), &chars_of("2024-02")));
    assert!(!text_less(&chars_of("2024-02"), &chars_of("2024-01")));
    assert!(text_less(&chars_of("abc"), &chars_of("abcd")));
    assert!(!text_less(&chars_of("abc"), &chars_of("abc")));
    assert!(text_less(&chars_of(""), &chars_of("a")));
    assert!(text_less(&chars_of("Z"), &chars_of("a")));
}

#[test]
fn prefix_of_a_text() {
    assert!(starts_with(&chars_of("2024-03-15 00:00:00"), &chars_of("2024-03")));
    assert!(starts_with(&chars_of("2024-03-15 00:00:00"), &chars_of("")));
    assert!(!starts_with(&chars_of("2024-03-15 00:00:00"), &chars_of("2024-04")));
    assert!(!starts_with(&chars_of("2024"), &chars_of("2024-04")));
}

#[test]
fn sort_order_is_ascending_and_stable() {
    let keys = vec![key(1, "b"), key(0, "z"), key(1, "a"), key(1, "b"), key(0, "a")];
    assert_eq!(sort_order(&keys, false), vec![4, 1, 2, 0, 3]);
}

#[test]
fn sort_order_descending_keeps_equal_keys_as_they_stood() {
    let keys = vec![key(0, "2024-01"), key(0, "2024-03"), key(0, "2024-01"), key(0, "2024-02")];
    assert_eq!(sort_order(&keys, true), vec![1, 3, 0, 2]);
    assert_eq!(sort_order(&Vec::new(), true), Vec::<usize>::new());
}
