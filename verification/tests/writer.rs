use word_count::output::render_entries;
use word_count::sort::{key_le_str, sort_entries};

fn entries(pairs: &[(&str, u64)]) -> Vec<(String, u64)> {
    pairs.iter().map(|(k, c)| (k.to_string(), *c)).collect()
}

fn render_sorted(pairs: &[(&str, u64)]) -> String {
    render_entries(&sort_entries(&entries(pairs)))
}

#[test]
fn test_write_results_with_empty_map() {
    let content = render_sorted(&[]);
    assert!(content.is_empty(), "File should be empty");
}

#[test]
fn test_write_results_with_single_word() {
    let content = render_sorted(&[("hello", 1)]);
    assert_eq!(content, "hello: 1\n", "File should contain 'hello: 1'");
}

#[test]
fn test_write_results_with_multiple_words() {
    let content = render_sorted(&[("hello", 2), ("world", 1), ("rust", 3)]);
    let expected = "hello: 2\nrust: 3\nworld: 1\n";
    assert_eq!(content, expected, "File content should match expected output");
}

#[test]
fn test_write_results_sorts_words_alphabetically() {
    let content = render_sorted(&[("zebra", 1), ("apple", 1), ("banana", 1)]);
    let expected = "apple: 1\nbanana: 1\nzebra: 1\n";
    assert_eq!(content, expected, "Words should be sorted alphabetically");
}

#[test]
fn test_write_results_handles_numbers() {
    let content = render_sorted(&[("10", 1), ("2", 1), ("1", 1)]);
    let expected = "1: 1\n2: 1\n10: 1\n";
    assert_eq!(content, expected, "Numbers should be sorted numerically");
}

#[test]
fn test_write_results_handles_mixed_content() {
    let content = render_sorted(&[("apple", 1), ("10", 1), ("banana", 1), ("2", 1)]);
    let expected = "2: 1\n10: 1\napple: 1\nbanana: 1\n";
    assert_eq!(content, expected, "Numbers should be sorted first, then words");
}

#[test]
fn test_sort_is_idempotent_on_sorted_input() {
    // Sorting an already-sorted entry list yields the same list.
    let sorted_once = sort_entries(&entries(&[
        ("7", 1),
        ("19", 2),
        ("200", 1),
        ("car", 4),
        ("cat", 1),
        ("dog", 9),
    ]));
    let sorted_twice = sort_entries(&sorted_once);
    assert_eq!(sorted_twice, sorted_once);
}

#[test]
fn test_numeric_keys_compare_by_value_not_text() {
    assert!(key_le_str("2", "10"));
    assert!(!key_le_str("10", "2"));
    assert!(key_le_str("007", "7"));
    assert!(key_le_str("7", "007"));
    assert!(key_le_str("99999999999999999999999999", "100000000000000000000000000"));
    assert!(!key_le_str("100000000000000000000000000", "99999999999999999999999999"));
}

#[test]
fn test_mixed_keys_compare_lexicographically() {
    assert!(key_le_str("10", "apple"));
    assert!(!key_le_str("apple", "10"));
    assert!(key_le_str("apple", "banana"));
}

#[test]
fn test_counts_render_in_decimal() {
    let content = render_sorted(&[("word", 18446744073709551615)]);
    assert_eq!(content, "word: 18446744073709551615\n");
}
