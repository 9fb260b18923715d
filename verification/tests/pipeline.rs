use word_count::booking::Theater;
use word_count::counts::FrequencyMap;
use word_count::orders::{Order, OrderItem};
use word_count::{count_content, process_content, WcError};

#[test]
fn test_chunk_count_does_not_change_the_counts() {
    // Counting with 1, 2, and 4 chunks yields identical frequency maps.
    let content = "The quick brown fox\njumps over the lazy dog\n\
                   the quick dog naps\nand the fox runs on\n";
    let data: Vec<u8> = content.as_bytes().to_vec();

    let one = count_content(&data, 1).unwrap();
    let two = count_content(&data, 2).unwrap();
    let four = count_content(&data, 4).unwrap();

    assert_eq!(one.len(), two.len());
    assert_eq!(one.len(), four.len());
    for (key, count) in one.to_entries() {
        assert_eq!(two.get(&key), Some(count));
        assert_eq!(four.get(&key), Some(count));
    }
}

#[test]
fn test_end_to_end_two_sentences() {
    let content = "The quick brown fox jumps over the lazy dog.\nThe lazy dog sleeps all day.\n";
    let data: Vec<u8> = content.as_bytes().to_vec();

    let out = process_content(&data, 1).unwrap();

    let lines: Vec<&str> = out.lines().collect();
    assert!(lines.contains(&"the: 3"));
    assert!(lines.contains(&"lazy: 2"));
    assert!(lines.contains(&"dog: 2"));
    assert!(lines.contains(&"quick: 1"));
    // Lexicographically sorted output, one word per line.
    let mut sorted_lines = lines.clone();
    sorted_lines.sort();
    assert_eq!(lines, sorted_lines);
}

#[test]
fn test_empty_input_produces_empty_output() {
    let data: Vec<u8> = Vec::new();

    let out = process_content(&data, 3).unwrap();

    assert_eq!(out, "");
}

#[test]
fn test_invalid_utf8_fails_the_run() {
    let data: Vec<u8> = vec![b'h', b'i', b'\n', 0xc3, 0x28, b'\n'];

    let result = process_content(&data, 2);

    assert!(matches!(result, Err(WcError::OtherIo(_))));
}

#[test]
fn test_merge_adds_counts_per_key() {
    let mut global = FrequencyMap::new();
    let local_a = word_count::counts::count_words(&vec!["a b a".to_string()]);
    let local_b = word_count::counts::count_words(&vec!["b c".to_string()]);

    global.merge(&local_a);
    global.merge(&local_b);

    assert_eq!(global.get("a"), Some(2));
    assert_eq!(global.get("b"), Some(2));
    assert_eq!(global.get("c"), Some(1));
    assert_eq!(global.get("d"), None);
    assert_eq!(global.len(), 3);
}

#[test]
fn test_try_merge_succeeds_on_small_maps() {
    let mut global = FrequencyMap::new();
    let local = word_count::counts::count_words(&vec!["x y".to_string()]);
    assert!(global.try_merge(&local));
    assert_eq!(global.get("x"), Some(1));
    assert_eq!(global.get("y"), Some(1));
}

#[test]
fn test_try_merge_refuses_overflow() {
    let mut a = FrequencyMap { entries: vec![("x".to_string(), u64::MAX)] };
    let b = FrequencyMap { entries: vec![("x".to_string(), 2)] };
    assert!(!a.try_merge(&b));
    assert_eq!(a.get("x"), Some(u64::MAX));
}

#[test]
fn test_error_kinds_are_distinct() {
    let e = WcError::OtherIo("detail".to_string());
    assert!(matches!(e, WcError::OtherIo(ref d) if d == "detail"));
    assert_ne!(WcError::FileNotFound, WcError::PermissionDenied);
}

#[test]
fn test_output_mixes_numbers_before_words() {
    let content = "banana 10 apple 2\n10 banana\n";
    let data: Vec<u8> = content.as_bytes().to_vec();

    let out = process_content(&data, 2).unwrap();

    assert_eq!(out, "2: 1\n10: 2\napple: 1\nbanana: 2\n");
}

#[test]
fn test_crlf_line_endings_are_trimmed() {
    let content = "alpha beta\r\nalpha\r\n";
    let data: Vec<u8> = content.as_bytes().to_vec();

    let out = process_content(&data, 1).unwrap();

    assert_eq!(out, "alpha: 2\nbeta: 1\n");
}

#[test]
fn theater_booking_stops_at_zero() {
    let mut theater = Theater::new(2);
    assert_eq!(theater.get_available_tickets(), 2);
    assert!(theater.book_ticket());
    assert!(theater.book_ticket());
    assert!(!theater.book_ticket());
    assert_eq!(theater.get_available_tickets(), 0);
}

#[test]
fn order_keeps_its_items() {
    let order = Order::new(
        7,
        vec![
            OrderItem { product_id: 1, quantity: 2 },
            OrderItem { product_id: 2, quantity: 3 },
        ],
    );
    assert_eq!(order.id, 7);
    assert_eq!(order.items.len(), 2);
    assert_eq!(order.items[0].product_id, 1);
    assert_eq!(order.items[1].quantity, 3);
}
