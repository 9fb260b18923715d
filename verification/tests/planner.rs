use word_count::plan::plan_chunks;

#[test]
fn test_divide_file_into_equal_chunks() {
    let content = "Line 1\nLine 2\nLine 3\nLine 4\nLine 5\nLine 6\n";
    let data: Vec<u8> = content.as_bytes().to_vec();

    let chunks = plan_chunks(&data, 3);

    assert!(
        chunks.len() >= 2 && chunks.len() <= 3,
        "Expected 2 or 3 chunks, got {}",
        chunks.len()
    );
    assert_eq!(chunks[0].start, 0);
    assert!(chunks[0].end >= 14); // At least "Line 1\nLine 2\n"
    assert_eq!(chunks[1].start, chunks[0].end);
    if chunks.len() == 3 {
        assert!(chunks[1].end >= 28); // At least up to "Line 3\nLine 4\n"
        assert_eq!(chunks[2].start, chunks[1].end);
        assert_eq!(chunks[2].end, 42); // Total file size
    } else {
        assert_eq!(chunks[1].end, 42); // Total file size
    }
}

#[test]
fn test_divide_empty_file() {
    let data: Vec<u8> = Vec::new();

    let chunks = plan_chunks(&data, 3);

    assert_eq!(chunks.len(), 1);
    assert_eq!(chunks[0].start, 0);
    assert_eq!(chunks[0].end, 0);
}

#[test]
fn test_divide_file_more_chunks_than_lines() {
    let content = "Line 1\nLine 2\n";
    let data: Vec<u8> = content.as_bytes().to_vec();

    let chunks = plan_chunks(&data, 5);

    assert!(
        chunks.len() <= 5,
        "Expected at most 5 chunks, got {}",
        chunks.len()
    );
    assert!(
        chunks.len() >= 2,
        "Expected at least 2 chunks, got {}",
        chunks.len()
    );
    assert_eq!(chunks[0].start, 0);
    assert!(chunks[0].end > 0);
    assert_eq!(chunks.last().unwrap().end, 14); // Total file size
}

#[test]
fn test_divide_file_with_very_long_line() {
    let content = "Short line\n".to_string() + &"A".repeat(10000) + "\nAnother short line\n";
    let content_len = content.len() as u64;
    let data: Vec<u8> = content.into_bytes();

    let chunks = plan_chunks(&data, 3);

    assert!(
        chunks.len() <= 3,
        "Expected at most 3 chunks, got {}",
        chunks.len()
    );

    // Check if any chunk contains the long line
    let long_line_chunk = chunks.iter().find(|chunk| chunk.end - chunk.start >= 10000);
    assert!(long_line_chunk.is_some(), "No chunk contains the long line");

    // Ensure the last chunk ends at the file size
    assert_eq!(chunks.last().unwrap().end, content_len);
}

#[test]
fn test_divide_file_into_unequal_chunks() {
    // Given
    let content = "Line 1\nLine 2\nLine 3\nLine 4\nLine 5\n";
    let data: Vec<u8> = content.as_bytes().to_vec();

    // When
    let chunks = plan_chunks(&data, 3);

    // Then
    assert_eq!(chunks.len(), 3);
    assert!(chunks[0].end > chunks[0].start);
    assert!(chunks[1].end > chunks[1].start);
    assert!(chunks[2].end > chunks[2].start);
    assert_eq!(chunks[2].end, 35); // Total file size
}

#[test]
fn test_divide_file_with_one_chunk() {
    // Given
    let content = "Line 1\nLine 2\nLine 3\n";
    let data: Vec<u8> = content.as_bytes().to_vec();

    // When
    let chunks = plan_chunks(&data, 1);

    // Then
    assert_eq!(chunks.len(), 1);
    assert_eq!(chunks[0].start, 0);
    assert_eq!(chunks[0].end, 21); // Total file size
}

#[test]
fn test_divide_never_splits_a_line() {
    // Every chunk boundary must fall right after a newline or at the ends.
    let content = "alpha beta\ngamma\ndelta epsilon zeta\neta\ntheta iota\n";
    let data: Vec<u8> = content.as_bytes().to_vec();

    for k in 1..8usize {
        let chunks = plan_chunks(&data, k);
        assert_eq!(chunks[0].start, 0);
        assert_eq!(chunks.last().unwrap().end as usize, data.len());
        for w in chunks.windows(2) {
            assert_eq!(w[0].end, w[1].start);
        }
        for c in &chunks {
            let e = c.end as usize;
            assert!(e == 0 || e == data.len() || data[e - 1] == b'\n');
        }
    }
}
