use word_count::plan::{plan_chunks, ByteRange};
use word_count::read::read_chunk;
use word_count::WcError;

#[test]
fn test_read_entire_file_as_single_chunk() {
    // Given
    let content = "Line 1\nLine 2\nLine 3\n";
    let data: Vec<u8> = content.as_bytes().to_vec();
    let chunk = ByteRange { start: 0, end: content.len() as u64 };

    // When
    let result = read_chunk(&data, &chunk).unwrap();

    // Then
    assert_eq!(result, vec!["Line 1", "Line 2", "Line 3"]);
}

#[test]
fn test_read_partial_file_chunk() {
    // Given
    let content = "Line 1\nLine 2\nLine 3\nLine 4\n";
    let data: Vec<u8> = content.as_bytes().to_vec();
    let chunk = ByteRange { start: 7, end: 20 }; // Should include "Line 2"

    // When
    let result = read_chunk(&data, &chunk).unwrap();

    // Then
    assert_eq!(result, vec!["Line 2"]);
}

#[test]
fn test_read_chunk_with_partial_lines() {
    // Given
    let content = "Line 1\nLine 2\nLine 3\nLine 4\n";
    let data: Vec<u8> = content.as_bytes().to_vec();
    let chunk = ByteRange { start: 3, end: 17 }; // Partial "e 1", "Line 2", partial "Lin"

    // When
    let result = read_chunk(&data, &chunk).unwrap();

    // Then
    assert_eq!(result, vec!["e 1", "Line 2"]);
}

#[test]
fn test_read_empty_chunk() {
    // Given
    let content = "Line 1\nLine 2\n";
    let data: Vec<u8> = content.as_bytes().to_vec();
    let chunk = ByteRange { start: 5, end: 5 };

    // When
    let result = read_chunk(&data, &chunk).unwrap();

    // Then
    assert!(result.is_empty());
}

#[test]
fn test_read_chunk_with_empty_lines() {
    // Given
    let content = "Line 1\n\nLine 3\n";
    let data: Vec<u8> = content.as_bytes().to_vec();
    let chunk = ByteRange { start: 0, end: content.len() as u64 };

    // When
    let result = read_chunk(&data, &chunk).unwrap();

    // Then
    assert_eq!(result, vec!["Line 1", "Line 3"]);
}

#[test]
fn test_read_chunk_beyond_file_end() {
    // Given
    let content = "Line 1\nLine 2\n";
    let data: Vec<u8> = content.as_bytes().to_vec();
    let chunk = ByteRange { start: 0, end: (content.len() + 10) as u64 };

    // When
    let result = read_chunk(&data, &chunk).unwrap();

    // Then
    assert_eq!(result, vec!["Line 1", "Line 2"]);
}

#[test]
fn test_read_overlong_first_line_is_kept() {
    // A line longer than the chunk still belongs to the chunk that
    // started reading it.
    let content = "abcdefghijklmnop\nshort\n";
    let data: Vec<u8> = content.as_bytes().to_vec();
    let chunk = ByteRange { start: 0, end: 4 };

    let result = read_chunk(&data, &chunk).unwrap();

    assert_eq!(result, vec!["abcdefghijklmnop"]);
}

#[test]
fn test_read_chunk_rejects_invalid_utf8() {
    // 0xff can never occur in UTF-8 text.
    let data: Vec<u8> = vec![b'o', b'k', b'\n', 0xff, 0xfe, b'\n'];
    let chunk = ByteRange { start: 0, end: data.len() as u64 };

    let result = read_chunk(&data, &chunk);

    assert!(matches!(result, Err(WcError::OtherIo(_))));
}

#[test]
fn test_read_planned_chunks_reassemble_lines() {
    // Reading every planned chunk in order reproduces the file's lines:
    // no line is dropped, duplicated, or split between chunks.
    let content = "one two\nthree\nfour five six\nseven\neight\nnine ten\n";
    let data: Vec<u8> = content.as_bytes().to_vec();
    let expected: Vec<String> = content
        .lines()
        .map(|l| l.trim().to_string())
        .filter(|l| !l.is_empty())
        .collect();

    for k in 1..6usize {
        let chunks = plan_chunks(&data, k);
        let mut all: Vec<String> = Vec::new();
        for c in &chunks {
            all.extend(read_chunk(&data, c).unwrap());
        }
        assert_eq!(all, expected, "chunk count {} changed the lines", k);
    }
}
