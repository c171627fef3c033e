use oxiden::error::BufferError;
use oxiden::position::{Position, Range};
use oxiden::storage::TextStorage;
use oxiden::storage::vec_storage::VecStorage;

/// A storage holding `lines`, built through the public API.
fn storage(lines: &[&str]) -> VecStorage {
    let mut storage = VecStorage::new();
    let text = lines.join("\n");

    if !text.is_empty() {
        storage.insert(Position::new(0, 0), &text).unwrap();
    }

    storage
}

// ===== Constructor =====

#[test]
fn vec_new_has_one_empty_line() {
    let storage = VecStorage::new();

    assert_eq!(storage.line_count(), 1);
    assert_eq!(storage.line(0), Some(String::new()));
    assert_eq!(storage.len_chars(), 0);
}

// ===== len_chars =====

#[test]
fn vec_len_chars_ascii() {
    let storage = storage(&["abc", "de"]);

    // "abc\nde"
    assert_eq!(storage.len_chars(), 6);
}

#[test]
fn vec_len_chars_unicode() {
    let storage = storage(&["😀😁", "😂"]);

    // 😀😁\n😂
    assert_eq!(storage.len_chars(), 4);
}

// ===== to_text =====

#[test]
fn vec_to_text_single_line() {
    let storage = storage(&["Hello"]);

    assert_eq!(storage.to_text(), "Hello");
}

#[test]
fn vec_to_text_multiple_lines() {
    let storage = storage(&["one", "two", "three"]);

    assert_eq!(storage.to_text(), "one\ntwo\nthree");
}

#[test]
fn vec_to_text_empty_buffer() {
    let storage = VecStorage::new();

    assert_eq!(storage.to_text(), "");
}

#[test]
fn vec_to_text_preserves_blank_lines() {
    let storage = storage(&["a", "", "b"]);

    assert_eq!(storage.to_text(), "a\n\nb");
}

#[test]
fn vec_to_text_roundtrips_with_insert() {
    let mut storage = storage(&[""]);

    let original = "line one\nline two\nline three";

    storage.insert(Position::new(0, 0), original).unwrap();

    assert_eq!(storage.to_text(), original);
}

// ===== Insert =====

#[test]
fn vec_insert_into_empty() {
    let mut storage = storage(&[""]);

    storage.insert(Position::new(0, 0), "Hello").unwrap();

    assert_eq!(storage.line(0), Some("Hello".to_string()));
}

#[test]
fn vec_insert_at_beginning() {
    let mut storage = storage(&["World"]);

    storage.insert(Position::new(0, 0), "Hello ").unwrap();

    assert_eq!(storage.line(0), Some("Hello World".to_string()));
}

#[test]
fn vec_insert_at_end() {
    let mut storage = storage(&["Hello"]);

    storage.insert(Position::new(0, 5), " World").unwrap();

    assert_eq!(storage.line(0), Some("Hello World".to_string()));
}

#[test]
fn vec_insert_in_middle() {
    let mut storage = storage(&["Helo"]);

    storage.insert(Position::new(0, 2), "l").unwrap();

    assert_eq!(storage.line(0), Some("Hello".to_string()));
}

#[test]
fn vec_insert_empty_string() {
    let mut storage = storage(&["Hello"]);

    storage.insert(Position::new(0, 2), "").unwrap();

    assert_eq!(storage.line(0), Some("Hello".to_string()));
}

#[test]
fn vec_insert_single_newline() {
    let mut storage = storage(&["HelloWorld"]);

    storage.insert(Position::new(0, 5), "\n").unwrap();

    assert_eq!(storage.line_count(), 2);
    assert_eq!(storage.line(0), Some("Hello".to_string()));
    assert_eq!(storage.line(1), Some("World".to_string()));
}

#[test]
fn vec_insert_multiple_newlines() {
    let mut storage = storage(&["abc"]);

    storage.insert(Position::new(0, 1), "\n123\n456\n").unwrap();

    assert_eq!(storage.line_count(), 4);
    assert_eq!(storage.line(0), Some("a".to_string()));
    assert_eq!(storage.line(1), Some("123".to_string()));
    assert_eq!(storage.line(2), Some("456".to_string()));
    assert_eq!(storage.line(3), Some("bc".to_string()));
}

#[test]
fn vec_insert_trailing_newline() {
    let mut storage = storage(&["abc"]);

    storage.insert(Position::new(0, 3), "\n").unwrap();

    assert_eq!(storage.line_count(), 2);
    assert_eq!(storage.line(0), Some("abc".to_string()));
    assert_eq!(storage.line(1), Some(String::new()));
}

#[test]
fn vec_insert_leading_newline() {
    let mut storage = storage(&["abc"]);

    storage.insert(Position::new(0, 0), "\n").unwrap();

    assert_eq!(storage.line_count(), 2);
    assert_eq!(storage.line(0), Some(String::new()));
    assert_eq!(storage.line(1), Some("abc".to_string()));
}

#[test]
fn vec_insert_unicode() {
    let mut storage = storage(&["😀😁"]);

    storage.insert(Position::new(0, 1), "😂").unwrap();

    assert_eq!(storage.line(0), Some("😀😂😁".to_string()));
}

// ===== Delete =====

#[test]
fn vec_delete_empty_range() {
    let mut storage = storage(&["Hello"]);

    storage
        .delete(Range::new(Position::new(0, 2), Position::new(0, 2)))
        .unwrap();

    assert_eq!(storage.line(0), Some("Hello".to_string()));
}

#[test]
fn vec_delete_single_character() {
    let mut storage = storage(&["Hello"]);

    storage
        .delete(Range::new(Position::new(0, 1), Position::new(0, 2)))
        .unwrap();

    assert_eq!(storage.line(0), Some("Hllo".to_string()));
}

#[test]
fn vec_delete_middle() {
    let mut storage = storage(&["Hello World"]);

    storage
        .delete(Range::new(Position::new(0, 5), Position::new(0, 6)))
        .unwrap();

    assert_eq!(storage.line(0), Some("HelloWorld".to_string()));
}

#[test]
fn vec_delete_newline_between_lines() {
    let mut storage = storage(&["Hello", "World"]);

    storage
        .delete(Range::new(Position::new(0, 5), Position::new(1, 0)))
        .unwrap();

    assert_eq!(storage.line_count(), 1);
    assert_eq!(storage.line(0), Some("HelloWorld".to_string()));
}

#[test]
fn vec_delete_across_lines() {
    let mut storage = storage(&["Hello", "Beautiful", "World"]);

    storage
        .delete(Range::new(Position::new(0, 2), Position::new(2, 3)))
        .unwrap();

    assert_eq!(storage.line_count(), 1);
    assert_eq!(storage.line(0), Some("Held".to_string()));
}

#[test]
fn vec_delete_everything() {
    let mut storage = storage(&["Hello", "World"]);

    storage
        .delete(Range::new(Position::new(0, 0), Position::new(1, 5)))
        .unwrap();

    assert_eq!(storage.line_count(), 1);
    assert_eq!(storage.line(0), Some(String::new()));
}

#[test]
fn vec_delete_unicode() {
    let mut storage = storage(&["😀😁😂"]);

    storage
        .delete(Range::new(Position::new(0, 1), Position::new(0, 2)))
        .unwrap();

    assert_eq!(storage.line(0), Some("😀😂".to_string()));
}

#[test]
fn vec_delete_reversed_range() {
    let mut storage = storage(&["abcdef"]);

    storage
        .delete(Range::new(Position::new(0, 5), Position::new(0, 2)))
        .unwrap();

    assert_eq!(storage.line(0), Some("abf".to_string()));
}

// ===== Validation =====

#[test]
fn vec_insert_invalid_line() {
    let mut storage = storage(&["abc"]);

    assert!(matches!(
        storage.insert(Position::new(5, 0), "x"),
        Err(BufferError::InvalidPosition)
    ));
}

#[test]
fn vec_insert_invalid_column() {
    let mut storage = storage(&["abc"]);

    assert!(matches!(
        storage.insert(Position::new(0, 10), "x"),
        Err(BufferError::InvalidPosition)
    ));
}

#[test]
fn vec_delete_invalid_position() {
    let mut storage = storage(&["abc"]);

    assert!(matches!(
        storage
            .delete(Range::new(Position::new(0, 0), Position::new(5, 0),)),
        Err(BufferError::InvalidPosition)
    ));
}

// ===== Own tests =====

#[test]
fn line_past_the_end_is_none() {
    let storage = storage(&["a", "b"]);

    assert_eq!(storage.line(2), None);
}

#[test]
fn insert_then_delete_restores_the_lines() {
    let mut storage = storage(&["one", "two"]);

    storage.insert(Position::new(1, 1), "X\nY\n").unwrap();
    storage.delete(Range::new(Position::new(1, 1), Position::new(3, 0))).unwrap();

    assert_eq!(storage.to_text(), "one\ntwo");
}
