use oxiden::buffer::Buffer;
use oxiden::document::Document;
use oxiden::error::BufferError;
use oxiden::position::{Position, Range};
use oxiden::storage::TextStorage;
use oxiden::storage::ropey_storage::RopeyStorage;
use oxiden::storage::ropey_storage::terminator_len;

/// Builds a `RopeyStorage` from lines, joined by `\n`, through the
/// public API — mirrors the equivalent helper in `rope.rs`/`vec.rs`.
fn storage(lines: &[&str]) -> RopeyStorage {
    let mut storage = RopeyStorage::new();
    let text = lines.join("\n");

    if !text.is_empty() {
        storage.insert(Position::new(0, 0), &text).unwrap();
    }

    storage
}

// ===== Constructor =====

#[test]
fn ropey_new_has_one_empty_line() {
    let storage = RopeyStorage::new();

    assert_eq!(storage.line_count(), 1);
    assert_eq!(storage.line(0), Some(String::new()));
    assert_eq!(storage.len_chars(), 0);
}

// ===== len_chars =====

#[test]
fn ropey_len_chars_ascii() {
    let storage = storage(&["abc", "de"]);

    // "abc\nde"
    assert_eq!(storage.len_chars(), 6);
}

#[test]
fn ropey_len_chars_unicode() {
    let storage = storage(&["😀😁", "😂"]);

    // 😀😁\n😂
    assert_eq!(storage.len_chars(), 4);
}

// ===== to_text =====

#[test]
fn ropey_to_text_single_line() {
    let storage = storage(&["Hello"]);

    assert_eq!(storage.to_text(), "Hello");
}

#[test]
fn ropey_to_text_multiple_lines() {
    let storage = storage(&["one", "two", "three"]);

    assert_eq!(storage.to_text(), "one\ntwo\nthree");
}

#[test]
fn ropey_to_text_empty_buffer() {
    let storage = RopeyStorage::new();

    assert_eq!(storage.to_text(), "");
}

#[test]
fn ropey_to_text_preserves_blank_lines() {
    let storage = storage(&["a", "", "b"]);

    assert_eq!(storage.to_text(), "a\n\nb");
}

// ===== Insert =====

#[test]
fn ropey_insert_into_empty() {
    let mut storage = storage(&[""]);

    storage.insert(Position::new(0, 0), "Hello").unwrap();

    assert_eq!(storage.line(0), Some("Hello".to_string()));
}

#[test]
fn ropey_insert_at_beginning() {
    let mut storage = storage(&["World"]);

    storage.insert(Position::new(0, 0), "Hello ").unwrap();

    assert_eq!(storage.line(0), Some("Hello World".to_string()));
}

#[test]
fn ropey_insert_at_end() {
    let mut storage = storage(&["Hello"]);

    storage.insert(Position::new(0, 5), " World").unwrap();

    assert_eq!(storage.line(0), Some("Hello World".to_string()));
}

#[test]
fn ropey_insert_in_middle() {
    let mut storage = storage(&["Helo"]);

    storage.insert(Position::new(0, 2), "l").unwrap();

    assert_eq!(storage.line(0), Some("Hello".to_string()));
}

#[test]
fn ropey_insert_single_newline() {
    let mut storage = storage(&["HelloWorld"]);

    storage.insert(Position::new(0, 5), "\n").unwrap();

    assert_eq!(storage.line_count(), 2);
    assert_eq!(storage.line(0), Some("Hello".to_string()));
    assert_eq!(storage.line(1), Some("World".to_string()));
}

#[test]
fn ropey_insert_multiple_newlines() {
    let mut storage = storage(&["abc"]);

    storage.insert(Position::new(0, 1), "\n123\n456\n").unwrap();

    assert_eq!(storage.line_count(), 4);
    assert_eq!(storage.line(0), Some("a".to_string()));
    assert_eq!(storage.line(1), Some("123".to_string()));
    assert_eq!(storage.line(2), Some("456".to_string()));
    assert_eq!(storage.line(3), Some("bc".to_string()));
}

#[test]
fn ropey_insert_trailing_newline() {
    let mut storage = storage(&["abc"]);

    storage.insert(Position::new(0, 3), "\n").unwrap();

    assert_eq!(storage.line_count(), 2);
    assert_eq!(storage.line(0), Some("abc".to_string()));
    assert_eq!(storage.line(1), Some(String::new()));
}

#[test]
fn ropey_insert_leading_newline() {
    let mut storage = storage(&["abc"]);

    storage.insert(Position::new(0, 0), "\n").unwrap();

    assert_eq!(storage.line_count(), 2);
    assert_eq!(storage.line(0), Some(String::new()));
    assert_eq!(storage.line(1), Some("abc".to_string()));
}

#[test]
fn ropey_insert_unicode() {
    let mut storage = storage(&["😀😁"]);

    storage.insert(Position::new(0, 1), "😂").unwrap();

    assert_eq!(storage.line(0), Some("😀😂😁".to_string()));
}

// ===== Delete =====

#[test]
fn ropey_delete_empty_range() {
    let mut storage = storage(&["Hello"]);

    storage
        .delete(Range::new(Position::new(0, 2), Position::new(0, 2)))
        .unwrap();

    assert_eq!(storage.line(0), Some("Hello".to_string()));
}

#[test]
fn ropey_delete_single_character() {
    let mut storage = storage(&["Hello"]);

    storage
        .delete(Range::new(Position::new(0, 1), Position::new(0, 2)))
        .unwrap();

    assert_eq!(storage.line(0), Some("Hllo".to_string()));
}

#[test]
fn ropey_delete_middle() {
    let mut storage = storage(&["Hello World"]);

    storage
        .delete(Range::new(Position::new(0, 5), Position::new(0, 6)))
        .unwrap();

    assert_eq!(storage.line(0), Some("HelloWorld".to_string()));
}

#[test]
fn ropey_delete_newline_between_lines() {
    let mut storage = storage(&["Hello", "World"]);

    storage
        .delete(Range::new(Position::new(0, 5), Position::new(1, 0)))
        .unwrap();

    assert_eq!(storage.line_count(), 1);
    assert_eq!(storage.line(0), Some("HelloWorld".to_string()));
}

#[test]
fn ropey_delete_across_lines() {
    let mut storage = storage(&["Hello", "Beautiful", "World"]);

    storage
        .delete(Range::new(Position::new(0, 2), Position::new(2, 3)))
        .unwrap();

    assert_eq!(storage.line_count(), 1);
    assert_eq!(storage.line(0), Some("Held".to_string()));
}

#[test]
fn ropey_delete_everything() {
    let mut storage = storage(&["Hello", "World"]);

    storage
        .delete(Range::new(Position::new(0, 0), Position::new(1, 5)))
        .unwrap();

    assert_eq!(storage.line_count(), 1);
    assert_eq!(storage.line(0), Some(String::new()));
}

#[test]
fn ropey_delete_unicode() {
    let mut storage = storage(&["😀😁😂"]);

    storage
        .delete(Range::new(Position::new(0, 1), Position::new(0, 2)))
        .unwrap();

    assert_eq!(storage.line(0), Some("😀😂".to_string()));
}

#[test]
fn ropey_delete_reversed_range() {
    let mut storage = storage(&["abcdef"]);

    storage
        .delete(Range::new(Position::new(0, 5), Position::new(0, 2)))
        .unwrap();

    assert_eq!(storage.line(0), Some("abf".to_string()));
}

// ===== Validation =====

#[test]
fn ropey_insert_invalid_line() {
    let mut storage = storage(&["abc"]);

    assert!(matches!(
        storage.insert(Position::new(5, 0), "x"),
        Err(BufferError::InvalidPosition)
    ));
}

#[test]
fn ropey_insert_invalid_column() {
    let mut storage = storage(&["abc"]);

    assert!(matches!(
        storage.insert(Position::new(0, 10), "x"),
        Err(BufferError::InvalidPosition)
    ));
}

#[test]
fn ropey_delete_invalid_position() {
    let mut storage = storage(&["abc"]);

    assert!(matches!(
        storage
            .delete(Range::new(Position::new(0, 0), Position::new(5, 0),)),
        Err(BufferError::InvalidPosition)
    ));
}

// ===== Large documents =====
//
// Nothing here is rope-internals-specific (ropey's chunking is private),
// but a document large enough to span many internal chunks is worth
// exercising end-to-end since that's the whole point of using ropey.

#[test]
fn ropey_large_document_survives_many_edits() {
    let mut storage = RopeyStorage::new();

    let line = "the quick brown fox jumps over the lazy dog";
    let lines: Vec<&str> = std::iter::repeat_n(line, 2000).collect();
    let text = lines.join("\n");

    storage.insert(Position::new(0, 0), &text).unwrap();
    assert_eq!(storage.line_count(), 2000);
    assert_eq!(storage.to_text(), text);

    storage.insert(Position::new(1000, 10), "EDIT").unwrap();
    storage
        .delete(Range::new(
            Position::new(1000, 10),
            Position::new(1000, 14),
        ))
        .unwrap();

    assert_eq!(storage.to_text(), text);
}

// ===== Own tests =====

#[test]
fn ropey_counts_other_line_breaks_too() {
    let mut storage = RopeyStorage::new();

    storage.insert(Position::new(0, 0), "a\r\nb\rc\u{2028}d").unwrap();

    assert_eq!(storage.line_count(), 4);
    assert_eq!(storage.line(0), Some("a".to_string()));
    assert_eq!(storage.line(1), Some("b".to_string()));
    assert_eq!(storage.line(2), Some("c".to_string()));
    assert_eq!(storage.line(3), Some("d".to_string()));
    assert_eq!(storage.line(4), None);
}

#[test]
fn ropey_positions_on_a_crlf_line() {
    let mut storage = RopeyStorage::new();
    storage.insert(Position::new(0, 0), "ab\r\ncd").unwrap();

    assert!(storage.insert(Position::new(0, 3), "x").is_err());
    storage.insert(Position::new(0, 2), "!").unwrap();

    assert_eq!(storage.to_text(), "ab!\r\ncd");
    assert_eq!(storage.line(0), Some("ab!".to_string()));
}

#[test]
fn terminator_lengths() {
    assert_eq!(terminator_len(&[]), 0);
    assert_eq!(terminator_len(&['a', '\n']), 1);
    assert_eq!(terminator_len(&['\r', '\n']), 2);
    assert_eq!(terminator_len(&['\n']), 1);
    assert_eq!(terminator_len(&['a', '\r']), 1);
    assert_eq!(terminator_len(&['\u{85}']), 1);
    assert_eq!(terminator_len(&['a']), 0);
}

#[test]
fn ropey_agrees_with_vec_on_lf_only_text() {
    let mut ropey = RopeyStorage::new();
    let mut vec = oxiden::storage::vec_storage::VecStorage::new();
    let text = "first\n\nthird line\n\tfourth\n";

    ropey.insert(Position::new(0, 0), text).unwrap();
    vec.insert(Position::new(0, 0), text).unwrap();

    assert_eq!(ropey.line_count(), vec.line_count());
    for i in 0..=ropey.line_count() {
        assert_eq!(ropey.line(i), vec.line(i));
    }
}

#[test]
fn ropey_undo_reverts_the_text() {
    let mut document = Document::new(Buffer::new(RopeyStorage::new()));
    document.insert(Position::new(0, 0), "one\ntwo").unwrap();
    document.break_undo_group();
    document.delete(Range::new(Position::new(0, 1), Position::new(1, 1))).unwrap();
    document.break_undo_group();

    assert_eq!(document.buffer().to_text(), "owo");
    document.undo().unwrap();
    assert_eq!(document.buffer().to_text(), "one\ntwo");
    document.undo().unwrap();
    assert_eq!(document.buffer().to_text(), "");
    document.redo().unwrap();
    assert_eq!(document.buffer().to_text(), "one\ntwo");
}

#[test]
fn ropey_lines_never_hold_a_line_feed() {
    let mut storage = RopeyStorage::new();
    storage.insert(Position::new(0, 0), "one\r\ntwo\n\nthree\rfour\u{85}five\n").unwrap();

    assert_eq!(storage.line_count(), 7);
    for i in 0..storage.line_count() {
        let line = storage.line(i).unwrap();
        assert!(!line.contains('\n'), "line {i} holds a line feed: {line:?}");
    }
}

#[test]
fn ropey_insert_then_delete_restores_text_with_cr_breaks() {
    let mut storage = RopeyStorage::new();
    storage.insert(Position::new(0, 0), "a\r\nb\rc").unwrap();

    storage.insert(Position::new(1, 1), "x\ny").unwrap();
    assert_eq!(storage.to_text(), "a\r\nbx\ny\rc");
    assert_eq!(storage.line_count(), 4);
    storage.delete(Range::new(Position::new(1, 1), Position::new(2, 1))).unwrap();
    assert_eq!(storage.to_text(), "a\r\nb\rc");

    storage.insert(Position::new(2, 0), "z").unwrap();
    assert_eq!(storage.to_text(), "a\r\nb\rzc");
    storage.delete(Range::new(Position::new(2, 0), Position::new(2, 1))).unwrap();
    assert_eq!(storage.to_text(), "a\r\nb\rc");
    assert_eq!(storage.line_count(), 3);
}
