use oxiden::error::BufferError;
use oxiden::position::{Position, Range};
use oxiden::storage::TextStorage;
use oxiden::storage::rope::{RopeStorage, MAX_LEAF_LEN};
use oxiden::storage::vec_storage::VecStorage;

/// Builds a `RopeStorage` from lines the same way the `VecStorage`
/// tests build one, but through the public API rather than a struct
/// literal (the tree's internal shape isn't something tests should
/// need to know about).
fn storage(lines: &[&str]) -> RopeStorage {
    let mut storage = RopeStorage::new();
    let text = lines.join("\n");

    if !text.is_empty() {
        storage.insert(Position::new(0, 0), &text).unwrap();
    }

    storage
}

// ===== Constructor =====

#[test]
fn rope_new_has_one_empty_line() {
    let storage = RopeStorage::new();

    assert_eq!(storage.line_count(), 1);
    assert_eq!(storage.line(0), Some(String::new()));
    assert_eq!(storage.len_chars(), 0);
}

// ===== len_chars =====

#[test]
fn rope_len_chars_ascii() {
    let storage = storage(&["abc", "de"]);

    // "abc\nde"
    assert_eq!(storage.len_chars(), 6);
}

#[test]
fn rope_len_chars_unicode() {
    let storage = storage(&["😀😁", "😂"]);

    // 😀😁\n😂
    assert_eq!(storage.len_chars(), 4);
}

// ===== to_text =====

#[test]
fn rope_to_text_single_line() {
    let storage = storage(&["Hello"]);

    assert_eq!(storage.to_text(), "Hello");
}

#[test]
fn rope_to_text_multiple_lines() {
    let storage = storage(&["one", "two", "three"]);

    assert_eq!(storage.to_text(), "one\ntwo\nthree");
}

#[test]
fn rope_to_text_empty_buffer() {
    let storage = RopeStorage::new();

    assert_eq!(storage.to_text(), "");
}

#[test]
fn rope_to_text_preserves_blank_lines() {
    let storage = storage(&["a", "", "b"]);

    assert_eq!(storage.to_text(), "a\n\nb");
}

#[test]
fn rope_to_text_roundtrips_with_insert() {
    let mut storage = RopeStorage::new();

    let original = "line one\nline two\nline three";

    storage.insert(Position::new(0, 0), original).unwrap();

    assert_eq!(storage.to_text(), original);
}

// ===== Insert =====

#[test]
fn rope_insert_into_empty() {
    let mut storage = storage(&[""]);

    storage.insert(Position::new(0, 0), "Hello").unwrap();

    assert_eq!(storage.line(0), Some("Hello".to_string()));
}

#[test]
fn rope_insert_at_beginning() {
    let mut storage = storage(&["World"]);

    storage.insert(Position::new(0, 0), "Hello ").unwrap();

    assert_eq!(storage.line(0), Some("Hello World".to_string()));
}

#[test]
fn rope_insert_at_end() {
    let mut storage = storage(&["Hello"]);

    storage.insert(Position::new(0, 5), " World").unwrap();

    assert_eq!(storage.line(0), Some("Hello World".to_string()));
}

#[test]
fn rope_insert_in_middle() {
    let mut storage = storage(&["Helo"]);

    storage.insert(Position::new(0, 2), "l").unwrap();

    assert_eq!(storage.line(0), Some("Hello".to_string()));
}

#[test]
fn rope_insert_empty_string() {
    let mut storage = storage(&["Hello"]);

    storage.insert(Position::new(0, 2), "").unwrap();

    assert_eq!(storage.line(0), Some("Hello".to_string()));
}

#[test]
fn rope_insert_single_newline() {
    let mut storage = storage(&["HelloWorld"]);

    storage.insert(Position::new(0, 5), "\n").unwrap();

    assert_eq!(storage.line_count(), 2);
    assert_eq!(storage.line(0), Some("Hello".to_string()));
    assert_eq!(storage.line(1), Some("World".to_string()));
}

#[test]
fn rope_insert_multiple_newlines() {
    let mut storage = storage(&["abc"]);

    storage.insert(Position::new(0, 1), "\n123\n456\n").unwrap();

    assert_eq!(storage.line_count(), 4);
    assert_eq!(storage.line(0), Some("a".to_string()));
    assert_eq!(storage.line(1), Some("123".to_string()));
    assert_eq!(storage.line(2), Some("456".to_string()));
    assert_eq!(storage.line(3), Some("bc".to_string()));
}

#[test]
fn rope_insert_trailing_newline() {
    let mut storage = storage(&["abc"]);

    storage.insert(Position::new(0, 3), "\n").unwrap();

    assert_eq!(storage.line_count(), 2);
    assert_eq!(storage.line(0), Some("abc".to_string()));
    assert_eq!(storage.line(1), Some(String::new()));
}

#[test]
fn rope_insert_leading_newline() {
    let mut storage = storage(&["abc"]);

    storage.insert(Position::new(0, 0), "\n").unwrap();

    assert_eq!(storage.line_count(), 2);
    assert_eq!(storage.line(0), Some(String::new()));
    assert_eq!(storage.line(1), Some("abc".to_string()));
}

#[test]
fn rope_insert_unicode() {
    let mut storage = storage(&["😀😁"]);

    storage.insert(Position::new(0, 1), "😂").unwrap();

    assert_eq!(storage.line(0), Some("😀😂😁".to_string()));
}

// ===== Delete =====

#[test]
fn rope_delete_empty_range() {
    let mut storage = storage(&["Hello"]);

    storage
        .delete(Range::new(Position::new(0, 2), Position::new(0, 2)))
        .unwrap();

    assert_eq!(storage.line(0), Some("Hello".to_string()));
}

#[test]
fn rope_delete_single_character() {
    let mut storage = storage(&["Hello"]);

    storage
        .delete(Range::new(Position::new(0, 1), Position::new(0, 2)))
        .unwrap();

    assert_eq!(storage.line(0), Some("Hllo".to_string()));
}

#[test]
fn rope_delete_middle() {
    let mut storage = storage(&["Hello World"]);

    storage
        .delete(Range::new(Position::new(0, 5), Position::new(0, 6)))
        .unwrap();

    assert_eq!(storage.line(0), Some("HelloWorld".to_string()));
}

#[test]
fn rope_delete_newline_between_lines() {
    let mut storage = storage(&["Hello", "World"]);

    storage
        .delete(Range::new(Position::new(0, 5), Position::new(1, 0)))
        .unwrap();

    assert_eq!(storage.line_count(), 1);
    assert_eq!(storage.line(0), Some("HelloWorld".to_string()));
}

#[test]
fn rope_delete_across_lines() {
    let mut storage = storage(&["Hello", "Beautiful", "World"]);

    storage
        .delete(Range::new(Position::new(0, 2), Position::new(2, 3)))
        .unwrap();

    assert_eq!(storage.line_count(), 1);
    assert_eq!(storage.line(0), Some("Held".to_string()));
}

#[test]
fn rope_delete_everything() {
    let mut storage = storage(&["Hello", "World"]);

    storage
        .delete(Range::new(Position::new(0, 0), Position::new(1, 5)))
        .unwrap();

    assert_eq!(storage.line_count(), 1);
    assert_eq!(storage.line(0), Some(String::new()));
}

#[test]
fn rope_delete_unicode() {
    let mut storage = storage(&["😀😁😂"]);

    storage
        .delete(Range::new(Position::new(0, 1), Position::new(0, 2)))
        .unwrap();

    assert_eq!(storage.line(0), Some("😀😂".to_string()));
}

#[test]
fn rope_delete_reversed_range() {
    let mut storage = storage(&["abcdef"]);

    storage
        .delete(Range::new(Position::new(0, 5), Position::new(0, 2)))
        .unwrap();

    assert_eq!(storage.line(0), Some("abf".to_string()));
}

// ===== Validation =====

#[test]
fn rope_insert_invalid_line() {
    let mut storage = storage(&["abc"]);

    assert!(matches!(
        storage.insert(Position::new(5, 0), "x"),
        Err(BufferError::InvalidPosition)
    ));
}

#[test]
fn rope_insert_invalid_column() {
    let mut storage = storage(&["abc"]);

    assert!(matches!(
        storage.insert(Position::new(0, 10), "x"),
        Err(BufferError::InvalidPosition)
    ));
}

#[test]
fn rope_delete_invalid_position() {
    let mut storage = storage(&["abc"]);

    assert!(matches!(
        storage
            .delete(Range::new(Position::new(0, 0), Position::new(5, 0),)),
        Err(BufferError::InvalidPosition)
    ));
}

// ===== Leaf splitting =====
//
// These exercise behavior specific to the rope: an insert big enough to
// push a leaf past `MAX_LEAF_LEN` rebuilds it into a small subtree, and
// everything above (line lookups, deletes, `to_text`) has to keep
// working transparently across that boundary.

#[test]
fn insert_past_leaf_cap_splits_and_stays_correct() {
    let mut storage = RopeStorage::new();

    // Comfortably over MAX_LEAF_LEN, spread across many short lines so
    // splitting can't help landing on a line boundary by luck.
    let line = "the quick brown fox jumps over the lazy dog";
    let lines: Vec<&str> = std::iter::repeat_n(line, 200).collect();
    let text = lines.join("\n");

    storage.insert(Position::new(0, 0), &text).unwrap();

    assert_eq!(storage.line_count(), 200);
    assert_eq!(storage.line(0), Some(line.to_string()));
    assert_eq!(storage.line(199), Some(line.to_string()));
    assert_eq!(storage.to_text(), text);
    assert_eq!(storage.len_chars(), text.chars().count());
}

#[test]
fn sequential_typing_stays_balanced() {
    // Simulates holding down a key: many single-character inserts, each
    // at the end of the document. Without rebalancing, this pattern
    // degenerates the tree into a right-leaning spine that grows one level
    // deeper roughly every `MAX_LEAF_LEN` characters typed, i.e. O(n)
    // depth instead of O(log n).
    let mut storage = RopeStorage::new();

    let n = 50_000;
    for i in 0..n {
        storage.insert(Position::new(0, i), "x").unwrap();
    }

    assert_eq!(storage.len_chars(), n);
    assert_eq!(storage.to_text(), "x".repeat(n));

    // A perfectly balanced tree over `n` leaves of MAX_LEAF_LEN each
    // has depth ~log2(n / MAX_LEAF_LEN). The bound below is deliberately
    // generous (the goal is ruling out linear growth, not chasing a
    // tight constant); a tree that is never rebalanced blows past it by
    // 10x and more.
    let leaves = (n / MAX_LEAF_LEN).max(1);
    let bound = (leaves as f64).log2().ceil() as usize * 4 + 10;
    let depth = storage.depth();

    assert!(
        depth <= bound,
        "tree depth {depth} exceeds generous bound {bound} after {n} \
         sequential inserts — rebalancing may be broken"
    );
}

#[test]
fn edit_across_split_leaves() {
    let mut storage = RopeStorage::new();

    let text = "x".repeat(3000);
    storage.insert(Position::new(0, 0), &text).unwrap();

    // Insert and delete right around the middle, which by now sits at
    // a leaf boundary rather than inside one contiguous `String`.
    storage.insert(Position::new(0, 1500), "MIDDLE").unwrap();
    assert_eq!(storage.len_chars(), 3006);

    storage
        .delete(Range::new(Position::new(0, 1500), Position::new(0, 1506)))
        .unwrap();

    assert_eq!(storage.to_text(), text);
}

// ===== Own tests =====

#[test]
fn rope_and_vec_storages_agree_on_the_same_edits() {
    let mut rope = RopeStorage::new();
    let mut vec = VecStorage::new();
    let text = "alpha\nbeta\n\ngamma delta\n".repeat(120);

    rope.insert(Position::new(0, 0), &text).unwrap();
    vec.insert(Position::new(0, 0), &text).unwrap();
    rope.insert(Position::new(200, 3), "XY\nZ").unwrap();
    vec.insert(Position::new(200, 3), "XY\nZ").unwrap();
    rope.delete(Range::new(Position::new(300, 2), Position::new(17, 1))).unwrap();
    vec.delete(Range::new(Position::new(300, 2), Position::new(17, 1))).unwrap();

    assert_eq!(rope.line_count(), vec.line_count());
    assert_eq!(rope.len_chars(), vec.len_chars());
    assert_eq!(rope.to_text(), vec.to_text());
    for i in 0..rope.line_count() {
        assert_eq!(rope.line(i), vec.line(i));
    }
    assert_eq!(rope.line(rope.line_count()), None);
}

#[test]
fn deleting_everything_from_a_big_rope_leaves_one_empty_line() {
    let mut storage = RopeStorage::new();
    let text = "0123456789\n".repeat(500);
    storage.insert(Position::new(0, 0), &text).unwrap();

    storage.delete(Range::new(Position::new(0, 0), Position::new(500, 0))).unwrap();

    assert_eq!(storage.line_count(), 1);
    assert_eq!(storage.line(0), Some(String::new()));
    assert_eq!(storage.len_chars(), 0);
}

#[test]
fn a_fresh_rope_is_one_leaf_deep() {
    assert_eq!(RopeStorage::new().depth(), 1);
}
