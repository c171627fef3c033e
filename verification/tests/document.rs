use oxiden::buffer::Buffer;
use oxiden::document::{Document, LineEnding};
use oxiden::error::DocumentError;
use oxiden::position::{Position, Range};
use oxiden::storage::vec_storage::VecStorage;

fn document() -> Document<VecStorage> {
    Document::new(Buffer::new(VecStorage::new()))
}

#[test]
fn document_new_document_is_clean_and_has_no_path() {
    let document = document();

    assert!(!document.is_dirty());
    assert_eq!(document.path(), None);
}

#[test]
fn document_insert_marks_document_dirty() {
    let mut document = document();

    document.insert(Position::new(0, 0), "hello").unwrap();

    assert!(document.is_dirty());
}

#[test]
fn document_delete_marks_document_dirty() {
    let mut document = document();

    document.insert(Position::new(0, 0), "hello").unwrap();
    document
        .delete(Range::new(Position::new(0, 0), Position::new(0, 1)))
        .unwrap();

    assert!(document.is_dirty());
}

#[test]
fn document_insert_with_invalid_position_returns_error_and_does_not_panic() {
    let mut document = document();

    let result = document.insert(Position::new(5, 0), "hello");

    assert!(result.is_err());
}

#[test]
fn document_buffer_and_buffer_mut_reflect_edits() {
    let mut document = document();

    document.buffer_mut().insert(Position::new(0, 0), "hi").unwrap();

    assert_eq!(document.buffer().line(0), Some("hi".to_string()));
}

// ===== Opening and saving (the text read from and written to disk) =====

#[test]
fn open_reads_existing_file() {
    let document = Document::<VecStorage>::open("notes.txt".to_string(), "hello\nworld");

    assert_eq!(document.buffer().line(0), Some("hello".to_string()));
    assert_eq!(document.buffer().line(1), Some("world".to_string()));
    assert_eq!(document.path(), Some(&"notes.txt".to_string()));
    assert!(!document.is_dirty());
}

#[test]
fn new_at_sets_path_without_touching_disk() {
    let document = Document::<VecStorage>::new_at("new.txt".to_string());

    assert_eq!(document.path(), Some(&"new.txt".to_string()));
    assert!(!document.is_dirty());
    assert_eq!(document.buffer().line_count(), 1);
}

#[test]
fn new_at_then_save_creates_the_file() {
    let mut document = Document::<VecStorage>::new_at("new.txt".to_string());
    document.insert(Position::new(0, 0), "hello").unwrap();

    let request = document.save().unwrap();

    assert_eq!(request.path, "new.txt");
    assert_eq!(request.content, "hello\n");
}

#[test]
fn save_without_path_returns_no_path_error() {
    let document = document();

    let result = document.save();

    assert!(matches!(result, Err(DocumentError::NoPath)));
}

#[test]
fn save_as_writes_file_and_sets_path() {
    let mut document = document();

    document.insert(Position::new(0, 0), "hello\nworld").unwrap();
    let request = document.save_as("out.txt".to_string());
    document.mark_saved(&request);

    assert_eq!(document.path(), Some(&"out.txt".to_string()));
    assert!(!document.is_dirty());
    assert_eq!(request.content, "hello\nworld\n");
}

#[test]
fn save_writes_to_existing_path_and_clears_dirty() {
    let mut document = Document::<VecStorage>::open("notes.txt".to_string(), "original\n");

    let end = document.buffer().line_len(0).unwrap();
    document.insert(Position::new(0, end), "!").unwrap();

    assert!(document.is_dirty());

    let request = document.save().unwrap();
    document.mark_saved(&request);

    assert!(!document.is_dirty());
    assert_eq!(request.path, "notes.txt");
    assert_eq!(request.content, "original!\n");
}

#[test]
fn open_save_roundtrip_preserves_missing_trailing_newline() {
    let document = Document::<VecStorage>::open("a.txt".to_string(), "no trailing newline");

    let request = document.save_as("a.txt".to_string());

    assert_eq!(request.content, "no trailing newline");
}

#[test]
fn open_save_roundtrip_preserves_crlf() {
    let document = Document::<VecStorage>::open("a.txt".to_string(), "one\r\ntwo\r\nthree\r\n");

    assert_eq!(document.line_ending(), LineEnding::CrLf);
    assert_eq!(document.buffer().line(1), Some("two".to_string()));

    let request = document.save_as("a.txt".to_string());

    assert_eq!(request.content, "one\r\ntwo\r\nthree\r\n");
}

#[test]
fn open_empty_file() {
    let document = Document::<VecStorage>::open("empty.txt".to_string(), "");

    assert_eq!(document.buffer().line_count(), 1);
    assert_eq!(document.buffer().line(0), Some(String::new()));
}

// ===== Own tests =====

#[test]
fn line_ending_detection_and_text() {
    assert_eq!(LineEnding::detect("a\r\nb"), LineEnding::CrLf);
    assert_eq!(LineEnding::detect("a\nb"), LineEnding::Lf);
    assert_eq!(LineEnding::detect(""), LineEnding::Lf);
    assert_eq!(LineEnding::CrLf.as_str(), "\r\n");
    assert_eq!(LineEnding::Lf.as_str(), "\n");
}

#[test]
fn rendered_reapplies_crlf_and_trailing_newline() {
    let document = Document::<VecStorage>::open("a.txt".to_string(), "x\r\ny\r\n");

    assert_eq!(document.buffer().to_text(), "x\ny");
    assert_eq!(document.rendered(), "x\r\ny\r\n");
}

#[test]
fn failed_save_leaves_the_document_dirty() {
    let mut document = Document::<VecStorage>::open("a.txt".to_string(), "x");
    document.insert(Position::new(0, 1), "y").unwrap();

    // The write is what fails, so the document is never marked saved.
    let _request = document.save().unwrap();

    assert!(document.is_dirty());
    assert_eq!(document.path(), Some(&"a.txt".to_string()));
}

#[test]
fn undo_and_redo_an_insert() {
    let mut document = document();
    document.insert(Position::new(0, 0), "hello").unwrap();
    document.break_undo_group();

    assert_eq!(document.undo(), Ok(Some(Position::new(0, 0))));
    assert_eq!(document.buffer().line(0), Some(String::new()));

    assert_eq!(document.redo(), Ok(Some(Position::new(0, 5))));
    assert_eq!(document.buffer().line(0), Some("hello".to_string()));
}

#[test]
fn undo_with_nothing_recorded_is_a_noop() {
    let mut document = document();

    assert_eq!(document.undo(), Ok(None));
    assert_eq!(document.redo(), Ok(None));
}

#[test]
fn document_error_messages() {
    assert_eq!(
        DocumentError::NoPath.message(),
        "document has no path; use `save_as` instead"
    );
    assert_eq!(
        DocumentError::Buffer(oxiden::error::BufferError::InvalidPosition).message(),
        "invalid position"
    );
}

#[test]
fn undo_takes_back_a_merged_run_of_typing_in_one_step() {
    let mut document = document();
    document.insert(Position::new(0, 0), "ab").unwrap();
    document.break_undo_group();
    let before = document.buffer().to_text();

    for (i, c) in ["x", "y", "z"].iter().enumerate() {
        document.insert(Position::new(0, 2 + i), c).unwrap();
    }
    assert_eq!(document.buffer().to_text(), "abxyz");
    let after = document.buffer().to_text();

    assert!(document.undo().is_ok());
    assert_eq!(document.buffer().to_text(), before);
    assert!(document.redo().is_ok());
    assert_eq!(document.buffer().to_text(), after);
}

#[test]
fn undo_takes_back_a_merged_run_of_backspaces_in_one_step() {
    let mut document = document();
    document.insert(Position::new(0, 0), "hello world").unwrap();
    document.break_undo_group();

    for column in (8..11).rev() {
        document.delete(Range::new(Position::new(0, column), Position::new(0, column + 1))).unwrap();
    }
    assert_eq!(document.buffer().to_text(), "hello wo");

    assert!(document.undo().is_ok());
    assert_eq!(document.buffer().to_text(), "hello world");
    assert!(document.redo().is_ok());
    assert_eq!(document.buffer().to_text(), "hello wo");
}
