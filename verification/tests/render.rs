use oxiden::buffer::Buffer;
use oxiden::position::Position;
use oxiden::render::{
    clip, cursor_cell, decimal, display_column, expand_tabs, status_text, visible_lines,
};
use oxiden::storage::vec_storage::VecStorage;
use oxiden::viewport::Viewport;

#[test]
fn expand_tabs_pads_to_next_stop() {
    assert_eq!(expand_tabs("\tx", 4), "    x");
    assert_eq!(expand_tabs("ab\tx", 4), "ab  x");
    assert_eq!(expand_tabs("abcd\tx", 4), "abcd    x");
}

#[test]
fn expand_tabs_leaves_plain_text_untouched() {
    assert_eq!(expand_tabs("hello", 4), "hello");
}

#[test]
fn clip_expands_tabs_before_slicing() {
    // A leading tab (width 4) pushes "x" to column 4, so a window starting
    // at column 0 with width 5 shows it.
    assert_eq!(clip("\tx", 0, 5), "    x");
}

#[test]
fn clip_is_still_char_safe_on_utf8() {
    assert_eq!(clip("héllo", 1, 3), "éll");
}

#[test]
fn display_column_matches_char_column_without_tabs() {
    assert_eq!(display_column("hello", 3, 4), 3);
}

#[test]
fn display_column_accounts_for_leading_tab() {
    // One char (the tab) in, but it expanded to 4 columns.
    assert_eq!(display_column("\tx", 1, 4), 4);
}

#[test]
fn display_column_accounts_for_tab_mid_line() {
    // "ab" (2 cols) + a tab that pads out to the next stop of 4 (2 more
    // cols) = display column 4 by the time we reach "x".
    assert_eq!(display_column("ab\tx", 3, 4), 4);
}

#[test]
fn display_column_zero_is_always_zero() {
    assert_eq!(display_column("\t\tx", 0, 4), 0);
}

// ===== Own tests =====

fn buffer(text: &str) -> Buffer<VecStorage> {
    let mut buffer = Buffer::new(VecStorage::new());
    buffer.insert(Position::new(0, 0), text).unwrap();
    buffer
}

#[test]
fn clip_past_the_end_is_empty() {
    assert_eq!(clip("abc", 5, 3), "");
    assert_eq!(clip("abc", 1, 0), "");
}

#[test]
fn display_column_past_the_line_end_stops_at_it() {
    assert_eq!(display_column("a\tb", 10, 4), 5);
}

#[test]
fn visible_lines_clips_each_row_and_stops_at_the_end() {
    let buffer = buffer("one\ntwo\n\tthree");
    let viewport = Viewport { top: 1, left: 1, width: 4, height: 5 };

    let rows = visible_lines(&buffer, &viewport);

    assert_eq!(rows, vec!["wo".to_string(), "   t".to_string()]);
}

#[test]
fn cursor_cell_accounts_for_scroll_and_tabs() {
    let buffer = buffer("x\n\tab");
    let viewport = Viewport { top: 1, left: 2, width: 10, height: 5 };

    assert_eq!(cursor_cell(&buffer, Position::new(1, 2), &viewport), (3, 0));
}

#[test]
fn decimal_writes_digits() {
    assert_eq!(decimal(0), vec!['0']);
    assert_eq!(decimal(1203), vec!['1', '2', '0', '3']);
    assert_eq!(decimal(usize::MAX).len(), usize::MAX.to_string().len());
}

#[test]
fn status_text_shows_name_dirty_marker_and_position() {
    let status = status_text(None, Some("notes.txt"), true, Position::new(4, 0), 80);

    assert_eq!(status, "notes.txt [+]  Ln 5, Col 1");
}

#[test]
fn status_text_for_an_unnamed_clean_document() {
    let status = status_text(None, None, false, Position::new(0, 9), 80);

    assert_eq!(status, "[No Name]  Ln 1, Col 10");
}

#[test]
fn status_text_prefers_the_message_and_clips() {
    assert_eq!(status_text(Some("Saved"), Some("a.txt"), true, Position::new(0, 0), 80), "Saved");
    assert_eq!(status_text(None, Some("abcdef"), false, Position::new(0, 0), 3), "abc");
}
