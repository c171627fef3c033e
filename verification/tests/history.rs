use oxiden::history::{Edit, History};
use oxiden::position::Position;

fn insert(line: usize, column: usize, text: &str) -> Edit {
    Edit { pos: Position::new(line, column), removed: String::new(), inserted: text.into() }
}

fn delete(line: usize, column: usize, text: &str) -> Edit {
    Edit { pos: Position::new(line, column), removed: text.into(), inserted: String::new() }
}

#[test]
fn inverse_swaps_removed_and_inserted() {
    let edit = Edit { pos: Position::new(0, 2), removed: "ab".into(), inserted: "xyz".into() };

    let inverse = edit.inverse();

    assert_eq!(inverse.pos, edit.pos);
    assert_eq!(inverse.removed, "xyz");
    assert_eq!(inverse.inserted, "ab");
}

#[test]
fn consecutive_single_line_inserts_coalesce_into_one_group() {
    let mut history = History::new();

    history.record(insert(0, 0, "h"));
    history.record(insert(0, 1, "e"));
    history.record(insert(0, 2, "l"));

    let group = history.pop_undo().unwrap();

    assert_eq!(group.len(), 3);
    assert!(history.pop_undo().is_none());
}

#[test]
fn non_adjacent_inserts_start_a_new_group() {
    let mut history = History::new();

    history.record(insert(0, 0, "a"));
    history.record(insert(5, 0, "b")); // unrelated position

    assert_eq!(history.pop_undo().unwrap().len(), 1);
    assert_eq!(history.pop_undo().unwrap().len(), 1);
}

#[test]
fn break_group_stops_further_coalescing() {
    let mut history = History::new();

    history.record(insert(0, 0, "a"));
    history.break_group();
    history.record(insert(0, 1, "b"));

    assert_eq!(history.pop_undo().unwrap().len(), 1);
    assert_eq!(history.pop_undo().unwrap().len(), 1);
}

#[test]
fn repeated_backspace_coalesces() {
    // Backspacing through "abc" one character at a time: the cursor moves
    // left, so each new block sits just before the last one.
    let mut history = History::new();

    history.record(delete(0, 2, "c"));
    history.record(delete(0, 1, "b"));
    history.record(delete(0, 0, "a"));

    assert_eq!(history.pop_undo().unwrap().len(), 3);
}

#[test]
fn repeated_delete_key_at_same_position_coalesces() {
    // Holding Delete: the cursor doesn't move, so each new block is removed
    // from the same position as the last.
    let mut history = History::new();

    history.record(delete(0, 3, "c"));
    history.record(delete(0, 3, "b"));

    assert_eq!(history.pop_undo().unwrap().len(), 2);
}

#[test]
fn recording_an_edit_clears_the_redo_stack() {
    let mut history = History::new();

    history.record(insert(0, 0, "a"));
    let group = history.pop_undo().unwrap();
    history.push_redo(group);

    assert!(history.can_redo());

    history.record(insert(0, 0, "b"));

    assert!(!history.can_redo());
}

// ===== Own tests =====

#[test]
fn new_history_has_nothing_to_undo_or_redo() {
    let mut history = History::new();

    assert!(!history.can_undo());
    assert!(!history.can_redo());
    assert!(history.pop_undo().is_none());
    assert!(history.pop_redo().is_none());
}

#[test]
fn insert_then_unrelated_delete_are_separate_groups() {
    let mut history = History::new();

    history.record(insert(0, 0, "a"));
    history.record(delete(0, 0, "a"));

    assert_eq!(history.pop_undo().unwrap().len(), 1);
    assert_eq!(history.pop_undo().unwrap().len(), 1);
}

#[test]
fn multiline_inserts_do_not_coalesce() {
    let mut history = History::new();

    history.record(insert(0, 0, "a\n"));
    history.record(insert(1, 0, "b"));

    assert_eq!(history.pop_undo().unwrap().len(), 1);
    assert_eq!(history.pop_undo().unwrap().len(), 1);
}

#[test]
fn popped_groups_can_be_pushed_back() {
    let mut history = History::new();

    history.record(insert(0, 0, "a"));
    let group = history.pop_undo().unwrap();
    history.push_undo(group);

    assert!(history.can_undo());
    assert_eq!(history.pop_undo().unwrap().len(), 1);

    history.push_redo(vec![insert(0, 0, "z")]);
    assert_eq!(history.pop_redo().unwrap()[0].inserted, "z");
}

#[test]
fn recording_enables_undo_and_closing_the_group_keeps_it() {
    let mut history = History::new();
    assert!(!history.can_undo());

    history.record(insert(0, 0, "a"));
    assert!(history.can_undo());
    assert!(!history.can_redo());

    history.break_group();
    assert!(history.can_undo());
    history.break_group();
    assert!(history.can_undo());
}
