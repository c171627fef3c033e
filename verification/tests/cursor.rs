use oxiden::cursor::Cursor;
use oxiden::position::Position;

#[test]
fn cursor_new_starts_at_origin() {
    let cursor = Cursor::new();

    assert_eq!(cursor.position(), Position::new(0, 0));
    assert_eq!(cursor.line(), 0);
    assert_eq!(cursor.column(), 0);
}

#[test]
fn cursor_default_matches_new() {
    assert_eq!(Cursor::default(), Cursor::new());
}

#[test]
fn set_updates_position_line_and_column() {
    let mut cursor = Cursor::new();

    cursor.set(Position::new(3, 7));

    assert_eq!(cursor.position(), Position::new(3, 7));
    assert_eq!(cursor.line(), 3);
    assert_eq!(cursor.column(), 7);
}

#[test]
fn move_to_updates_position_line_and_column() {
    let mut cursor = Cursor::new();

    cursor.move_to(Position::new(3, 7));

    assert_eq!(cursor.position(), Position::new(3, 7));
    assert_eq!(cursor.line(), 3);
    assert_eq!(cursor.column(), 7);
}

#[test]
fn move_to_updates_preferred_column() {
    let mut cursor = Cursor::new();

    cursor.move_to(Position::new(3, 7));

    assert_eq!(cursor.preferred_column(), 7);
}

#[test]
fn move_vertical_to_preserves_preferred_column() {
    let mut cursor = Cursor::new();

    cursor.move_to(Position::new(0, 8));
    cursor.move_vertical_to(Position::new(1, 3));

    assert_eq!(cursor.position(), Position::new(1, 3));
    assert_eq!(cursor.preferred_column(), 8);
}

#[test]
fn set_makes_the_column_preferred() {
    let mut cursor = Cursor::new();

    cursor.set(Position::new(2, 5));
    cursor.move_vertical_to(Position::new(3, 1));

    assert_eq!(cursor.preferred_column(), 5);
}
