use oxiden::buffer::Buffer;
use oxiden::command::Command;
use oxiden::input::{
    char_class, map_key, motion_target, word_boundary, Action, CharClass, Direction, KeyCode,
    KeyEvent, KeyModifiers, Move,
};
use oxiden::position::Position;
use oxiden::storage::vec_storage::VecStorage;

fn buffer(lines: &[&str]) -> Buffer<VecStorage> {
    let mut buffer = Buffer::new(VecStorage::new());

    buffer.insert(Position::new(0, 0), &lines.join("\n")).unwrap();

    buffer
}

#[test]
fn input_right_wraps_to_next_line() {
    let buffer = buffer(&["ab", "cd"]);

    let target = motion_target(&buffer, Position::new(0, 2), Move::Right);

    assert_eq!(target, Position::new(1, 0));
}

#[test]
fn input_right_at_end_of_buffer_stays_put() {
    let buffer = buffer(&["ab"]);

    let target = motion_target(&buffer, Position::new(0, 2), Move::Right);

    assert_eq!(target, Position::new(0, 2));
}

#[test]
fn input_left_wraps_to_previous_line() {
    let buffer = buffer(&["ab", "cd"]);

    let target = motion_target(&buffer, Position::new(1, 0), Move::Left);

    assert_eq!(target, Position::new(0, 2));
}

#[test]
fn input_down_clamps_to_shorter_line() {
    let buffer = buffer(&["abcdef", "gh"]);

    let target = motion_target(&buffer, Position::new(0, 5), Move::Down);

    assert_eq!(target, Position::new(1, 2));
}

#[test]
fn input_up_at_first_line_stays_put() {
    let buffer = buffer(&["abc"]);

    let target = motion_target(&buffer, Position::new(0, 1), Move::Up);

    assert_eq!(target, Position::new(0, 1));
}

// ===== word_boundary =====

#[test]
fn word_right_from_start_of_word_skips_to_next_word() {
    let buffer = buffer(&["hello world"]);

    let target = word_boundary(
        &buffer,
        Position::new(0, 0),
        Direction::Right,
    );

    assert_eq!(target, Position::new(0, 6));
}

#[test]
fn word_right_from_middle_of_word_skips_to_next_word() {
    let buffer = buffer(&["hello world"]);

    let target = word_boundary(
        &buffer,
        Position::new(0, 2),
        Direction::Right,
    );

    assert_eq!(target, Position::new(0, 6));
}

#[test]
fn word_right_stops_at_punctuation_as_its_own_token() {
    let buffer = buffer(&["foo, bar"]);

    // "foo, bar": f-o-o-,-space-b-a-r, so "," starts at column 3.
    let target = word_boundary(
        &buffer,
        Position::new(0, 0),
        Direction::Right,
    );

    assert_eq!(target, Position::new(0, 3));
}

#[test]
fn word_right_from_punctuation_skips_to_next_word() {
    let buffer = buffer(&["foo, bar"]);

    let target = word_boundary(
        &buffer,
        Position::new(0, 3),
        Direction::Right,
    );

    assert_eq!(target, Position::new(0, 5));
}

#[test]
fn word_right_crosses_line_boundary() {
    let buffer = buffer(&["abc", "   def"]);

    // End of "abc"; should land past the leading whitespace of the
    // next line, at the start of "def".
    let target = word_boundary(
        &buffer,
        Position::new(0, 3),
        Direction::Right,
    );

    assert_eq!(target, Position::new(1, 3));
}

#[test]
fn word_right_skips_blank_lines() {
    let buffer = buffer(&["abc", "", "def"]);

    let target = word_boundary(
        &buffer,
        Position::new(0, 3),
        Direction::Right,
    );

    assert_eq!(target, Position::new(2, 0));
}

#[test]
fn word_right_at_end_of_buffer_stays_put() {
    let buffer = buffer(&["abc"]);

    let target = word_boundary(
        &buffer,
        Position::new(0, 3),
        Direction::Right,
    );

    assert_eq!(target, Position::new(0, 3));
}

#[test]
fn word_left_from_end_of_word_skips_to_its_start() {
    let buffer = buffer(&["hello world"]);

    let target = word_boundary(
        &buffer,
        Position::new(0, 11),
        Direction::Left,
    );

    assert_eq!(target, Position::new(0, 6));
}

#[test]
fn word_left_from_start_of_word_skips_to_previous_word() {
    let buffer = buffer(&["hello world"]);

    // Column 6 is already the start of "world"; Left should jump back
    // to the start of "hello", not stay put.
    let target = word_boundary(
        &buffer,
        Position::new(0, 6),
        Direction::Left,
    );

    assert_eq!(target, Position::new(0, 0));
}

#[test]
fn word_left_crosses_line_boundary() {
    let buffer = buffer(&["abc", "def"]);

    let target = word_boundary(
        &buffer,
        Position::new(1, 0),
        Direction::Left,
    );

    assert_eq!(target, Position::new(0, 0));
}

#[test]
fn word_left_skips_blank_lines() {
    let buffer = buffer(&["abc", "", "def"]);

    let target = word_boundary(
        &buffer,
        Position::new(2, 0),
        Direction::Left,
    );

    assert_eq!(target, Position::new(0, 0));
}

#[test]
fn word_left_at_start_of_buffer_stays_put() {
    let buffer = buffer(&["abc"]);

    let target = word_boundary(
        &buffer,
        Position::new(0, 0),
        Direction::Left,
    );

    assert_eq!(target, Position::new(0, 0));
}

fn key(code: KeyCode, modifiers: KeyModifiers) -> KeyEvent {
    KeyEvent::new(code, modifiers)
}

#[test]
fn ctrl_s_saves() {
    let action = map_key(key(KeyCode::Char('s'), KeyModifiers::control()));

    assert_eq!(action, Action::Save);
}

#[test]
fn f2_saves_as() {
    let action = map_key(key(
        KeyCode::F(2),
        KeyModifiers::control().union(KeyModifiers::shift()),
    ));

    assert_eq!(action, Action::SaveAs);
}

#[test]
fn plain_s_inserts_character() {
    let action = map_key(key(KeyCode::Char('s'), KeyModifiers::none()));

    assert_eq!(action, Action::Edit(Command::Insert('s')));
}

// ===== Own tests =====

#[test]
fn ctrl_q_quits_and_plain_keys_map() {
    assert_eq!(map_key(key(KeyCode::Char('q'), KeyModifiers::control())), Action::Quit);
    assert_eq!(
        map_key(key(KeyCode::Char('A'), KeyModifiers::shift())),
        Action::Edit(Command::Insert('A'))
    );
    assert_eq!(map_key(key(KeyCode::Char('x'), KeyModifiers::alt())), Action::Noop);
    assert_eq!(map_key(key(KeyCode::Tab, KeyModifiers::none())), Action::Edit(Command::Insert('\t')));
    assert_eq!(map_key(key(KeyCode::Enter, KeyModifiers::none())), Action::Edit(Command::NewLine));
    assert_eq!(map_key(key(KeyCode::Backspace, KeyModifiers::none())), Action::Edit(Command::Backspace));
    assert_eq!(map_key(key(KeyCode::Delete, KeyModifiers::none())), Action::Edit(Command::Delete));
    assert_eq!(map_key(key(KeyCode::Home, KeyModifiers::none())), Action::Move(Move::LineStart));
    assert_eq!(map_key(key(KeyCode::End, KeyModifiers::none())), Action::Move(Move::LineEnd));
    assert_eq!(map_key(key(KeyCode::PageUp, KeyModifiers::none())), Action::Move(Move::FileStart));
    assert_eq!(map_key(key(KeyCode::PageDown, KeyModifiers::none())), Action::Move(Move::FileEnd));
    assert_eq!(map_key(key(KeyCode::F(3), KeyModifiers::none())), Action::Noop);
    assert_eq!(map_key(key(KeyCode::Esc, KeyModifiers::none())), Action::Noop);
}

#[test]
fn line_and_file_motions() {
    let buffer = buffer(&["abc", "defgh"]);

    assert_eq!(motion_target(&buffer, Position::new(1, 2), Move::LineStart), Position::new(1, 0));
    assert_eq!(motion_target(&buffer, Position::new(0, 1), Move::LineEnd), Position::new(0, 3));
    assert_eq!(motion_target(&buffer, Position::new(1, 2), Move::FileStart), Position::new(0, 0));
    assert_eq!(motion_target(&buffer, Position::new(0, 1), Move::FileEnd), Position::new(1, 5));
    assert_eq!(motion_target(&buffer, Position::new(1, 4), Move::Up), Position::new(0, 3));
    assert_eq!(motion_target(&buffer, Position::new(0, 0), Move::Left), Position::new(0, 0));
}

#[test]
fn key_modifiers_combine() {
    let both = KeyModifiers::control().union(KeyModifiers::shift());

    assert_eq!(both.bits, 3);
    assert!(!both.is_empty());
    assert!(KeyModifiers::none().is_empty());
}

#[test]
fn undo_redo_and_word_keys_map() {
    assert_eq!(
        map_key(key(KeyCode::Char('z'), KeyModifiers::control())),
        Action::Edit(Command::Undo)
    );
    assert_eq!(
        map_key(key(KeyCode::Char('y'), KeyModifiers::control())),
        Action::Edit(Command::Redo)
    );
    assert_eq!(map_key(key(KeyCode::Left, KeyModifiers::control())), Action::Move(Move::WordLeft));
    assert_eq!(map_key(key(KeyCode::Right, KeyModifiers::control())), Action::Move(Move::WordRight));
    assert_eq!(map_key(key(KeyCode::Delete, KeyModifiers::control())), Action::DeleteWord);
    assert_eq!(map_key(key(KeyCode::Left, KeyModifiers::shift())), Action::Move(Move::Left));
}

#[test]
fn word_motions_resolve_through_word_boundary() {
    let buffer = buffer(&["foo, bar", "baz"]);

    assert_eq!(motion_target(&buffer, Position::new(0, 0), Move::WordRight), Position::new(0, 3));
    assert_eq!(motion_target(&buffer, Position::new(1, 0), Move::WordLeft), Position::new(0, 5));
}

#[test]
fn word_left_from_column_zero_past_the_end_walks_back() {
    let buffer = buffer(&["abc", "de"]);

    let target = word_boundary(&buffer, Position::new(5, 0), Direction::Left);

    assert_eq!(target, Position::new(1, 0));
}

#[test]
fn whitespace_class_is_exactly_what_std_calls_whitespace() {
    for u in 0..=0x10FFFFu32 {
        if let Some(c) = char::from_u32(u) {
            assert_eq!(char_class(c) == CharClass::Whitespace, c.is_whitespace(), "U+{u:04X}");
        }
    }
}
