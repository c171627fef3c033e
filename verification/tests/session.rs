use oxiden::buffer::Buffer;
use oxiden::document::Document;
use oxiden::editor::Editor;
use oxiden::input::{KeyCode, KeyEvent, KeyModifiers};
use oxiden::position::Position;
use oxiden::session::{Prompt, Session, Step};
use oxiden::storage::vec_storage::VecStorage;

fn editor_with(text: &str) -> Editor<VecStorage> {
    let mut buffer = Buffer::new(VecStorage::new());
    buffer.insert(Position::new(0, 0), text).unwrap();
    Editor::new(Document::new(buffer))
}

fn press(code: KeyCode) -> KeyEvent {
    KeyEvent::new(code, KeyModifiers::none())
}

fn ctrl(c: char) -> KeyEvent {
    KeyEvent::new(KeyCode::Char(c), KeyModifiers::control())
}

fn handle(session: &mut Session, editor: &mut Editor<VecStorage>, key: KeyEvent) -> Step {
    assert!(session.accepts(editor, key));
    session.handle_key(editor, key)
}

#[test]
fn prompt_renders_label_and_input() {
    assert_eq!(Prompt::save_as().render(), "Save as: ");
}

#[test]
fn typing_edits_the_document_and_clears_the_status() {
    let mut session = Session::new();
    let mut editor = editor_with("");

    handle(&mut session, &mut editor, press(KeyCode::Char('h')));
    handle(&mut session, &mut editor, press(KeyCode::Char('i')));

    assert_eq!(editor.document().buffer().line(0), Some("hi".to_string()));
    assert_eq!(editor.cursor().position(), Position::new(0, 2));
    assert_eq!(session.status_line(), None);
}

#[test]
fn quitting_a_dirty_document_takes_two_ctrl_q_in_a_row() {
    let mut session = Session::new();
    let mut editor = editor_with("");
    handle(&mut session, &mut editor, press(KeyCode::Char('x')));

    assert!(matches!(handle(&mut session, &mut editor, ctrl('q')), Step::Continue));
    assert_eq!(
        session.status_line(),
        Some("Unsaved changes — Ctrl+Q again to quit".to_string())
    );
    assert!(matches!(handle(&mut session, &mut editor, ctrl('q')), Step::Quit));
}

#[test]
fn another_key_cancels_a_pending_quit() {
    let mut session = Session::new();
    let mut editor = editor_with("");
    handle(&mut session, &mut editor, press(KeyCode::Char('x')));

    handle(&mut session, &mut editor, ctrl('q'));
    handle(&mut session, &mut editor, press(KeyCode::Left));

    assert!(matches!(handle(&mut session, &mut editor, ctrl('q')), Step::Continue));
}

#[test]
fn clean_document_quits_at_once() {
    let mut session = Session::new();
    let mut editor = editor_with("abc");

    assert!(matches!(handle(&mut session, &mut editor, ctrl('q')), Step::Quit));
}

#[test]
fn saving_without_a_path_reports_it() {
    let mut session = Session::new();
    let mut editor = editor_with("abc");

    assert!(matches!(handle(&mut session, &mut editor, ctrl('s')), Step::Continue));
    assert_eq!(
        session.status_line(),
        Some("document has no path; use `save_as` instead".to_string())
    );
}

#[test]
fn save_asks_for_a_write_and_finishing_marks_the_document_saved() {
    let mut session = Session::new();
    let mut editor = Editor::new(Document::<VecStorage>::open("a.txt".to_string(), "abc\n"));
    handle(&mut session, &mut editor, press(KeyCode::Char('x')));

    let request = match handle(&mut session, &mut editor, ctrl('s')) {
        Step::Write(request) => request,
        _ => panic!("expected a write"),
    };
    assert_eq!(request.path, "a.txt");
    assert_eq!(request.content, "xabc\n");

    session.finish_save(&mut editor, &request, Ok(()));

    assert!(!editor.document().is_dirty());
    assert_eq!(session.status_line(), Some("Saved".to_string()));
}

#[test]
fn a_failed_write_shows_its_error_and_keeps_the_document_dirty() {
    let mut session = Session::new();
    let mut editor = Editor::new(Document::<VecStorage>::open("a.txt".to_string(), "abc"));
    handle(&mut session, &mut editor, press(KeyCode::Char('x')));

    let request = match handle(&mut session, &mut editor, ctrl('s')) {
        Step::Write(request) => request,
        _ => panic!("expected a write"),
    };
    session.finish_save(&mut editor, &request, Err("permission denied".to_string()));

    assert!(editor.document().is_dirty());
    assert_eq!(session.status_line(), Some("permission denied".to_string()));
}

#[test]
fn save_as_prompt_collects_a_path() {
    let mut session = Session::new();
    let mut editor = editor_with("abc");

    handle(&mut session, &mut editor, press(KeyCode::F(2)));
    assert_eq!(session.status_line(), Some("Save as: ".to_string()));

    for c in "b.txtt".chars() {
        handle(&mut session, &mut editor, press(KeyCode::Char(c)));
    }
    handle(&mut session, &mut editor, press(KeyCode::Backspace));
    handle(&mut session, &mut editor, press(KeyCode::Left));
    assert_eq!(session.status_line(), Some("Save as: b.txt".to_string()));
    assert_eq!(editor.cursor().position(), Position::new(0, 0));

    let request = match handle(&mut session, &mut editor, press(KeyCode::Enter)) {
        Step::Write(request) => request,
        _ => panic!("expected a write"),
    };
    assert_eq!(request.path, "b.txt");
    assert_eq!(request.content, "abc\n");

    session.finish_save(&mut editor, &request, Ok(()));
    assert_eq!(editor.document().path(), Some(&"b.txt".to_string()));
}

#[test]
fn save_as_prompt_can_be_cancelled() {
    let mut session = Session::new();
    let mut editor = editor_with("abc");

    handle(&mut session, &mut editor, press(KeyCode::F(2)));
    handle(&mut session, &mut editor, press(KeyCode::Esc));
    assert_eq!(session.status_line(), Some("Save as cancelled".to_string()));

    handle(&mut session, &mut editor, press(KeyCode::F(2)));
    assert!(matches!(handle(&mut session, &mut editor, press(KeyCode::Enter)), Step::Continue));
    assert_eq!(
        session.status_line(),
        Some("Save as cancelled: no filename given".to_string())
    );
}

#[test]
fn vertical_moves_keep_the_preferred_column() {
    let mut session = Session::new();
    let mut editor = editor_with("abcdef\nab\nabcdef");

    for _ in 0..5 {
        handle(&mut session, &mut editor, press(KeyCode::Right));
    }
    handle(&mut session, &mut editor, press(KeyCode::Down));
    assert_eq!(editor.cursor().position(), Position::new(1, 2));
    handle(&mut session, &mut editor, press(KeyCode::Down));
    assert_eq!(editor.cursor().position(), Position::new(2, 5));
}

#[test]
fn a_failing_edit_shows_its_error() {
    let mut session = Session::new();
    let mut editor = editor_with("abc");
    editor.document_mut().buffer_mut().delete(oxiden::position::Range::new(
        Position::new(0, 0),
        Position::new(0, 3),
    )).unwrap();
    // The cursor is still at the origin, which stays valid; move it past
    // the end of the now-empty line through the document behind its back.
    editor.document_mut().buffer_mut().insert(Position::new(0, 0), "\n").unwrap();
    handle(&mut session, &mut editor, press(KeyCode::Down));
    editor.document_mut().buffer_mut().delete(oxiden::position::Range::new(
        Position::new(0, 0),
        Position::new(1, 0),
    )).unwrap();

    handle(&mut session, &mut editor, press(KeyCode::Char('z')));

    assert_eq!(session.status_line(), Some("invalid position".to_string()));
}

#[test]
fn ctrl_z_and_ctrl_y_undo_and_redo() {
    let mut session = Session::new();
    let mut editor = editor_with("");
    for c in "hi".chars() {
        handle(&mut session, &mut editor, press(KeyCode::Char(c)));
    }

    handle(&mut session, &mut editor, ctrl('z'));
    assert_eq!(editor.document().buffer().line(0), Some(String::new()));

    handle(&mut session, &mut editor, ctrl('y'));
    assert_eq!(editor.document().buffer().line(0), Some("hi".to_string()));
    assert_eq!(editor.cursor().position(), Position::new(0, 2));
}

#[test]
fn ctrl_arrows_move_by_words_and_ctrl_delete_deletes_a_word() {
    let mut session = Session::new();
    let mut editor = editor_with("hello big world");
    let ctrl_key = |code| KeyEvent::new(code, KeyModifiers::control());

    handle(&mut session, &mut editor, ctrl_key(KeyCode::Right));
    assert_eq!(editor.cursor().position(), Position::new(0, 6));

    handle(&mut session, &mut editor, ctrl_key(KeyCode::Delete));
    assert_eq!(editor.document().buffer().line(0), Some("hello world".to_string()));
    assert_eq!(editor.cursor().position(), Position::new(0, 6));

    handle(&mut session, &mut editor, ctrl_key(KeyCode::Left));
    assert_eq!(editor.cursor().position(), Position::new(0, 0));
}
