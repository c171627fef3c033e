//! The interactive session: what each key press does to the editor, to the
//! status line and to the save-as prompt, and when the program has to
//! write a file or stop.
//!
//! The program around it runs the loop: it draws, reads the next terminal
//! event, hands key presses to [`Session::handle_key`], performs the
//! [`Step`] that comes back (writing a file and reporting the outcome
//! through [`Session::finish_save`], or quitting), and resizes its
//! viewport itself.

use vstd::prelude::*;

use crate::command::Command;
use crate::document::{render_spec, SaveRequest};
use crate::editor::{execute_fits, execute_outcome, min_spec, Editor};
use crate::error::{buffer_message, document_message, BufferError, DocumentError};
use crate::input::{
    boundary_spec, map_key, map_key_spec, motion_spec, motion_target, word_boundary, Action,
    Direction, KeyCode, KeyEvent, Move,
};
use crate::position::{Position, Range};
use crate::text::valid_pos;
use crate::storage::TextStorage;
use crate::text::{chars_to_string, str_chars};

verus! {

/// Interactive single-line text input shown on the status line in place of
/// the usual status, used to gather a path for [`Action::SaveAs`].
pub struct Prompt {
    /// Text shown before the user's typed input, e.g. `"Save as: "`.
    label: &'static str,
    /// What the user has typed so far.
    input: Vec<char>,
}

impl Prompt {
    /// The text shown before the input.
    pub closed spec fn label_view(&self) -> Seq<char> {
        self.label@
    }

    /// What the user has typed so far.
    pub closed spec fn input_view(&self) -> Seq<char> {
        self.input@
    }

    /// The prompt for a save-as path, with nothing typed yet.
    pub fn save_as() -> (p: Prompt)
        ensures
            p.label_view() == "Save as: "@,
            p.input_view() == Seq::<char>::empty(),
    {
        Prompt { label: "Save as: ", input: Vec::new() }
    }

    /// Renders this prompt as a status-line string, e.g.
    /// `"Save as: notes.txt"`.
    pub fn render(&self) -> (s: String)
        ensures
            s@ == self.label_view() + self.input_view(),
    {
        let mut chars = str_chars(self.label);
        let mut k: usize = 0;
        while k < self.input.len()
            invariant
                k <= self.input@.len(),
                chars@ == self.label@ + self.input@.take(k as int),
            decreases self.input@.len() - k,
        {
            chars.push(self.input[k]);
            proof {
                assert(self.input@.take(k + 1) == self.input@.take(k as int).push(
                    self.input@[k as int],
                ));
            }
            k = k + 1;
        }
        assert(self.input@.take(self.input@.len() as int) == self.input@);
        chars_to_string(chars.as_slice())
    }
}

/// What the program has to do after a key press.
pub enum Step {
    /// Draw again and wait for the next event.
    Continue,
    /// Stop.
    Quit,
    /// Write `request` to disk, then report how that went through
    /// [`Session::finish_save`].
    Write(SaveRequest),
}

/// What the status line shows when a key press's command failed, or
/// nothing when it succeeded.
pub open spec fn error_status(r: Result<(), BufferError>) -> Option<Seq<char>> {
    match r {
        Ok(_) => None,
        Err(e) => Some(buffer_message(e)),
    }
}

/// The status shown after a save-as prompt is confirmed with no path.
pub open spec fn no_filename_status() -> Seq<char> {
    "Save as cancelled: no filename given"@
}

/// The status shown after a save-as prompt is dismissed.
pub open spec fn cancelled_status() -> Seq<char> {
    "Save as cancelled"@
}

/// The status shown after the first Ctrl+Q with unsaved changes.
pub open spec fn unsaved_status() -> Seq<char> {
    "Unsaved changes — Ctrl+Q again to quit"@
}

/// The status shown after a successful write.
pub open spec fn saved_status() -> Seq<char> {
    "Saved"@
}

/// The state around the editor: the prompt being typed into, if any, the
/// status message shown in place of the usual status line, if any, and
/// whether a first Ctrl+Q with unsaved changes awaits confirmation.
pub struct Session {
    prompt: Option<Prompt>,
    status: Option<String>,
    quit_pending: bool,
}

/// Whether the cursor movement `m` is vertical, so that the cursor keeps
/// its preferred column.
pub open spec fn is_vertical(m: Move) -> bool {
    m == Move::Up || m == Move::Down
}

/// The command a cursor movement `m` becomes in editor `e`.
pub open spec fn move_command<S: TextStorage>(e: Editor<S>, m: Move) -> Command {
    Command::MoveTo {
        position: motion_spec(e.doc().buf().lines(), e.cur().pos(), m),
        vertical: is_vertical(m),
    }
}

/// The command Ctrl+Delete becomes in editor `e`: deleting from the
/// cursor to the start of the next word.
pub open spec fn delete_word_command<S: TextStorage>(e: Editor<S>) -> Command {
    let pos = e.cur().pos();
    Command::DeleteRange(
        Range { start: pos, end: boundary_spec(e.doc().buf().lines(), pos, Direction::Right) },
    )
}

/// Whether the document of `e1` is that of `e0` saved as `request`, with
/// the cursor kept.
pub open spec fn saved_outcome<S: TextStorage>(
    e0: Editor<S>,
    e1: Editor<S>,
    request: SaveRequest,
) -> bool {
    &&& e1.doc().path_view() == Some(request.path@)
    &&& !e1.doc().dirty_view()
    &&& e1.doc().buf() == e0.doc().buf()
    &&& e1.doc().history_view() == e0.doc().history_view()
    &&& e1.doc().ending_view() == e0.doc().ending_view()
    &&& e1.doc().trailing_view() == e0.doc().trailing_view()
    &&& e1.cur() == e0.cur()
}

/// Whether `req` writes the document of `e` to the path `path`.
pub open spec fn writes<S: TextStorage>(e: Editor<S>, req: SaveRequest, path: Seq<char>) -> bool {
    &&& req.path@ == path
    &&& req.content@ == render_spec(
        e.doc().buf().text(),
        e.doc().ending_view(),
        e.doc().trailing_view(),
    )
}

impl Session {
    /// The prompt being typed into, if any.
    pub closed spec fn prompt_view(&self) -> Option<Prompt> {
        self.prompt
    }

    /// The status message shown in place of the usual status line, if any.
    pub closed spec fn status_view(&self) -> Option<Seq<char>> {
        match self.status {
            Some(s) => Some(s@),
            None => None,
        }
    }

    /// Whether a first Ctrl+Q with unsaved changes awaits confirmation.
    pub closed spec fn quit_pending_view(&self) -> bool {
        self.quit_pending
    }

    /// Whether a key press can be handled in editor `e`: whatever command
    /// it leads to keeps the editor's counts within `usize`.
    pub open spec fn accepts_spec<S: TextStorage>(&self, e: Editor<S>, key: KeyEvent) -> bool {
        self.prompt_view() is None ==> match map_key_spec(key) {
            Action::Edit(c) => execute_fits(e, c),
            Action::Move(m) => {
                &&& (m == Move::Right || m == Move::Down ==> e.cur().pos().line < usize::MAX)
                &&& (m == Move::WordRight ==> e.cur().pos().line < e.doc().buf().lines().len())
                &&& (m == Move::WordLeft ==> valid_pos(e.doc().buf().lines(), e.cur().pos())
                    || e.cur().pos().column == 0)
                &&& e.doc().buf().text().len() < usize::MAX
            },
            Action::DeleteWord => e.doc().buf().text().len() < usize::MAX,
            _ => true,
        }
    }

    /// What handling `key` in editor `e0` does: `self` becomes `s1`, the
    /// editor `e1`, and `step` comes back.
    ///
    /// While the prompt is open every key edits it: Enter confirms it
    /// (asking to write the document to the typed path, or, with nothing
    /// typed, cancelling), Esc dismisses it, Backspace removes the last
    /// typed character, a character is typed, and any other key is
    /// ignored. Otherwise the key's [`Action`] is carried out: Ctrl+Q
    /// quits unless the document has unsaved changes and this is the first
    /// Ctrl+Q in a row; an edit is executed and its error, if any, shown; a
    /// motion moves the cursor (keeping its preferred column when
    /// vertical); Ctrl+Delete deletes from the cursor to the start of the
    /// next word; Ctrl+S asks to write the document to its path (or shows
    /// that it has none); F2 opens the prompt.
    pub open spec fn handles<S: TextStorage>(
        &self,
        e0: Editor<S>,
        key: KeyEvent,
        s1: Session,
        e1: Editor<S>,
        step: Step,
    ) -> bool {
        match self.prompt_view() {
            Some(p) => {
                &&& e1 == e0
                &&& s1.quit_pending_view() == self.quit_pending_view()
                &&& match key.code {
                    KeyCode::Enter => {
                        &&& s1.prompt_view() is None
                        &&& if p.input_view().len() == 0 {
                            &&& step is Continue
                            &&& s1.status_view() == Some(no_filename_status())
                        } else {
                            &&& step matches Step::Write(req) && writes(e0, req, p.input_view())
                            &&& s1.status_view() == self.status_view()
                        }
                    },
                    KeyCode::Esc => {
                        &&& s1.prompt_view() is None
                        &&& step is Continue
                        &&& s1.status_view() == Some(cancelled_status())
                    },
                    KeyCode::Backspace => {
                        &&& step is Continue
                        &&& s1.status_view() == self.status_view()
                        &&& s1.prompt_view() matches Some(q) && q.label_view() == p.label_view()
                            && q.input_view() == if p.input_view().len() == 0 {
                            p.input_view()
                        } else {
                            p.input_view().drop_last()
                        }
                    },
                    KeyCode::Char(c) => {
                        &&& step is Continue
                        &&& s1.status_view() == self.status_view()
                        &&& s1.prompt_view() matches Some(q) && q.label_view() == p.label_view()
                            && q.input_view() == p.input_view().push(c)
                    },
                    _ => {
                        &&& step is Continue
                        &&& s1 == *self
                    },
                }
            },
            None => match map_key_spec(key) {
                Action::Quit => if e0.doc().dirty_view() && !self.quit_pending_view() {
                    &&& step is Continue
                    &&& e1 == e0
                    &&& s1.prompt_view() is None
                    &&& s1.status_view() == Some(unsaved_status())
                    &&& s1.quit_pending_view()
                } else {
                    &&& step is Quit
                    &&& e1 == e0
                    &&& s1 == *self
                },
                action => {
                    &&& !s1.quit_pending_view()
                    &&& match action {
                        Action::Edit(c) => {
                            &&& step is Continue
                            &&& s1.prompt_view() is None
                            &&& exists|r: Result<(), BufferError>|
                                #![trigger execute_outcome(e0, e1, c, r)]
                                execute_outcome(e0, e1, c, r) && s1.status_view() == error_status(
                                    r,
                                )
                        },
                        Action::Move(m) => {
                            &&& step is Continue
                            &&& s1.prompt_view() is None
                            &&& s1.status_view() == self.status_view()
                            &&& execute_outcome(e0, e1, move_command(e0, m), Ok(()))
                        },
                        Action::DeleteWord => {
                            &&& step is Continue
                            &&& s1.prompt_view() is None
                            &&& if e0.cur().pos().line < e0.doc().buf().lines().len() {
                                exists|r: Result<(), BufferError>|
                                    #![trigger execute_outcome(e0, e1, delete_word_command(e0), r)]
                                    execute_outcome(e0, e1, delete_word_command(e0), r)
                                        && s1.status_view() == error_status(r)
                            } else {
                                &&& e1 == e0
                                &&& s1.status_view() == error_status(
                                    Err(BufferError::InvalidPosition),
                                )
                            }
                        },
                        Action::Save => {
                            &&& e1 == e0
                            &&& s1.prompt_view() is None
                            &&& match e0.doc().path_view() {
                                Some(path) => {
                                    &&& step matches Step::Write(req) && writes(e0, req, path)
                                    &&& s1.status_view() == self.status_view()
                                },
                                None => {
                                    &&& step is Continue
                                    &&& s1.status_view() == Some(
                                        document_message(DocumentError::NoPath),
                                    )
                                },
                            }
                        },
                        Action::SaveAs => {
                            &&& step is Continue
                            &&& e1 == e0
                            &&& s1.status_view() == self.status_view()
                            &&& s1.prompt_view() matches Some(q) && q.label_view() == "Save as: "@
                                && q.input_view() == Seq::<char>::empty()
                        },
                        _ => {
                            &&& step is Continue
                            &&& e1 == e0
                            &&& s1.prompt_view() is None
                            &&& s1.status_view() == self.status_view()
                        },
                    }
                },
            },
        }
    }

    /// A session with no prompt, no status message and no pending quit.
    pub fn new() -> (s: Session)
        ensures
            s.prompt_view() is None,
            s.status_view() is None,
            !s.quit_pending_view(),
    {
        Session { prompt: None, status: None, quit_pending: false }
    }

    /// What the status line shows in place of the usual status: the prompt
    /// while it is open, else the status message, if any.
    pub fn status_line(&self) -> (s: Option<String>)
        ensures
            self.prompt_view() matches Some(p) ==> s matches Some(t) && t@ == p.label_view()
                + p.input_view(),
            self.prompt_view() is None ==> match s {
                Some(t) => self.status_view() == Some(t@),
                None => self.status_view() is None,
            },
    {
        match &self.prompt {
            Some(p) => Some(p.render()),
            None => match &self.status {
                Some(t) => Some(chars_to_string(str_chars(t.as_str()).as_slice())),
                None => None,
            },
        }
    }

    /// Whether `key` can be handled in `editor` (see [`Self::accepts_spec`]).
    pub fn accepts<S: TextStorage>(&self, editor: &Editor<S>, key: KeyEvent) -> (b: bool)
        requires
            editor.doc().buf().inv(),
        ensures
            b == self.accepts_spec(*editor, key),
    {
        if self.prompt.is_some() {
            return true;
        }
        let buffer = editor.document().buffer();
        proof {
            buffer.lemma_inv();
        }
        let size = buffer.len_chars();
        let pos = editor.cursor().position();
        match map_key(key) {
            Action::Edit(c) => {
                let added: usize = match c {
                    Command::Insert(_) => 1,
                    Command::NewLine => 1,
                    _ => 0,
                };
                if size >= usize::MAX - added {
                    return false;
                }
                match c {
                    Command::Backspace => {
                        !(pos.column == 0 && pos.line > 0) || pos.line - 1 < buffer.line_count()
                    },
                    Command::Delete => {
                        let at_end = pos.line < buffer.line_count() && match buffer.line_len(
                            pos.line,
                        ) {
                            Some(len) => pos.column == len,
                            None => false,
                        };
                        at_end || pos.column < usize::MAX
                    },
                    _ => true,
                }
            },
            Action::Move(m) => {
                let word_ok = match m {
                    Move::WordRight => pos.line < buffer.line_count(),
                    Move::WordLeft => pos.column == 0 || buffer.is_valid_position(pos),
                    _ => true,
                };
                (!(m == Move::Right || m == Move::Down) || pos.line < usize::MAX) && word_ok
                    && size < usize::MAX
            },
            Action::DeleteWord => size < usize::MAX,
            _ => true,
        }
    }

    /// Handles one key press (see [`Self::handles`] for what it does).
    pub fn handle_key<S: TextStorage>(&mut self, editor: &mut Editor<S>, key: KeyEvent) -> (step:
        Step)
        requires
            old(editor).doc().buf().inv(),
            old(self).accepts_spec(*old(editor), key),
        ensures
            final(editor).doc().buf().inv(),
            old(self).handles(*old(editor), key, *final(self), *final(editor), step),
    {
        if self.prompt.is_some() {
            return self.handle_prompt_key(editor, key);
        }
        let action = map_key(key);
        if let Action::Quit = action {
            // Require confirmation (a second Ctrl+Q) before discarding
            // unsaved changes.
            if editor.document().is_dirty() && !self.quit_pending {
                self.status = Some(chars_to_string(str_chars("Unsaved changes — Ctrl+Q again to quit").as_slice()));
                self.quit_pending = true;
                return Step::Continue;
            }
            return Step::Quit;
        }
        // Any key other than the pending quit confirmation cancels it, so
        // the user has to press Ctrl+Q twice in a row.
        self.quit_pending = false;
        match action {
            Action::Edit(command) => {
                let r = editor.execute(command);
                self.status = match r {
                    Ok(()) => None,
                    Err(e) => Some(chars_to_string(str_chars(e.message()).as_slice())),
                };
                Step::Continue
            },
            Action::Move(movement) => {
                let target = motion_target(
                    editor.document().buffer(),
                    editor.cursor().position(),
                    movement,
                );
                let vertical = match movement {
                    Move::Up => true,
                    Move::Down => true,
                    _ => false,
                };
                // A move never fails.
                let _ = editor.execute(Command::MoveTo { position: target, vertical });
                Step::Continue
            },
            Action::DeleteWord => {
                let pos = editor.cursor().position();
                let r = if pos.line < editor.document().buffer().line_count() {
                    let end = word_boundary(editor.document().buffer(), pos, Direction::Right);
                    editor.execute(Command::DeleteRange(Range::new(pos, end)))
                } else {
                    Err(BufferError::InvalidPosition)
                };
                self.status = match r {
                    Ok(()) => None,
                    Err(e) => Some(chars_to_string(str_chars(e.message()).as_slice())),
                };
                Step::Continue
            },
            Action::Save => {
                match editor.document().save() {
                    Ok(request) => Step::Write(request),
                    Err(e) => {
                        self.status = Some(chars_to_string(str_chars(e.message()).as_slice()));
                        Step::Continue
                    },
                }
            },
            Action::SaveAs => {
                self.prompt = Some(Prompt::save_as());
                Step::Continue
            },
            _ => Step::Continue,
        }
    }

    /// Handles a key press while the prompt is open.
    fn handle_prompt_key<S: TextStorage>(&mut self, editor: &Editor<S>, key: KeyEvent) -> (step:
        Step)
        requires
            old(self).prompt_view() is Some,
            editor.doc().buf().inv(),
        ensures
            old(self).handles(*editor, key, *final(self), *editor, step),
    {
        let mut active = match self.prompt.take() {
            Some(p) => p,
            None => return Step::Continue,
        };
        match key.code {
            KeyCode::Enter => {
                if active.input.len() == 0 {
                    self.status = Some(chars_to_string(str_chars("Save as cancelled: no filename given").as_slice()));
                    Step::Continue
                } else {
                    let path = chars_to_string(active.input.as_slice());
                    Step::Write(editor.document().save_as(path))
                }
            },
            KeyCode::Esc => {
                self.status = Some(chars_to_string(str_chars("Save as cancelled").as_slice()));
                Step::Continue
            },
            KeyCode::Backspace => {
                active.input.pop();
                self.prompt = Some(active);
                Step::Continue
            },
            KeyCode::Char(c) => {
                active.input.push(c);
                self.prompt = Some(active);
                Step::Continue
            },
            // Anything else isn't meaningful input for a bare filename
            // prompt, so it's ignored rather than falling through to
            // editor commands.
            _ => {
                self.prompt = Some(active);
                Step::Continue
            },
        }
    }

    /// Reports how writing `request` went: on success the document takes
    /// the request's path and is clean, and the status says so; on failure
    /// the status shows `written`'s message and the document is kept.
    pub fn finish_save<S: TextStorage>(
        &mut self,
        editor: &mut Editor<S>,
        request: &SaveRequest,
        written: Result<(), String>,
    )
        ensures
            written is Ok ==> saved_outcome(*old(editor), *final(editor), *request)
                && final(self).status_view() == Some(saved_status()),
            written matches Err(m) ==> *final(editor) == *old(editor) && final(self).status_view()
                == Some(m@),
            final(self).prompt_view() == old(self).prompt_view(),
            final(self).quit_pending_view() == old(self).quit_pending_view(),
    {
        match written {
            Ok(()) => {
                editor.document_mut().mark_saved(request);
                self.status = Some(chars_to_string(str_chars("Saved").as_slice()));
            },
            Err(message) => {
                self.status = Some(message);
            },
        }
    }
}

/// Law: Up and Down keep the cursor's preferred column. Handling either
/// key with no prompt open leaves the text as it is and the preferred
/// column as it was, and lands on the line above (Up) or below (Down) at
/// the preferred column, or at that line's end where it is shorter; so a
/// cursor passing a short line comes back to its column on the next long
/// one.
pub proof fn lemma_vertical_keys_keep_preferred_column<S: TextStorage>(
    s0: Session,
    e0: Editor<S>,
    key: KeyEvent,
    s1: Session,
    e1: Editor<S>,
    step: Step,
)
    requires
        s0.prompt_view() is None,
        key.code == KeyCode::Up || key.code == KeyCode::Down,
        e0.doc().buf().inv(),
        s0.handles(e0, key, s1, e1, step),
    ensures
        e1.cur().preferred() == e0.cur().preferred(),
        e1.doc().buf() == e0.doc().buf(),
        key.code == KeyCode::Up && 0 < e0.cur().pos().line < e0.doc().buf().lines().len()
            ==> e1.cur().pos() == (Position {
            line: (e0.cur().pos().line - 1) as usize,
            column: min_spec(
                e0.cur().preferred() as int,
                e0.doc().buf().lines()[e0.cur().pos().line - 1].len() as int,
            ) as usize,
        }),
        key.code == KeyCode::Down && e0.cur().pos().line + 1 < e0.doc().buf().lines().len()
            ==> e1.cur().pos() == (Position {
            line: (e0.cur().pos().line + 1) as usize,
            column: min_spec(
                e0.cur().preferred() as int,
                e0.doc().buf().lines()[e0.cur().pos().line + 1].len() as int,
            ) as usize,
        }),
{
    e0.doc().buf().lemma_inv();
}

/// Law: Left and Right (with or without Ctrl) make the column they land on
/// the cursor's preferred column, and leave the text as it is.
pub proof fn lemma_horizontal_keys_set_preferred_column<S: TextStorage>(
    s0: Session,
    e0: Editor<S>,
    key: KeyEvent,
    s1: Session,
    e1: Editor<S>,
    step: Step,
)
    requires
        s0.prompt_view() is None,
        key.code == KeyCode::Left || key.code == KeyCode::Right,
        s0.handles(e0, key, s1, e1, step),
    ensures
        e1.cur().preferred() == e1.cur().pos().column,
        e1.doc().buf() == e0.doc().buf(),
{
}

} // verus!
