//! [`Command`]: the edit operations a front end can ask an editor to
//! perform.

use vstd::prelude::*;

use crate::position::{Position, Range};

verus! {

/// A single editing action a UI can ask an [`crate::editor::Editor`] to
/// perform.
///
/// `Command` is the boundary between input handling and editing logic: a
/// front end turns raw input events into `Command`s, and
/// [`crate::editor::Editor::execute`] applies them, updating both the
/// document and the cursor.
#[derive(Debug, Clone, PartialEq, Eq)]
pub enum Command {
    /// Move the cursor to a position, clamped to the document, without
    /// editing text. A `vertical` move keeps the cursor's preferred
    /// column and lands as close to it as the target line allows.
    MoveTo { position: Position, vertical: bool },
    /// Insert a single character at the cursor.
    Insert(char),
    /// Insert a (possibly multi-line) string at the cursor.
    InsertText(String),
    /// Delete the character before the cursor, joining with the previous
    /// line if at column 0.
    Backspace,
    /// Delete the character at the cursor, joining with the next line if
    /// at the end of the current one.
    Delete,
    /// Delete an explicit range of text (e.g. a selection), regardless of
    /// where the cursor is. The cursor moves to the earlier endpoint.
    DeleteRange(Range),
    /// Insert a newline at the cursor, splitting the current line.
    NewLine,
    /// Revert the most recent group of edits and move the cursor to where
    /// that left things. A no-op if there's nothing to undo.
    Undo,
    /// Re-apply the most recently undone group of edits. A no-op if
    /// there's nothing to redo.
    Redo,
}

/// How many characters `command` may add to a document.
pub open spec fn added_chars(command: Command) -> nat {
    match command {
        Command::Insert(_) => 1,
        Command::NewLine => 1,
        Command::InsertText(t) => t@.len(),
        _ => 0,
    }
}

} // verus!
