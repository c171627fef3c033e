//! [`Cursor`]: the user's current location in a document.

use vstd::prelude::*;

use crate::position::Position;

verus! {

/// The user's current location in a document, plus the column it would
/// like to be at.
///
/// `Cursor` does not validate its position against any buffer: keeping it
/// consistent with the document's content is [`crate::editor::Editor`]'s
/// job. The preferred column is what vertical motion returns to when it
/// passes through shorter lines.
#[derive(Debug, Copy, Clone, PartialEq, Eq, Structural)]
pub struct Cursor {
    position: Position,
    preferred_column: usize,
}

impl Cursor {
    /// The cursor's position.
    pub closed spec fn pos(&self) -> Position {
        self.position
    }

    /// The cursor's preferred column.
    pub closed spec fn preferred(&self) -> usize {
        self.preferred_column
    }

    /// Creates a cursor at the start of the document (line 0, column 0).
    pub fn new() -> (c: Self)
        ensures
            c.pos() == (Position { line: 0, column: 0 }),
            c.preferred() == 0,
    {
        Self { position: Position::new(0, 0), preferred_column: 0 }
    }

    /// The cursor's current position.
    pub fn position(&self) -> (p: Position)
        ensures
            p == self.pos(),
    {
        self.position
    }

    /// The cursor's preferred column.
    pub fn preferred_column(&self) -> (c: usize)
        ensures
            c == self.preferred(),
    {
        self.preferred_column
    }

    /// Moves the cursor to `pos`, making its column the preferred one.
    ///
    /// For movements that establish a new horizontal position: left/right
    /// movement, clicks, "go to" commands.
    pub fn move_to(&mut self, pos: Position)
        ensures
            final(self).pos() == pos,
            final(self).preferred() == pos.column,
    {
        self.position = pos;
        self.preferred_column = pos.column;
    }

    /// Puts the cursor at `pos`; its column becomes the preferred one, as
    /// with [`Self::move_to`].
    pub fn set(&mut self, pos: Position)
        ensures
            final(self).pos() == pos,
            final(self).preferred() == pos.column,
    {
        self.move_to(pos);
    }

    /// Moves the cursor vertically, keeping the preferred column, so the
    /// cursor returns to it when moving onto longer lines.
    pub fn move_vertical_to(&mut self, pos: Position)
        ensures
            final(self).pos() == pos,
            final(self).preferred() == old(self).preferred(),
    {
        self.position = pos;
    }

    /// Shorthand for `position().line`.
    pub fn line(&self) -> (l: usize)
        ensures
            l == self.pos().line,
    {
        self.position.line
    }

    /// Shorthand for `position().column`.
    pub fn column(&self) -> (c: usize)
        ensures
            c == self.pos().column,
    {
        self.position.column
    }
}

impl Default for Cursor {
    fn default() -> (c: Self)
        ensures
            c.pos() == (Position { line: 0, column: 0 }),
            c.preferred() == 0,
    {
        Self::new()
    }
}

} // verus!
