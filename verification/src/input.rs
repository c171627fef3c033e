//! How key presses map to editor-level actions, and how cursor motions
//! resolve against a buffer.
//!
//! The key types here hold, as plain values, what the terminal front end
//! reports of a key press; the front end converts its own events into them.

use vstd::prelude::*;

use crate::buffer::Buffer;
use crate::command::Command;
use crate::position::Position;
use crate::storage::TextStorage;
use crate::text::{line_or_empty, pos_le, str_chars, valid_pos};

verus! {

/// The result of interpreting a key press: an edit to apply, a cursor
/// motion to resolve, or a UI-level request.
#[derive(Debug, Clone, PartialEq, Eq)]
pub enum Action {
    /// Apply this command to the editor.
    Edit(Command),
    /// Move the cursor; resolved against the buffer via [`motion_target`]
    /// since the target depends on line lengths, not just the key.
    Move(Move),
    /// Delete from the cursor to the start of the next word.
    DeleteWord,
    /// Save the current document.
    Save,
    /// Save the current document to a new, user-chosen path.
    SaveAs,
    /// Quit the application.
    Quit,
    /// The key press doesn't map to anything.
    Noop,
}

/// A cursor movement requested by the user, independent of the buffer's
/// content. Resolving it into a position is [`motion_target`]'s job.
#[derive(Debug, Clone, Copy, PartialEq, Eq, Structural)]
pub enum Move {
    Up,
    Down,
    Left,
    Right,
    LineStart,
    LineEnd,
    FileStart,
    FileEnd,
    /// To the start of the previous word (see [`word_boundary`]).
    WordLeft,
    /// To the start of the next word (see [`word_boundary`]).
    WordRight,
}

/// Which key was pressed.
#[derive(Debug, Clone, Copy, PartialEq, Eq, Structural)]
pub enum KeyCode {
    Char(char),
    F(u8),
    Tab,
    Enter,
    Backspace,
    Delete,
    Left,
    Right,
    Up,
    Down,
    Home,
    End,
    PageUp,
    PageDown,
    Esc,
    /// Any key this editor has no use for.
    Other,
}

/// The modifier keys held during a key press, as bits: Shift is 1,
/// Control 2, Alt 4, and other modifiers higher bits.
#[derive(Debug, Clone, Copy, PartialEq, Eq, Structural)]
pub struct KeyModifiers {
    pub bits: u8,
}

impl KeyModifiers {
    /// No modifier.
    pub fn none() -> (m: KeyModifiers)
        ensures
            m.bits == 0,
    {
        KeyModifiers { bits: 0 }
    }

    /// Shift.
    pub fn shift() -> (m: KeyModifiers)
        ensures
            m.bits == 1,
    {
        KeyModifiers { bits: 1 }
    }

    /// Control.
    pub fn control() -> (m: KeyModifiers)
        ensures
            m.bits == 2,
    {
        KeyModifiers { bits: 2 }
    }

    /// Alt.
    pub fn alt() -> (m: KeyModifiers)
        ensures
            m.bits == 4,
    {
        KeyModifiers { bits: 4 }
    }

    /// Whether no modifier is held.
    pub fn is_empty(&self) -> (b: bool)
        ensures
            b == (self.bits == 0),
    {
        self.bits == 0
    }

    /// The modifiers of `self` and `other` together.
    pub fn union(self, other: KeyModifiers) -> (m: KeyModifiers)
        ensures
            m.bits == self.bits | other.bits,
    {
        KeyModifiers { bits: self.bits | other.bits }
    }
}

/// A key press: the key and the modifiers held with it.
#[derive(Debug, Clone, Copy, PartialEq, Eq, Structural)]
pub struct KeyEvent {
    pub code: KeyCode,
    pub modifiers: KeyModifiers,
}

impl KeyEvent {
    /// A key press of `code` with `modifiers` held.
    pub fn new(code: KeyCode, modifiers: KeyModifiers) -> (k: KeyEvent)
        ensures
            k.code == code,
            k.modifiers == modifiers,
    {
        KeyEvent { code, modifiers }
    }
}

/// The action a key press maps to.
pub open spec fn map_key_spec(key: KeyEvent) -> Action {
    let m = key.modifiers.bits;
    match key.code {
        KeyCode::Char(c) => if c == 'q' && m == 2 {
            Action::Quit
        } else if c == 's' && m == 2 {
            Action::Save
        } else if c == 'z' && m == 2 {
            Action::Edit(Command::Undo)
        } else if c == 'y' && m == 2 {
            Action::Edit(Command::Redo)
        } else if m == 0 || m == 1 {
            Action::Edit(Command::Insert(c))
        } else {
            Action::Noop
        },
        KeyCode::F(n) => if n == 2 {
            Action::SaveAs
        } else {
            Action::Noop
        },
        KeyCode::Tab => Action::Edit(Command::Insert('\t')),
        KeyCode::Enter => Action::Edit(Command::NewLine),
        KeyCode::Backspace => Action::Edit(Command::Backspace),
        KeyCode::Delete => if m == 2 {
            Action::DeleteWord
        } else {
            Action::Edit(Command::Delete)
        },
        KeyCode::Left => if m == 2 {
            Action::Move(Move::WordLeft)
        } else {
            Action::Move(Move::Left)
        },
        KeyCode::Right => if m == 2 {
            Action::Move(Move::WordRight)
        } else {
            Action::Move(Move::Right)
        },
        KeyCode::Up => Action::Move(Move::Up),
        KeyCode::Down => Action::Move(Move::Down),
        KeyCode::Home => Action::Move(Move::LineStart),
        KeyCode::End => Action::Move(Move::LineEnd),
        KeyCode::PageUp => Action::Move(Move::FileStart),
        KeyCode::PageDown => Action::Move(Move::FileEnd),
        _ => Action::Noop,
    }
}

/// Maps a key press to an [`Action`].
///
/// Plain characters (no modifiers, or Shift only, as uppercase letters and
/// shifted symbols need) insert themselves; Ctrl+Q quits, Ctrl+S saves
/// and F2 (with any modifiers) saves as; Ctrl+Z undoes and Ctrl+Y redoes;
/// Tab, Enter, Backspace and Delete edit, and Ctrl+Delete deletes the next
/// word; arrows, Home/End and PageUp/PageDown move, and Ctrl+Left/Right
/// move by words. Anything else is [`Action::Noop`].
pub fn map_key(key: KeyEvent) -> (a: Action)
    ensures
        a == map_key_spec(key),
{
    let m = key.modifiers.bits;
    match key.code {
        KeyCode::Char(c) => {
            if c == 'q' && m == 2 {
                Action::Quit
            } else if c == 's' && m == 2 {
                Action::Save
            } else if c == 'z' && m == 2 {
                Action::Edit(Command::Undo)
            } else if c == 'y' && m == 2 {
                Action::Edit(Command::Redo)
            } else if m == 0 || m == 1 {
                Action::Edit(Command::Insert(c))
            } else {
                Action::Noop
            }
        },
        KeyCode::F(n) => {
            if n == 2 {
                Action::SaveAs
            } else {
                Action::Noop
            }
        },
        KeyCode::Tab => Action::Edit(Command::Insert('\t')),
        KeyCode::Enter => Action::Edit(Command::NewLine),
        KeyCode::Backspace => Action::Edit(Command::Backspace),
        KeyCode::Delete => {
            if m == 2 {
                Action::DeleteWord
            } else {
                Action::Edit(Command::Delete)
            }
        },
        KeyCode::Left => {
            if m == 2 {
                Action::Move(Move::WordLeft)
            } else {
                Action::Move(Move::Left)
            }
        },
        KeyCode::Right => {
            if m == 2 {
                Action::Move(Move::WordRight)
            } else {
                Action::Move(Move::Right)
            }
        },
        KeyCode::Up => Action::Move(Move::Up),
        KeyCode::Down => Action::Move(Move::Down),
        KeyCode::Home => Action::Move(Move::LineStart),
        KeyCode::End => Action::Move(Move::LineEnd),
        KeyCode::PageUp => Action::Move(Move::FileStart),
        KeyCode::PageDown => Action::Move(Move::FileEnd),
        _ => Action::Noop,
    }
}

/// The position `movement` leads to from `cursor` in the lines `ls`.
pub open spec fn motion_spec(ls: Seq<Seq<char>>, cursor: Position, movement: Move) -> Position {
    let len_here = line_or_empty(ls, cursor.line as int).len();
    match movement {
        Move::Left => if cursor.column > 0 {
            Position { line: cursor.line, column: (cursor.column - 1) as usize }
        } else if cursor.line > 0 {
            Position {
                line: (cursor.line - 1) as usize,
                column: line_or_empty(ls, cursor.line - 1).len() as usize,
            }
        } else {
            cursor
        },
        Move::Right => if cursor.column < len_here {
            Position { line: cursor.line, column: (cursor.column + 1) as usize }
        } else if cursor.line + 1 != ls.len() {
            Position { line: (cursor.line + 1) as usize, column: 0 }
        } else {
            cursor
        },
        Move::Up => if cursor.line == 0 {
            cursor
        } else {
            let len = line_or_empty(ls, cursor.line - 1).len();
            Position {
                line: (cursor.line - 1) as usize,
                column: if cursor.column <= len {
                    cursor.column
                } else {
                    len as usize
                },
            }
        },
        Move::Down => if cursor.line + 1 == ls.len() {
            cursor
        } else {
            let len = line_or_empty(ls, cursor.line + 1).len();
            Position {
                line: (cursor.line + 1) as usize,
                column: if cursor.column <= len {
                    cursor.column
                } else {
                    len as usize
                },
            }
        },
        Move::LineStart => Position { line: cursor.line, column: 0 },
        Move::LineEnd => Position { line: cursor.line, column: len_here as usize },
        Move::FileStart => Position { line: 0, column: 0 },
        Move::FileEnd => Position {
            line: (ls.len() - 1) as usize,
            column: ls[ls.len() - 1].len() as usize,
        },
        Move::WordLeft => boundary_spec(ls, cursor, Direction::Left),
        Move::WordRight => boundary_spec(ls, cursor, Direction::Right),
    }
}

/// The length of line `line` of `buffer`, or 0 where it has no such line.
fn len_or_zero<S: TextStorage>(buffer: &Buffer<S>, line: usize) -> (n: usize)
    requires
        buffer.inv(),
    ensures
        n == line_or_empty(buffer.lines(), line as int).len(),
{
    match buffer.line_len(line) {
        Some(len) => len,
        None => 0,
    }
}

/// Resolves a [`Move`] against `buffer`'s content, starting from `cursor`,
/// and returns the resulting position.
///
/// Horizontal motion wraps across line boundaries: left from column 0
/// goes to the end of the previous line, right from the end of a line to
/// the start of the next one (unless there's none, in which case the
/// cursor stays put). Vertical motion keeps the column where possible but
/// clamps it to the target line's length.
pub fn motion_target<S: TextStorage>(buffer: &Buffer<S>, cursor: Position, movement: Move) -> (p:
    Position)
    requires
        buffer.inv(),
        movement == Move::Right || movement == Move::Down ==> cursor.line < usize::MAX,
        movement == Move::WordRight ==> cursor.line < buffer.lines().len(),
        movement == Move::WordLeft ==> valid_pos(buffer.lines(), cursor) || cursor.column == 0,
    ensures
        p == motion_spec(buffer.lines(), cursor, movement),
{
    proof {
        buffer.lemma_inv();
    }
    match movement {
        Move::Left => {
            if cursor.column > 0 {
                Position::new(cursor.line, cursor.column - 1)
            } else if cursor.line > 0 {
                let previous = cursor.line - 1;
                let len = len_or_zero(buffer, previous);
                Position::new(previous, len)
            } else {
                cursor
            }
        },
        Move::Right => {
            let len = len_or_zero(buffer, cursor.line);
            if cursor.column < len {
                Position::new(cursor.line, cursor.column + 1)
            } else if !buffer.is_last_line(cursor.line) {
                Position::new(cursor.line + 1, 0)
            } else {
                cursor
            }
        },
        Move::Up => {
            if cursor.line == 0 {
                cursor
            } else {
                let line = cursor.line - 1;
                let len = len_or_zero(buffer, line);
                Position::new(
                    line,
                    if cursor.column <= len {
                        cursor.column
                    } else {
                        len
                    },
                )
            }
        },
        Move::Down => {
            if buffer.is_last_line(cursor.line) {
                cursor
            } else {
                let line = cursor.line + 1;
                let len = len_or_zero(buffer, line);
                Position::new(
                    line,
                    if cursor.column <= len {
                        cursor.column
                    } else {
                        len
                    },
                )
            }
        },
        Move::LineStart => Position::new(cursor.line, 0),
        Move::LineEnd => {
            let len = len_or_zero(buffer, cursor.line);
            Position::new(cursor.line, len)
        },
        Move::FileStart => Position::new(0, 0),
        Move::FileEnd => {
            let line = buffer.line_count() - 1;
            let len = len_or_zero(buffer, line);
            Position::new(line, len)
        },
        Move::WordLeft => word_boundary(buffer, cursor, Direction::Left),
        Move::WordRight => word_boundary(buffer, cursor, Direction::Right),
    }
}

/// Law: every motion from a valid position lands on a valid position.
pub proof fn lemma_motion_stays_valid(ls: Seq<Seq<char>>, cursor: Position, movement: Move)
    requires
        ls.len() >= 1,
        ls.len() <= usize::MAX,
        forall|i: int| 0 <= i < ls.len() ==> #[trigger] ls[i].len() <= usize::MAX,
        valid_pos(ls, cursor),
    ensures
        valid_pos(ls, motion_spec(ls, cursor, movement)),
{
    assert(ls[cursor.line as int].len() <= usize::MAX);
    if cursor.line > 0 {
        assert(ls[cursor.line - 1].len() <= usize::MAX);
    }
    if cursor.line + 1 < ls.len() {
        assert(ls[cursor.line + 1].len() <= usize::MAX);
    }
    assert(ls[ls.len() - 1].len() <= usize::MAX);
    if movement == Move::WordLeft {
        lemma_word_boundary_direction(ls, cursor, Direction::Left);
    } else if movement == Move::WordRight {
        lemma_word_boundary_direction(ls, cursor, Direction::Right);
    }
}

/// Which way to search for a word boundary, used by [`word_boundary`].
#[derive(Debug, Clone, Copy, PartialEq, Eq, Structural)]
pub enum Direction {
    Left,
    Right,
}

/// The three character classes a word boundary is defined by. A maximal
/// run of same-class characters is one token; a boundary sits at every
/// transition between tokens. The break between two lines counts as
/// whitespace.
#[derive(Debug, Clone, Copy, PartialEq, Eq, Structural)]
pub enum CharClass {
    Word,
    Punctuation,
    Whitespace,
}

/// Whether `c` is whitespace, as `char::is_whitespace` decides: whether it
/// has Unicode's `White_Space` property. Those are the ASCII tab, line
/// feed, vertical tab, form feed, carriage return and space, NEL, the
/// no-break space, the Ogham space mark, the spaces from U+2000 to U+200A,
/// the line and paragraph separators, the narrow no-break space, the
/// medium mathematical space and the ideographic space.
pub open spec fn is_whitespace_spec(c: char) -> bool {
    let u = c as u32;
    ||| 0x09 <= u <= 0x0D
    ||| u == 0x20
    ||| u == 0x85
    ||| u == 0xA0
    ||| u == 0x1680
    ||| 0x2000 <= u <= 0x200A
    ||| u == 0x2028
    ||| u == 0x2029
    ||| u == 0x202F
    ||| u == 0x205F
    ||| u == 0x3000
}

/// Whether `c` is alphanumeric, as `char::is_alphanumeric` decides
/// (Unicode's `Alphabetic` or `Numeric` property).
pub uninterp spec fn is_alphanumeric_spec(c: char) -> bool;

/// Whether `c` is whitespace: whether it has Unicode's `White_Space`
/// property, as `char::is_whitespace` decides.
pub(crate) fn char_is_whitespace(c: char) -> (b: bool)
    ensures
        b == is_whitespace_spec(c),
{
    let u = c as u32;
    (0x09 <= u && u <= 0x0D) || u == 0x20 || u == 0x85 || u == 0xA0 || u == 0x1680 || (0x2000 <= u
        && u <= 0x200A) || u == 0x2028 || u == 0x2029 || u == 0x202F || u == 0x205F || u == 0x3000
}

/// Calls `char::is_alphanumeric`. Its result is named, not stated: it is
/// Unicode's `Alphabetic` or `Numeric` property of `c`, a function of `c`
/// alone.
#[verifier::external_body]
fn char_is_alphanumeric(c: char) -> (b: bool)
    ensures
        b == is_alphanumeric_spec(c),
{
    c.is_alphanumeric()
}

/// The class of `c`.
pub open spec fn class_spec(c: char) -> CharClass {
    if is_whitespace_spec(c) {
        CharClass::Whitespace
    } else if is_alphanumeric_spec(c) || c == '_' {
        CharClass::Word
    } else {
        CharClass::Punctuation
    }
}

/// The class of `c`: whitespace, a word character (alphanumeric or `_`),
/// or punctuation (anything else).
pub fn char_class(c: char) -> (k: CharClass)
    ensures
        k == class_spec(c),
{
    if char_is_whitespace(c) {
        CharClass::Whitespace
    } else if char_is_alphanumeric(c) || c == '_' {
        CharClass::Word
    } else {
        CharClass::Punctuation
    }
}

/// The position reached from `pos` by stepping forward over characters of
/// class `k`, crossing into the next line where the line break counts as
/// class `k` (only for whitespace) and a next line exists.
pub open spec fn advance_spec(ls: Seq<Seq<char>>, pos: Position, k: CharClass) -> Position
    decreases ls.len() - pos.line, line_or_empty(ls, pos.line as int).len() - pos.column,
{
    let chars = line_or_empty(ls, pos.line as int);
    if pos.column < chars.len() {
        if class_spec(chars[pos.column as int]) == k && pos.column + 1 <= usize::MAX {
            advance_spec(ls, Position { line: pos.line, column: (pos.column + 1) as usize }, k)
        } else {
            pos
        }
    } else if class_spec('\n') == k && pos.line + 1 < ls.len() && pos.line + 1 <= usize::MAX {
        advance_spec(ls, Position { line: (pos.line + 1) as usize, column: 0 }, k)
    } else {
        pos
    }
}

/// The position reached from `pos` by stepping backward over characters
/// of class `k`, crossing to the end of the previous line where the line
/// break counts as class `k` (only for whitespace).
pub open spec fn retreat_spec(ls: Seq<Seq<char>>, pos: Position, k: CharClass) -> Position
    decreases pos.line, pos.column,
{
    if pos.column > 0 {
        let chars = line_or_empty(ls, pos.line as int);
        if class_spec(chars[pos.column - 1]) == k {
            retreat_spec(ls, Position { line: pos.line, column: (pos.column - 1) as usize }, k)
        } else {
            pos
        }
    } else if pos.line == 0 {
        pos
    } else if class_spec('\n') == k {
        retreat_spec(
            ls,
            Position {
                line: (pos.line - 1) as usize,
                column: line_or_empty(ls, pos.line - 1).len() as usize,
            },
            k,
        )
    } else {
        pos
    }
}

/// The class of the character at `pos`, or `None` at or past its line's
/// end.
pub open spec fn class_at_spec(ls: Seq<Seq<char>>, pos: Position) -> Option<CharClass> {
    let chars = line_or_empty(ls, pos.line as int);
    if pos.column < chars.len() {
        Some(class_spec(chars[pos.column as int]))
    } else {
        None
    }
}

/// The class of the character just before `pos`, or `None` at column 0 or
/// past its line's end.
pub open spec fn class_before_spec(ls: Seq<Seq<char>>, pos: Position) -> Option<CharClass> {
    let chars = line_or_empty(ls, pos.line as int);
    if pos.column == 0 || pos.column - 1 >= chars.len() {
        None
    } else {
        Some(class_spec(chars[pos.column - 1]))
    }
}

/// The word boundary [`word_boundary`] finds.
pub open spec fn boundary_spec(ls: Seq<Seq<char>>, cursor: Position, direction: Direction) -> Position {
    match direction {
        Direction::Right => {
            let start = match class_at_spec(ls, cursor) {
                Some(k) => if k != CharClass::Whitespace {
                    advance_spec(ls, cursor, k)
                } else {
                    cursor
                },
                None => cursor,
            };
            advance_spec(ls, start, CharClass::Whitespace)
        },
        Direction::Left => {
            let pos = retreat_spec(ls, cursor, CharClass::Whitespace);
            match class_before_spec(ls, pos) {
                Some(k) => retreat_spec(ls, pos, k),
                None => pos,
            }
        },
    }
}

/// The characters of line `line`, or none where the buffer lacks it.
fn line_chars<S: TextStorage>(buffer: &Buffer<S>, line: usize) -> (v: Vec<char>)
    requires
        buffer.inv(),
    ensures
        v@ == line_or_empty(buffer.lines(), line as int),
{
    match buffer.line(line) {
        Some(text) => str_chars(text.as_str()),
        None => Vec::new(),
    }
}

/// The class of the character at `pos`, or `None` if `pos` is at or past
/// the end of its line.
fn class_at<S: TextStorage>(buffer: &Buffer<S>, pos: Position) -> (r: Option<CharClass>)
    requires
        buffer.inv(),
    ensures
        r == class_at_spec(buffer.lines(), pos),
{
    let chars = line_chars(buffer, pos.line);
    if pos.column < chars.len() {
        Some(char_class(chars[pos.column]))
    } else {
        None
    }
}

/// The class of the character just before `pos`, or `None` at column 0.
fn class_before<S: TextStorage>(buffer: &Buffer<S>, pos: Position) -> (r: Option<CharClass>)
    requires
        buffer.inv(),
    ensures
        r == class_before_spec(buffer.lines(), pos),
{
    if pos.column == 0 {
        return None;
    }
    let chars = line_chars(buffer, pos.line);
    if pos.column - 1 < chars.len() {
        Some(char_class(chars[pos.column - 1]))
    } else {
        None
    }
}

/// Advances `pos` one character at a time for as long as the character
/// there has class `k`, crossing into the next line where the line break
/// has class `k` (so a whitespace scan glides over line breaks while a
/// same-token scan stops at the end of the line).
fn advance_while<S: TextStorage>(buffer: &Buffer<S>, from: Position, k: CharClass) -> (p: Position)
    requires
        buffer.inv(),
        from.line < buffer.lines().len(),
    ensures
        p == advance_spec(buffer.lines(), from, k),
{
    proof {
        buffer.lemma_inv();
    }
    let ghost ls = buffer.lines();
    let newline_matches = char_class('\n') == k;
    let mut pos = from;
    let mut chars = line_chars(buffer, pos.line);
    loop
        invariant
            buffer.inv(),
            ls == buffer.lines(),
            ls.len() <= usize::MAX,
            pos.line < ls.len(),
            chars@ == line_or_empty(ls, pos.line as int),
            newline_matches == (class_spec('\n') == k),
            advance_spec(ls, pos, k) == advance_spec(ls, from, k),
        decreases ls.len() - pos.line, chars@.len() - pos.column,
    {
        if pos.column < chars.len() {
            if char_class(chars[pos.column]) == k {
                pos = Position::new(pos.line, pos.column + 1);
            } else {
                assert(advance_spec(ls, pos, k) == pos);
                return pos;
            }
        } else if newline_matches && !buffer.is_last_line(pos.line) {
            pos = Position::new(pos.line + 1, 0);
            chars = line_chars(buffer, pos.line);
        } else {
            assert(advance_spec(ls, pos, k) == pos);
                return pos;
        }
    }
}


/// Steps `pos` backward for as long as the character just behind it has
/// class `k`, crossing to the previous line's end where the line break has
/// class `k`.
fn retreat_while<S: TextStorage>(buffer: &Buffer<S>, from: Position, k: CharClass) -> (p: Position)
    requires
        buffer.inv(),
        valid_pos(buffer.lines(), from) || from.column == 0,
    ensures
        p == retreat_spec(buffer.lines(), from, k),
        valid_pos(buffer.lines(), p) || p.column == 0,
{
    proof {
        buffer.lemma_inv();
    }
    let ghost ls = buffer.lines();
    let newline_matches = char_class('\n') == k;
    let mut pos = from;
    let mut chars = line_chars(buffer, pos.line);
    loop
        invariant
            buffer.inv(),
            ls == buffer.lines(),
            valid_pos(ls, pos) || pos.column == 0,
            chars@ == line_or_empty(ls, pos.line as int),
            newline_matches == (class_spec('\n') == k),
            retreat_spec(ls, pos, k) == retreat_spec(ls, from, k),
        decreases pos.line, pos.column,
    {
        if pos.column > 0 {
            let c = chars[pos.column - 1];
            if char_class(c) == k {
                pos = Position::new(pos.line, pos.column - 1);
                continue;
            }
            assert(retreat_spec(ls, pos, k) == pos);
            return pos;
        }
        if pos.line == 0 {
            assert(retreat_spec(ls, pos, k) == pos);
            return pos;
        }
        if newline_matches {
            let previous = pos.line - 1;
            let len = len_or_zero(buffer, previous);
            pos = Position::new(previous, len);
            chars = line_chars(buffer, pos.line);
        } else {
            assert(retreat_spec(ls, pos, k) == pos);
            return pos;
        }
    }
}

/// Finds the next word boundary from `cursor` in `direction`, for
/// Ctrl+Left/Right-style motion.
///
/// `Direction::Right` skips the rest of the token the cursor is inside (if
/// any), then any whitespace and line breaks after it, landing on the
/// start of the next token, or at the end of the buffer if there's none.
/// `Direction::Left` is the mirror image: it skips backwards over
/// whitespace and line breaks first, then the token behind that, landing
/// on its start. Punctuation is its own token, so a press moves through
/// `foo, bar` stopping at `foo`, `,` and `bar` in turn.
pub fn word_boundary<S: TextStorage>(buffer: &Buffer<S>, cursor: Position, direction: Direction) -> (p:
    Position)
    requires
        buffer.inv(),
        direction == Direction::Right ==> cursor.line < buffer.lines().len(),
        direction == Direction::Left ==> valid_pos(buffer.lines(), cursor) || cursor.column == 0,
    ensures
        p == boundary_spec(buffer.lines(), cursor, direction),
{
    proof {
        buffer.lemma_inv();
        assert forall|i: int| 0 <= i < buffer.lines().len() implies #[trigger] buffer.lines()[i].len()
            <= usize::MAX by {}
    }
    match direction {
        Direction::Right => {
            let mut pos = cursor;
            match class_at(buffer, pos) {
                Some(class) => {
                    if class != CharClass::Whitespace {
                        pos = advance_while(buffer, pos, class);
                    }
                },
                None => {},
            }
            proof {
                lemma_advance_valid(buffer.lines(), cursor, class_at_spec(buffer.lines(), cursor)->0);
            }
            advance_while(buffer, pos, CharClass::Whitespace)
        },
        Direction::Left => {
            let mut pos = retreat_while(buffer, cursor, CharClass::Whitespace);
            match class_before(buffer, pos) {
                Some(class) => {
                    pos = retreat_while(buffer, pos, class);
                },
                None => {},
            }
            pos
        },
    }
}

/// Stepping forward stays on an existing line, never moves backward, and
/// keeps a valid position valid.
pub proof fn lemma_advance_valid(ls: Seq<Seq<char>>, pos: Position, k: CharClass)
    requires
        pos.line < ls.len(),
    ensures
        advance_spec(ls, pos, k).line < ls.len(),
        pos_le(pos, advance_spec(ls, pos, k)),
        valid_pos(ls, pos) ==> valid_pos(ls, advance_spec(ls, pos, k)),
    decreases ls.len() - pos.line, line_or_empty(ls, pos.line as int).len() - pos.column,
{
    let chars = line_or_empty(ls, pos.line as int);
    if pos.column < chars.len() {
        if class_spec(chars[pos.column as int]) == k && pos.column + 1 <= usize::MAX {
            lemma_advance_valid(ls, Position { line: pos.line, column: (pos.column + 1) as usize }, k);
        }
    } else if class_spec('\n') == k && pos.line + 1 < ls.len() && pos.line + 1 <= usize::MAX {
        lemma_advance_valid(ls, Position { line: (pos.line + 1) as usize, column: 0 }, k);
    }
}

/// Stepping backward never moves forward and keeps a valid position
/// valid.
pub proof fn lemma_retreat_valid(ls: Seq<Seq<char>>, pos: Position, k: CharClass)
    requires
        valid_pos(ls, pos),
        forall|i: int| 0 <= i < ls.len() ==> #[trigger] ls[i].len() <= usize::MAX,
    ensures
        valid_pos(ls, retreat_spec(ls, pos, k)),
        pos_le(retreat_spec(ls, pos, k), pos),
    decreases pos.line, pos.column,
{
    if pos.column > 0 {
        let chars = line_or_empty(ls, pos.line as int);
        if class_spec(chars[pos.column - 1]) == k {
            lemma_retreat_valid(ls, Position { line: pos.line, column: (pos.column - 1) as usize }, k);
        }
    } else if pos.line == 0 {
    } else if class_spec('\n') == k {
        assert(ls[pos.line - 1].len() <= usize::MAX);
        lemma_retreat_valid(
            ls,
            Position {
                line: (pos.line - 1) as usize,
                column: line_or_empty(ls, pos.line - 1).len() as usize,
            },
            k,
        );
    }
}

/// Law: a word motion to the right never moves the cursor backward, and a
/// word motion to the left never moves it forward; both land on a valid
/// position when they start from one.
pub proof fn lemma_word_boundary_direction(ls: Seq<Seq<char>>, cursor: Position, direction: Direction)
    requires
        valid_pos(ls, cursor),
        forall|i: int| 0 <= i < ls.len() ==> #[trigger] ls[i].len() <= usize::MAX,
    ensures
        valid_pos(ls, boundary_spec(ls, cursor, direction)),
        direction == Direction::Right ==> pos_le(cursor, boundary_spec(ls, cursor, direction)),
        direction == Direction::Left ==> pos_le(boundary_spec(ls, cursor, direction), cursor),
{
    match direction {
        Direction::Right => {
            let start = match class_at_spec(ls, cursor) {
                Some(k) => if k != CharClass::Whitespace {
                    advance_spec(ls, cursor, k)
                } else {
                    cursor
                },
                None => cursor,
            };
            if class_at_spec(ls, cursor) is Some {
                lemma_advance_valid(ls, cursor, class_at_spec(ls, cursor)->0);
            }
            lemma_advance_valid(ls, start, CharClass::Whitespace);
        },
        Direction::Left => {
            let pos = retreat_spec(ls, cursor, CharClass::Whitespace);
            lemma_retreat_valid(ls, cursor, CharClass::Whitespace);
            if class_before_spec(ls, pos) is Some {
                lemma_retreat_valid(ls, pos, class_before_spec(ls, pos)->0);
            }
        },
    }
}

// ===== Laws of the key table and of cursor motion =====

/// Law: the key table. Whatever modifiers are held, Up moves up, Down
/// moves down, Home and End go to the start and end of the line, PageUp
/// and PageDown to the start and end of the document, Tab inserts a tab,
/// Enter breaks the line, Backspace deletes backwards and F2 saves as.
/// Left, Right and Delete move or delete by one character, or, with Ctrl,
/// by a word. A character typed with no modifier or with Shift inserts
/// itself; with Ctrl, `q` quits, `s` saves, `z` undoes and `y` redoes.
pub proof fn lemma_key_table(key: KeyEvent)
    ensures
        key.code == KeyCode::Up ==> map_key_spec(key) == Action::Move(Move::Up),
        key.code == KeyCode::Down ==> map_key_spec(key) == Action::Move(Move::Down),
        key.code == KeyCode::Home ==> map_key_spec(key) == Action::Move(Move::LineStart),
        key.code == KeyCode::End ==> map_key_spec(key) == Action::Move(Move::LineEnd),
        key.code == KeyCode::PageUp ==> map_key_spec(key) == Action::Move(Move::FileStart),
        key.code == KeyCode::PageDown ==> map_key_spec(key) == Action::Move(Move::FileEnd),
        key.code == KeyCode::Tab ==> map_key_spec(key) == Action::Edit(Command::Insert('\t')),
        key.code == KeyCode::Enter ==> map_key_spec(key) == Action::Edit(Command::NewLine),
        key.code == KeyCode::Backspace ==> map_key_spec(key) == Action::Edit(Command::Backspace),
        key.code == KeyCode::F(2) ==> map_key_spec(key) == Action::SaveAs,
        key.code == KeyCode::Left ==> map_key_spec(key) == if key.modifiers.bits == 2 {
            Action::Move(Move::WordLeft)
        } else {
            Action::Move(Move::Left)
        },
        key.code == KeyCode::Right ==> map_key_spec(key) == if key.modifiers.bits == 2 {
            Action::Move(Move::WordRight)
        } else {
            Action::Move(Move::Right)
        },
        key.code == KeyCode::Delete ==> map_key_spec(key) == if key.modifiers.bits == 2 {
            Action::DeleteWord
        } else {
            Action::Edit(Command::Delete)
        },
        forall|c: char|
            key.code == KeyCode::Char(c) && (key.modifiers.bits == 0 || key.modifiers.bits == 1)
                ==> map_key_spec(key) == Action::Edit(Command::Insert(c)),
        key.modifiers.bits == 2 ==> (key.code == KeyCode::Char('q') ==> map_key_spec(key)
            == Action::Quit) && (key.code == KeyCode::Char('s') ==> map_key_spec(key)
            == Action::Save) && (key.code == KeyCode::Char('z') ==> map_key_spec(key)
            == Action::Edit(Command::Undo)) && (key.code == KeyCode::Char('y') ==> map_key_spec(
            key,
        ) == Action::Edit(Command::Redo)),
{
}

/// Law: Left and Right step one character within a line, and undo each
/// other there. From a column past the start of its line, Left lands one
/// character back on the same line, and Right from there comes back; from
/// a column before the end of its line, Right lands one character on, and
/// Left from there comes back. At the start of a line Left goes to the end
/// of the line before, and at the end of a line Right goes to the start of
/// the next.
pub proof fn lemma_left_right(ls: Seq<Seq<char>>, cursor: Position)
    requires
        valid_pos(ls, cursor),
        ls[cursor.line as int].len() <= usize::MAX,
    ensures
        cursor.column > 0 ==> motion_spec(ls, cursor, Move::Left) == (Position {
            line: cursor.line,
            column: (cursor.column - 1) as usize,
        }),
        cursor.column > 0 ==> motion_spec(ls, motion_spec(ls, cursor, Move::Left), Move::Right)
            == cursor,
        cursor.column < ls[cursor.line as int].len() ==> motion_spec(ls, cursor, Move::Right)
            == (Position { line: cursor.line, column: (cursor.column + 1) as usize }),
        cursor.column < ls[cursor.line as int].len() ==> motion_spec(
            ls,
            motion_spec(ls, cursor, Move::Right),
            Move::Left,
        ) == cursor,
        cursor.column == 0 && cursor.line > 0 ==> motion_spec(ls, cursor, Move::Left) == (Position {
            line: (cursor.line - 1) as usize,
            column: ls[cursor.line - 1].len() as usize,
        }),
        cursor.column == ls[cursor.line as int].len() && cursor.line + 1 < ls.len() ==> motion_spec(
            ls,
            cursor,
            Move::Right,
        ) == (Position { line: (cursor.line + 1) as usize, column: 0 }),
{
}

/// Law: Up and Down step one line, keeping the column where the line they
/// land on is long enough and otherwise going to its end, and stay put on
/// the first and last line; Down from where Up landed, on a line no longer
/// than the one Up landed on, comes back.
pub proof fn lemma_up_down(ls: Seq<Seq<char>>, cursor: Position)
    requires
        valid_pos(ls, cursor),
    ensures
        cursor.line > 0 ==> motion_spec(ls, cursor, Move::Up) == (Position {
            line: (cursor.line - 1) as usize,
            column: if cursor.column <= ls[cursor.line - 1].len() {
                cursor.column
            } else {
                ls[cursor.line - 1].len() as usize
            },
        }),
        cursor.line == 0 ==> motion_spec(ls, cursor, Move::Up) == cursor,
        cursor.line + 1 < ls.len() ==> motion_spec(ls, cursor, Move::Down) == (Position {
            line: (cursor.line + 1) as usize,
            column: if cursor.column <= ls[cursor.line + 1].len() {
                cursor.column
            } else {
                ls[cursor.line + 1].len() as usize
            },
        }),
        cursor.line + 1 == ls.len() ==> motion_spec(ls, cursor, Move::Down) == cursor,
        cursor.line > 0 && cursor.column <= ls[cursor.line - 1].len() ==> motion_spec(
            ls,
            motion_spec(ls, cursor, Move::Up),
            Move::Down,
        ) == cursor,
{
}

/// Law: `'_'` is a word character, as every alphanumeric character is:
/// it joins the letters and digits around it into one word, and is neither
/// whitespace nor punctuation.
pub proof fn lemma_underscore_is_word(c: char)
    ensures
        class_spec('_') == CharClass::Word,
        is_alphanumeric_spec(c) && !is_whitespace_spec(c) ==> class_spec(c) == class_spec('_'),
        class_spec(c) == CharClass::Word <==> (is_alphanumeric_spec(c) || c == '_') && !is_whitespace_spec(c),
        class_spec(c) == CharClass::Whitespace <==> is_whitespace_spec(c),
        class_spec(' ') == CharClass::Whitespace && class_spec('\t') == CharClass::Whitespace,
{
}

/// Law: Home and End go to the start and end of the cursor's line, and
/// PageUp and PageDown to the start and end of the document.
pub proof fn lemma_line_and_file_ends(ls: Seq<Seq<char>>, cursor: Position)
    requires
        valid_pos(ls, cursor),
        forall|i: int| 0 <= i < ls.len() ==> #[trigger] ls[i].len() <= usize::MAX,
        ls.len() <= usize::MAX,
    ensures
        motion_spec(ls, cursor, Move::LineStart) == (Position { line: cursor.line, column: 0 }),
        motion_spec(ls, cursor, Move::LineEnd) == (Position {
            line: cursor.line,
            column: ls[cursor.line as int].len() as usize,
        }),
        motion_spec(ls, cursor, Move::FileStart) == (Position { line: 0, column: 0 }),
        motion_spec(ls, cursor, Move::FileEnd) == (Position {
            line: (ls.len() - 1) as usize,
            column: ls[ls.len() - 1].len() as usize,
        }),
        valid_pos(ls, motion_spec(ls, cursor, Move::LineEnd)),
        valid_pos(ls, motion_spec(ls, cursor, Move::FileEnd)),
{
}

} // verus!
