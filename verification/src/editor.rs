//! [`Editor`]: applies [`Command`]s to a [`Document`] while keeping the
//! [`Cursor`] consistent with the result of each edit.

use vstd::prelude::*;

use crate::command::{added_chars, Command};
use crate::cursor::Cursor;
use crate::document::{
    delete_outcome, insert_end, insert_outcome, redo_cursor, redo_outcome, undo_cursor,
    undo_outcome, Document,
};
use crate::error::BufferError;
use crate::history::{group_view, lemma_replay_end_valid, lemma_revert_end_valid, EditView};
use crate::position::{normalize, Position, Range};
use crate::storage::TextStorage;
use crate::text::{
    chars_to_string, delete_lines, end_of_insert, lemma_end_of_insert_value,
    lemma_insert_then_delete, lemma_join_split, lemma_join_len_push, lemma_line_count_bound,
    lemma_split_wf, pos_le, split_lines, valid_pos,
};

verus! {

/// The smaller of `a` and `b`.
pub open spec fn min_spec(a: int, b: int) -> int {
    if a <= b {
        a
    } else {
        b
    }
}

/// Where a `MoveTo` to `position` lands in the lines `ls`: the line
/// clamped to the last line, and the column (the preferred column `pref`
/// for a vertical move) clamped to that line's length.
pub open spec fn clamp_target(
    ls: Seq<Seq<char>>,
    pref: usize,
    position: Position,
    vertical: bool,
) -> Position {
    let line = min_spec(position.line as int, ls.len() - 1);
    let len = ls[line].len() as int;
    let column = if vertical {
        min_spec(pref as int, len)
    } else {
        min_spec(position.column as int, len)
    };
    Position { line: line as usize, column: column as usize }
}

/// The span Backspace removes at `pos`: nothing at the very start of the
/// document, the character before `pos` within a line, and at column 0 the
/// line break joining `pos`'s line to the previous one.
pub open spec fn backspace_span(ls: Seq<Seq<char>>, pos: Position) -> Option<Range> {
    if pos.line == 0 && pos.column == 0 {
        None
    } else if pos.column > 0 {
        Some(Range { start: Position { line: pos.line, column: (pos.column - 1) as usize }, end: pos })
    } else {
        Some(
            Range {
                start: Position {
                    line: (pos.line - 1) as usize,
                    column: ls[pos.line - 1].len() as usize,
                },
                end: pos,
            },
        )
    }
}

/// Whether `pos` sits exactly at the end of its (existing) line.
pub open spec fn at_line_end(ls: Seq<Seq<char>>, pos: Position) -> bool {
    pos.line < ls.len() && pos.column == ls[pos.line as int].len()
}

/// The span Delete removes at `pos`: nothing at the very end of the
/// document, the line break after `pos` at the end of a line, and the
/// character at `pos` otherwise.
pub open spec fn delete_span(ls: Seq<Seq<char>>, pos: Position) -> Option<Range> {
    if pos.line + 1 == ls.len() && at_line_end(ls, pos) {
        None
    } else if at_line_end(ls, pos) {
        Some(Range { start: pos, end: Position { line: (pos.line + 1) as usize, column: 0 } })
    } else {
        Some(Range { start: pos, end: Position { line: pos.line, column: (pos.column + 1) as usize } })
    }
}

/// Whether the cursor went from `c0` to `c1` as an edit with result `r`
/// that leaves it at `p` says: moved to `p` (and `p`'s column preferred) on
/// success, unchanged on failure.
pub open spec fn cursor_after(
    r: Result<(), BufferError>,
    c0: Cursor,
    c1: Cursor,
    p: Position,
) -> bool {
    &&& r is Ok ==> c1.pos() == p && c1.preferred() == p.column
    &&& r is Err ==> c1 == c0
}

/// The result of an undo or redo as the editor reports it.
pub open spec fn unit_result(r: Result<Option<Position>, BufferError>) -> Result<(), BufferError> {
    match r {
        Ok(_) => Ok(()),
        Err(e) => Err(e),
    }
}

/// Combines a [`Document`] and a [`Cursor`], and is the single place that
/// knows how each [`Command`] affects both.
pub struct Editor<S: TextStorage> {
    document: Document<S>,
    cursor: Cursor,
}

/// A text's end fits in a `usize` when inserted at a position no further
/// in than a document of `d` characters allows, with the text and the
/// document together fitting in a `usize` count.
proof fn lemma_end_fits_small(pos: Position, t: Seq<char>, d: int)
    requires
        pos.line <= d,
        pos.column <= d,
        d + t.len() <= usize::MAX,
    ensures
        crate::history::end_fits(pos, t),
{
    let parts = split_lines(t);
    lemma_split_wf(t);
    lemma_join_split(t);
    lemma_line_count_bound(parts);
    if parts.len() > 1 {
        assert(parts.drop_last().push(parts.last()) == parts);
        lemma_join_len_push(parts.drop_last(), parts.last());
    }
}

/// Whether the editor went from `e0` to `e1`, with result `r`, as
/// [`Editor::execute`] of `command` does.
pub open spec fn execute_outcome<S: TextStorage>(
    e0: Editor<S>,
    e1: Editor<S>,
    command: Command,
    r: Result<(), BufferError>,
) -> bool {
    let d0 = e0.doc();
    let d1 = e1.doc();
    let c0 = e0.cur();
    let c1 = e1.cur();
    let ls = d0.buf().lines();
    let pos = c0.pos();
    match command {
        Command::MoveTo { position, vertical } => {
            let target = clamp_target(ls, c0.preferred(), position, vertical);
            &&& r is Ok
            &&& d1.buf() == d0.buf()
            &&& d1.history_view().undo_groups()
                == d0.history_view().committed_groups()
            &&& d1.history_view().current_group().len() == 0
            &&& d1.dirty_view() == d0.dirty_view()
            &&& c1.pos() == target
            &&& c1.preferred() == if vertical {
                c0.preferred()
            } else {
                target.column
            }
        },
        Command::Insert(ch) => {
            &&& insert_outcome(d0, d1, pos, seq![ch], r)
            &&& cursor_after(
                r,
                c0,
                c1,
                Position { line: pos.line, column: (pos.column + 1) as usize },
            )
        },
        Command::InsertText(t) => {
            &&& insert_outcome(d0, d1, pos, t@, r)
            &&& cursor_after(r, c0, c1, end_of_insert(pos, t@))
        },
        Command::NewLine => {
            &&& insert_outcome(d0, d1, pos, seq!['\n'], r)
            &&& cursor_after(
                r,
                c0,
                c1,
                Position { line: (pos.line + 1) as usize, column: 0 },
            )
        },
        Command::Backspace => match backspace_span(ls, pos) {
            None => r is Ok && d1 == d0 && c1 == c0,
            Some(span) => delete_outcome(d0, d1, span, r) && cursor_after(
                r,
                c0,
                c1,
                span.start,
            ),
        },
        Command::Delete => match delete_span(ls, pos) {
            None => r is Ok && d1 == d0 && c1 == c0,
            Some(span) => delete_outcome(d0, d1, span, r) && c1 == c0,
        },
        Command::DeleteRange(range) => {
            &&& delete_outcome(d0, d1, range, r)
            &&& cursor_after(r, c0, c1, normalize(range).start)
        },
        Command::Undo => {
            &&& exists|u: Result<Option<Position>, BufferError>|
                #![trigger unit_result(u)]
                undo_outcome(d0, d1, u) && r == unit_result(u)
            &&& r is Ok && undo_cursor(d0) is Some ==> c1.pos() == undo_cursor(
                d0,
            )->0 && c1.preferred() == undo_cursor(d0)->0.column
            &&& !(r is Ok && undo_cursor(d0) is Some) ==> c1 == c0
        },
        Command::Redo => {
            &&& exists|u: Result<Option<Position>, BufferError>|
                #![trigger unit_result(u)]
                redo_outcome(d0, d1, u) && r == unit_result(u)
            &&& r is Ok && redo_cursor(d0) is Some ==> c1.pos() == redo_cursor(
                d0,
            )->0 && c1.preferred() == redo_cursor(d0)->0.column
            &&& !(r is Ok && redo_cursor(d0) is Some) ==> c1 == c0
        },
    }
}

/// Whether `command` can be executed on `e` without a line count, column
/// or character count leaving `usize` and without Backspace reaching for a
/// line that isn't there.
pub open spec fn execute_fits<S: TextStorage>(e: Editor<S>, command: Command) -> bool {
    &&& e.doc().buf().text().len() + added_chars(command) < usize::MAX
    &&& command == Command::Backspace && e.cur().pos().column == 0 && e.cur().pos().line > 0
        ==> e.cur().pos().line - 1 < e.doc().buf().lines().len()
    &&& command == Command::Delete && !at_line_end(e.doc().buf().lines(), e.cur().pos())
        ==> e.cur().pos().column < usize::MAX
}

/// Deleting between two valid ordered positions leaves the first of them
/// valid.
proof fn lemma_delete_keeps_start(ls: Seq<Seq<char>>, a: Position, b: Position)
    requires
        valid_pos(ls, a),
        valid_pos(ls, b),
        pos_le(a, b),
    ensures
        valid_pos(delete_lines(ls, a, b), a),
{
    let d = delete_lines(ls, a, b);
    assert(d[a.line as int] == ls[a.line as int].take(a.column as int) + ls[b.line as int].skip(
        b.column as int,
    ));
}

/// Law: from a cursor within the document, every command leaves the
/// cursor within the document, for storages that split lines on `'\n'`.
/// Left out: a `'\n'` inserted as a single character (the cursor then
/// steps one column to the right on the old line, past its new end; line
/// breaks are `NewLine`'s job), and an undo or redo that fails partway
/// (it can only fail where the buffer was changed behind the history's
/// back).
pub proof fn lemma_execute_keeps_cursor_valid<S: TextStorage>(
    e0: Editor<S>,
    e1: Editor<S>,
    command: Command,
    r: Result<(), BufferError>,
)
    requires
        S::splits_on_lf(),
        e0.doc().buf().inv(),
        execute_fits(e0, command),
        valid_pos(e0.doc().buf().lines(), e0.cur().pos()),
        execute_outcome(e0, e1, command, r),
        command matches Command::Insert(c) ==> c != '\n',
        command == Command::Undo || command == Command::Redo ==> r is Ok,
    ensures
        valid_pos(e1.doc().buf().lines(), e1.cur().pos()),
{
    let b0 = e0.doc().buf();
    b0.lemma_inv();
    let ls = b0.lines();
    let pos = e0.cur().pos();
    match command {
        Command::MoveTo { position, vertical } => {},
        Command::Insert(ch) => {
            if r is Ok {
                lemma_insert_then_delete(ls, pos, seq![ch]);
                lemma_end_of_insert_value(ls, pos, seq![ch]);
                assert(split_lines(seq![ch]).len() == 1) by {
                    assert(seq![ch].drop_last() == Seq::<char>::empty());
                }
            }
        },
        Command::InsertText(t) => {
            if r is Ok {
                lemma_insert_then_delete(ls, pos, t@);
            }
        },
        Command::NewLine => {
            if r is Ok {
                lemma_insert_then_delete(ls, pos, seq!['\n']);
                lemma_end_of_insert_value(ls, pos, seq!['\n']);
                assert(seq!['\n'].drop_last() == Seq::<char>::empty());
            }
        },
        Command::Backspace => {
            match backspace_span(ls, pos) {
                None => {},
                Some(span) => {
                    if r is Ok {
                        lemma_delete_keeps_start(ls, span.start, span.end);
                    }
                },
            }
        },
        Command::Delete => {
            match delete_span(ls, pos) {
                None => {},
                Some(span) => {
                    if r is Ok {
                        lemma_delete_keeps_start(ls, span.start, span.end);
                    }
                },
            }
        },
        Command::DeleteRange(range) => {
            if r is Ok {
                let n = crate::position::normalize(range);
                lemma_delete_keeps_start(ls, n.start, n.end);
            }
        },
        Command::Undo => {
            let d0 = e0.doc();
            let u = choose|u: Result<Option<Position>, BufferError>|
                undo_outcome(d0, e1.doc(), u) && r == unit_result(u);
            let groups = d0.history_view().committed_groups();
            if groups.len() > 0 && groups.last().len() > 0 {
                let g = group_view(groups.last());
                assert(g[0] == groups.last()[0]@);
                lemma_revert_end_valid(ls, g);
            } else if groups.len() > 0 {
                assert(group_view(groups.last()) =~= Seq::<EditView>::empty());
            }
        },
        Command::Redo => {
            let d0 = e0.doc();
            let u = choose|u: Result<Option<Position>, BufferError>|
                redo_outcome(d0, e1.doc(), u) && r == unit_result(u);
            let groups = d0.history_view().redo_groups();
            if groups.len() > 0 && groups.last().len() > 0 {
                let g = group_view(groups.last());
                assert(g.last() == groups.last().last()@);
                lemma_replay_end_valid(ls, g);
            } else if groups.len() > 0 {
                assert(group_view(groups.last()) =~= Seq::<EditView>::empty());
            }
        },
    }
}

impl<S: TextStorage> Editor<S> {
    /// The document being edited.
    pub closed spec fn doc(&self) -> Document<S> {
        self.document
    }

    /// The cursor.
    pub closed spec fn cur(&self) -> Cursor {
        self.cursor
    }

    /// Wraps `document` with a cursor at the origin (0, 0).
    pub fn new(document: Document<S>) -> (e: Self)
        ensures
            e.doc() == document,
            e.cur().pos() == (Position { line: 0, column: 0 }),
            e.cur().preferred() == 0,
    {
        Self { document, cursor: Cursor::new() }
    }

    /// The cursor's current state.
    pub fn cursor(&self) -> (c: Cursor)
        ensures
            c == self.cur(),
    {
        self.cursor
    }

    /// Read-only access to the document being edited.
    pub fn document(&self) -> (d: &Document<S>)
        ensures
            *d == self.doc(),
    {
        &self.document
    }

    /// Mutable access to the document, for operations outside the
    /// `Command` set (e.g. marking it saved).
    pub fn document_mut(&mut self) -> (d: &mut Document<S>)
        ensures
            *d == old(self).doc(),
            final(self).doc() == *final(d),
            final(self).cur() == old(self).cur(),
    {
        &mut self.document
    }

    /// Applies `command` to the document and updates the cursor to match.
    ///
    /// On a buffer error (e.g. a `DeleteRange` with an out-of-bounds
    /// position) the document is left unchanged and the cursor is not
    /// moved.
    pub fn execute(&mut self, command: Command) -> (r: Result<(), BufferError>)
        requires
            old(self).doc().buf().inv(),
            execute_fits(*old(self), command),
        ensures
            final(self).doc().buf().inv(),
            execute_outcome(*old(self), *final(self), command, r),
    {
        proof {
            self.document.buf().lemma_inv();
        }
        match command {
            Command::MoveTo { position, vertical } => {
                // A cursor move with no edit means whatever comes next
                // shouldn't merge into the previous undo group.
                self.document.break_undo_group();
                let buffer = self.document.buffer();
                let last = buffer.line_count() - 1;
                let line = if position.line <= last {
                    position.line
                } else {
                    last
                };
                let len = match buffer.line_len(line) {
                    Some(len) => len,
                    None => 0,
                };
                let wanted = if vertical {
                    self.cursor.preferred_column()
                } else {
                    position.column
                };
                let column = if wanted <= len {
                    wanted
                } else {
                    len
                };
                if vertical {
                    self.cursor.move_vertical_to(Position::new(line, column));
                } else {
                    self.cursor.move_to(Position::new(line, column));
                }
                Ok(())
            },
            Command::Insert(ch) => {
                let pos = self.cursor.position();
                let one = vec![ch];
                let text = chars_to_string(one.as_slice());
                assert(one@ == seq![ch]);
                let ghost ls = self.document.buf().lines();
                self.document.insert(pos, text.as_str())?;
                proof {
                    assert(ls[pos.line as int].len() <= old(self).doc().buf().text().len());
                }
                self.cursor.move_to(Position::new(pos.line, pos.column + 1));
                Ok(())
            },
            Command::InsertText(text) => {
                let pos = self.cursor.position();
                let ghost d = self.document.buf().text().len() as int;
                self.document.insert(pos, text.as_str())?;
                proof {
                    lemma_end_fits_small(pos, text@, d);
                }
                match insert_end(pos, text.as_str()) {
                    Some(end) => self.cursor.move_to(end),
                    None => {},
                }
                Ok(())
            },
            Command::Backspace => self.backspace(),
            Command::Delete => self.delete(),
            Command::DeleteRange(range) => {
                // Normalize direction so the cursor consistently ends up
                // at the earlier endpoint, however the range was built.
                let span = range.normalized();
                self.document.delete(range)?;
                self.cursor.move_to(span.start);
                Ok(())
            },
            Command::NewLine => {
                let pos = self.cursor.position();
                let newline = "\n";
                proof {
                    reveal_strlit("\n");
                }
                assert(newline@ =~= seq!['\n']);
                self.document.insert(pos, newline)?;
                self.cursor.move_to(Position::new(pos.line + 1, 0));
                Ok(())
            },
            Command::Undo => {
                let u = self.document.undo();
                let r = match u {
                    Ok(Some(pos)) => {
                        self.cursor.move_to(pos);
                        Ok(())
                    },
                    Ok(None) => Ok(()),
                    Err(e) => Err(e),
                };
                assert(r == unit_result(u));
                r
            },
            Command::Redo => {
                let u = self.document.redo();
                let r = match u {
                    Ok(Some(pos)) => {
                        self.cursor.move_to(pos);
                        Ok(())
                    },
                    Ok(None) => Ok(()),
                    Err(e) => Err(e),
                };
                assert(r == unit_result(u));
                r
            },
        }
    }

    /// Deletes the character before the cursor.
    ///
    /// At the very start of the document this is a no-op. At the start of
    /// any other line, it removes the line break and joins with the
    /// previous line, placing the cursor at the previous line's original
    /// end. Otherwise it removes the preceding character on the same line.
    fn backspace(&mut self) -> (r: Result<(), BufferError>)
        requires
            old(self).doc().buf().inv(),
            old(self).cur().pos().column == 0 && old(self).cur().pos().line > 0 ==> old(self).cur().pos().line - 1 < old(self).doc().buf().lines().len(),
        ensures
            final(self).doc().buf().inv(),
            match backspace_span(old(self).doc().buf().lines(), old(self).cur().pos()) {
                None => r is Ok && final(self).doc() == old(self).doc() && final(self).cur() == old(self).cur(),
                Some(span) => delete_outcome(old(self).doc(), final(self).doc(), span, r)
                    && cursor_after(r, old(self).cur(), final(self).cur(), span.start),
            },
    {
        let pos = self.cursor.position();
        if pos.line == 0 && pos.column == 0 {
            return Ok(());
        }
        if pos.column > 0 {
            let start = Position::new(pos.line, pos.column - 1);
            self.document.delete(Range::new(start, pos))?;
            self.cursor.move_to(start);
            return Ok(());
        }
        // At column 0 of a non-first line: join with the previous line by
        // deleting the line break between them.
        let previous_line = pos.line - 1;
        let previous_len = match self.document.buffer().line_len(previous_line) {
            Some(len) => len,
            None => 0,
        };
        let start = Position::new(previous_line, previous_len);
        self.document.delete(Range::new(start, pos))?;
        self.cursor.move_to(start);
        Ok(())
    }

    /// Deletes the character at the cursor, without moving the cursor.
    ///
    /// At the very end of the document this is a no-op. At the end of any
    /// other line, it removes the line break and joins with the next line.
    /// Otherwise it removes the following character on the same line.
    fn delete(&mut self) -> (r: Result<(), BufferError>)
        requires
            old(self).doc().buf().inv(),
            !at_line_end(old(self).doc().buf().lines(), old(self).cur().pos()) ==> old(self).cur().pos().column < usize::MAX,
        ensures
            final(self).doc().buf().inv(),
            match delete_span(old(self).doc().buf().lines(), old(self).cur().pos()) {
                None => r is Ok && final(self).doc() == old(self).doc() && final(self).cur() == old(self).cur(),
                Some(span) => delete_outcome(old(self).doc(), final(self).doc(), span, r)
                    && final(self).cur() == old(self).cur(),
            },
    {
        let pos = self.cursor.position();
        let buffer = self.document.buffer();
        proof {
            buffer.lemma_inv();
        }
        let last_column = buffer.is_last_column(pos);
        if buffer.is_last_line(pos.line) && last_column {
            return Ok(());
        }
        let end = if last_column {
            Position::new(pos.line + 1, 0)
        } else {
            Position::new(pos.line, pos.column + 1)
        };
        self.document.delete(Range::new(pos, end))
    }
}

} // verus!
