//! [`Buffer`]: a thin, storage-agnostic wrapper that adds a handful of
//! query helpers (line length, "is this the last line/column", position
//! validity, the text of a range) on top of a raw [`TextStorage`].

use vstd::prelude::*;

use crate::error::BufferError;
use crate::position::{normalize, Position, Range};
use crate::storage::{call_outcome, StorageCall, TextStorage};
use crate::text::{
    char_count, char_offset, chars_to_string, copy_range, delete_lines, insert_lines, join_lines, line_or_empty,
    middle_lines, range_text, skip_sat, str_chars, take_sat, valid_pos, wf_lines,
};

verus! {

/// A document's text, generic over its storage backend `S`.
///
/// `Buffer` holds no editing state beyond the text (no cursor, no undo
/// history, no file path). It pairs a [`TextStorage`] with queries that
/// callers navigating the text need.
pub struct Buffer<S: TextStorage> {
    storage: S,
}

impl<S: TextStorage> Buffer<S> {
    /// The buffer's lines.
    pub closed spec fn lines(&self) -> Seq<Seq<char>> {
        self.storage.lines()
    }

    /// The buffer's whole text.
    pub closed spec fn text(&self) -> Seq<char> {
        self.storage.text()
    }

    /// The character offset, in the text, of `pos`.
    pub closed spec fn offset_of(&self, pos: Position) -> int {
        self.storage.offset_of(pos)
    }

    /// The storage the buffer wraps.
    pub closed spec fn storage(&self) -> S {
        self.storage
    }

    /// The buffer's internal consistency.
    pub closed spec fn inv(&self) -> bool {
        self.storage.inv()
    }

    /// What holds of every consistent buffer.
    pub proof fn lemma_inv(&self)
        requires
            self.inv(),
        ensures
            self.lines().len() >= 1,
            wf_lines(self.lines()),
            self.text().len() <= usize::MAX,
            self.lines() == S::text_lines(self.text()),
            forall|p: Position| #[trigger] self.offset_of(p) == S::text_offset(self.text(), p),
            S::splits_on_lf() ==> wf_lines(self.lines()) && self.text() == join_lines(
                self.lines(),
            ),
            self.offset_of(Position { line: 0, column: 0 }) == 0,
            S::splits_on_lf() ==> forall|p: Position| #[trigger]
                self.offset_of(p) == char_offset(self.lines(), p),
            forall|p: Position|
                valid_pos(self.lines(), p) ==> 0 <= #[trigger] self.offset_of(p) <= self.text().len(),
            self.lines().len() <= self.text().len() + 1,
            self.lines().len() <= usize::MAX,
            forall|i: int|
                0 <= i < self.lines().len() ==> #[trigger] self.lines()[i].len() <= self.text().len(),
    {
        self.storage.lemma_inv();
    }

    /// Wraps an existing storage backend in a `Buffer`.
    pub fn new(storage: S) -> (b: Self)
        ensures
            b.lines() == storage.lines(),
            b.text() == storage.text(),
            b.inv() == storage.inv(),
            forall|p: Position| #[trigger] b.offset_of(p) == storage.offset_of(p),
            b.storage() == storage,
    {
        Self { storage }
    }

    /// The text of the line at `index`, or `None` if out of range.
    pub fn line(&self, index: usize) -> (r: Option<String>)
        requires
            self.inv(),
        ensures
            index < self.lines().len() ==> (r matches Some(s) && s@ == self.lines()[index as int]),
            index >= self.lines().len() ==> r is None,
    {
        self.storage.line(index)
    }

    /// Number of lines currently in the buffer (always at least 1).
    pub fn line_count(&self) -> (n: usize)
        requires
            self.inv(),
        ensures
            n == self.lines().len(),
            n >= 1,
    {
        proof {
            self.storage.lemma_inv();
        }
        self.storage.line_count()
    }

    /// Total character count across the whole buffer, including the line
    /// breaks between lines.
    pub fn len_chars(&self) -> (n: usize)
        requires
            self.inv(),
        ensures
            n == self.text().len(),
    {
        self.storage.len_chars()
    }

    /// Inserts `text` at `pos`. See [`TextStorage::insert`].
    pub fn insert(&mut self, pos: Position, text: &str) -> (r: Result<(), BufferError>)
        requires
            old(self).inv(),
            old(self).text().len() + text@.len() < usize::MAX,
        ensures
            final(self).inv(),
            r is Ok <==> valid_pos(old(self).lines(), pos),
            r is Err ==> r == Err::<(), BufferError>(BufferError::InvalidPosition),
            r is Err ==> final(self).lines() == old(self).lines() && final(self).text() == old(self).text(),
            r is Ok && S::splits_on_lf() ==> final(self).lines() == insert_lines(
                old(self).lines(),
                pos,
                text@,
            ),
            r is Ok ==> final(self).text() == old(self).text().take(old(self).offset_of(pos))
                + text@ + old(self).text().skip(old(self).offset_of(pos)),
            call_outcome(
                old(self).storage(),
                final(self).storage(),
                StorageCall::Insert { pos, text: text@ },
                r is Ok,
            ),
    {
        self.storage.insert(pos, text)
    }

    /// Deletes the text spanned by `range`. See [`TextStorage::delete`].
    pub fn delete(&mut self, range: Range) -> (r: Result<(), BufferError>)
        requires
            old(self).inv(),
        ensures
            final(self).inv(),
            r is Ok <==> valid_pos(old(self).lines(), range.start) && valid_pos(
                old(self).lines(),
                range.end,
            ),
            r is Err ==> r == Err::<(), BufferError>(BufferError::InvalidPosition),
            r is Err ==> final(self).lines() == old(self).lines() && final(self).text() == old(self).text(),
            r is Ok && S::splits_on_lf() ==> final(self).lines() == delete_lines(
                old(self).lines(),
                normalize(range).start,
                normalize(range).end,
            ),
            r is Ok ==> final(self).text() == old(self).text().take(
                old(self).offset_of(normalize(range).start),
            ) + old(self).text().skip(old(self).offset_of(normalize(range).end)),
            r is Ok ==> old(self).offset_of(normalize(range).start) <= old(self).offset_of(
                normalize(range).end,
            ),
            call_outcome(
                old(self).storage(),
                final(self).storage(),
                StorageCall::Delete { range },
                r is Ok,
            ),
    {
        self.storage.delete(range)
    }

    /// Character length of the given line, or `None` if the line doesn't
    /// exist.
    pub fn line_len(&self, line: usize) -> (r: Option<usize>)
        requires
            self.inv(),
        ensures
            line < self.lines().len() ==> (r matches Some(n) && n == self.lines()[line as int].len()),
            line >= self.lines().len() ==> r is None,
    {
        match self.line(line) {
            Some(text) => Some(char_count(text.as_str())),
            None => None,
        }
    }

    /// Whether `line` is the last line in the buffer.
    pub fn is_last_line(&self, line: usize) -> (b: bool)
        requires
            self.inv(),
        ensures
            b == (line + 1 == self.lines().len()),
    {
        let n = self.line_count();
        line == n - 1
    }

    /// Whether `pos` sits exactly at the end of its line (one past the last
    /// character). Used to detect "end of line" for cursor motion and
    /// deletion, where crossing this boundary means joining with the next
    /// line rather than deleting within the current one.
    pub fn is_last_column(&self, pos: Position) -> (b: bool)
        requires
            self.inv(),
        ensures
            b == (pos.line < self.lines().len() && pos.column == self.lines()[pos.line as int].len()),
    {
        match self.line_len(pos.line) {
            Some(len) => pos.column == len,
            None => false,
        }
    }

    /// Whether `pos` refers to an existing line and a column within (or at
    /// the end of) that line, i.e. whether [`Self::insert`] and
    /// [`Self::delete`] accept it.
    pub fn is_valid_position(&self, pos: Position) -> (b: bool)
        requires
            self.inv(),
        ensures
            b == valid_pos(self.lines(), pos),
    {
        match self.line_len(pos.line) {
            Some(len) => pos.column <= len,
            None => false,
        }
    }

    /// Law: a position is valid exactly where it names an existing line
    /// and a column no further than that line's end. [`Self::is_valid_position`]
    /// answers this test, and [`Self::insert`] and [`Self::delete`] succeed
    /// exactly on positions that pass it.
    pub proof fn lemma_valid_position(&self, pos: Position)
        requires
            self.inv(),
        ensures
            valid_pos(self.lines(), pos) <==> (pos.line < self.lines().len() && pos.column
                <= self.lines()[pos.line as int].len()),
    {
    }

    /// Renders the entire buffer as a single `String` (no trailing line
    /// break).
    pub fn to_text(&self) -> (s: String)
        requires
            self.inv(),
        ensures
            s@ == self.text(),
    {
        self.storage.to_text()
    }

    /// The characters of line `index`, or none where it doesn't exist.
    fn line_chars(&self, index: usize) -> (v: Vec<char>)
        requires
            self.inv(),
        ensures
            v@ == line_or_empty(self.lines(), index as int),
    {
        match self.line(index) {
            Some(text) => str_chars(text.as_str()),
            None => Vec::new(),
        }
    }

    /// Returns the text spanned by `range`, which is taken as already
    /// normalized (`range.start` not after `range.end`), read line by line:
    /// a missing line reads as empty.
    ///
    /// Used by undo/redo to capture what a deletion is about to remove,
    /// before it's gone.
    pub fn text_in_range(&self, range: Range) -> (s: String)
        requires
            self.inv(),
            range.start.line == range.end.line ==> range.start.column <= range.end.column,
            range.start.line != range.end.line ==> range.start.line < usize::MAX,
        ensures
            s@ == range_text(self.lines(), range.start, range.end),
    {
        let a = range.start;
        let b = range.end;
        if a.line == b.line {
            let line = self.line_chars(a.line);
            if a.column > line.len() {
                return chars_to_string(Vec::<char>::new().as_slice());
            }
            let hi = if b.column <= line.len() {
                b.column
            } else {
                line.len()
            };
            let out = copy_range(&line, a.column, hi);
            assert(out@ =~= take_sat(skip_sat(line@, a.column as int), b.column - a.column));
            return chars_to_string(out.as_slice());
        }
        let first = self.line_chars(a.line);
        let mut out = if a.column <= first.len() {
            copy_range(&first, a.column, first.len())
        } else {
            Vec::new()
        };
        assert(out@ =~= skip_sat(first@, a.column as int));
        let ghost head = out@;
        let mut l: usize = a.line + 1;
        while l < b.line
            invariant
                a.line + 1 <= l,
                l <= b.line || l == a.line + 1,
                self.inv(),
                l <= b.line ==> out@ == head + middle_lines(self.lines(), a.line + 1, l as int),
                l > b.line ==> out@ == head,
            decreases b.line - l,
        {
            let ghost before = out@;
            out.push('\n');
            let line = self.line_chars(l);
            let mut k: usize = 0;
            while k < line.len()
                invariant
                    k <= line@.len(),
                    out@ == before + seq!['\n'] + line@.take(k as int),
                decreases line@.len() - k,
            {
                out.push(line[k]);
                proof {
                    assert(line@.take(k + 1) == line@.take(k as int).push(line@[k as int]));
                }
                k = k + 1;
            }
            proof {
                assert(line@.take(line@.len() as int) == line@);
                assert(out@ =~= head + middle_lines(self.lines(), a.line + 1, l + 1));
            }
            l = l + 1;
        }
        proof {
            if l > b.line {
                assert(middle_lines(self.lines(), a.line + 1, b.line as int) == Seq::<char>::empty());
                assert(out@ =~= head + middle_lines(self.lines(), a.line + 1, b.line as int));
            }
        }
        let ghost mid = out@;
        out.push('\n');
        let last = self.line_chars(b.line);
        let hi = if b.column <= last.len() {
            b.column
        } else {
            last.len()
        };
        let mut k: usize = 0;
        while k < hi
            invariant
                hi <= last@.len(),
                k <= hi,
                out@ == mid + seq!['\n'] + last@.take(k as int),
            decreases hi - k,
        {
            out.push(last[k]);
            proof {
                assert(last@.take(k + 1) == last@.take(k as int).push(last@[k as int]));
            }
            k = k + 1;
        }
        proof {
            assert(last@.take(k as int) =~= take_sat(last@, b.column as int));
            assert(out@ =~= range_text(self.lines(), a, b));
        }
        chars_to_string(out.as_slice())
    }
}

} // verus!
