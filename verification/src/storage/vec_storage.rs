//! A simple [`TextStorage`] backend that keeps each line as a separate
//! sequence of characters inside a `Vec`.
//!
//! This is the "obvious" representation: easy to reason about and fast
//! enough for everyday editing, at the cost of O(line length) inserts near
//! the start of a long line and O(line count) for operations that shift
//! many lines.

use vstd::prelude::*;

use crate::error::BufferError;
use crate::position::{Position, Range};
use crate::storage::TextStorage;
use crate::text::{
    lemma_split_join,    lemma_join_len_mono, lemma_join_len_prefix, char_offset, chars_to_string, delete_lines, lemma_join_around, lemma_line_count_bound,
    lemma_offset_bound, insert_lines, join_lines, lemma_delete_text, lemma_delete_wf,
    lemma_insert_text, lemma_insert_wf, lemma_split_wf, lines_view, pos_le, splice_parts, split_chars, split_lines, str_chars, valid_pos,
    wf_lines,
};

verus! {

/// [`TextStorage`] implementation backed by a `Vec` holding one entry per
/// line.
///
/// Invariant: there is always at least one line, no line holds a `'\n'`,
/// and the whole text fits in a `usize` count.
pub struct VecStorage {
    lines: Vec<Vec<char>>,
}

impl VecStorage {
    /// The stored lines.
    pub closed spec fn view_lines(&self) -> Seq<Seq<char>> {
        lines_view(self.lines@)
    }

    /// The storage's invariant.
    pub closed spec fn well_formed(&self) -> bool {
        &&& wf_lines(self.view_lines())
        &&& join_lines(self.view_lines()).len() <= usize::MAX
    }

    /// Creates an empty document: one line containing no text.
    pub fn new() -> (s: Self)
        ensures
            s.well_formed(),
            s.view_lines() == seq![Seq::<char>::empty()],
    {
        let mut lines: Vec<Vec<char>> = Vec::new();
        lines.push(Vec::new());
        let s = Self { lines };
        assert(s.view_lines() =~= seq![Seq::<char>::empty()]);
        s
    }

    /// Checks that `pos` refers to an existing line and a column that is
    /// within (or exactly at the end of) that line's character count.
    fn validate_position(&self, pos: Position) -> (r: Result<(), BufferError>)
        ensures
            r is Ok <==> valid_pos(self.view_lines(), pos),
            r is Err ==> r == Err::<(), BufferError>(BufferError::InvalidPosition),
    {
        if pos.line >= self.lines.len() {
            return Err(BufferError::InvalidPosition);
        }
        if pos.column > self.lines[pos.line].len() {
            return Err(BufferError::InvalidPosition);
        }
        Ok(())
    }
}

impl Default for VecStorage {
    /// Same as [`VecStorage::new`].
    fn default() -> (s: Self)
        ensures
            s.well_formed(),
            s.view_lines() == seq![Seq::<char>::empty()],
    {
        Self::new()
    }
}

impl TextStorage for VecStorage {
    open spec fn lines(&self) -> Seq<Seq<char>> {
        self.view_lines()
    }

    open spec fn text(&self) -> Seq<char> {
        join_lines(self.view_lines())
    }

    open spec fn inv(&self) -> bool {
        self.well_formed()
    }

    open spec fn splits_on_lf() -> bool {
        true
    }

    open spec fn offset_of(&self, pos: Position) -> int {
        char_offset(self.view_lines(), pos)
    }

    open spec fn text_lines(t: Seq<char>) -> Seq<Seq<char>> {
        split_lines(t)
    }

    open spec fn text_offset(t: Seq<char>, pos: Position) -> int {
        char_offset(split_lines(t), pos)
    }

    proof fn lemma_inv(&self) {
        lemma_split_join(self.view_lines());
        assert forall|p: Position| valid_pos(self.lines(), p) implies 0 <= #[trigger] self.offset_of(
            p,
        ) <= self.text().len() by {
            lemma_offset_bound(self.view_lines(), p);
        }
        lemma_line_count_bound(self.view_lines());
        vstd::std_specs::vec::axiom_spec_len(&self.lines);
        assert forall|i: int| 0 <= i < self.lines().len() implies #[trigger] self.lines()[i].len()
            <= self.text().len() by {
            lemma_join_around(self.view_lines(), i);
        }
    }

    fn empty() -> (s: Self) {
        Self::new()
    }

    fn line(&self, index: usize) -> (r: Option<String>) {
        if index < self.lines.len() {
            Some(chars_to_string(self.lines[index].as_slice()))
        } else {
            None
        }
    }

    fn line_count(&self) -> (n: usize) {
        self.lines.len()
    }

    /// Sums each line's character count, then adds one implicit `'\n'` for
    /// every line boundary.
    fn len_chars(&self) -> (n: usize) {
        let mut total: usize = self.lines[0].len();
        let mut i: usize = 1;
        let n = self.lines.len();
        proof {
            lemma_join_len_prefix(self.view_lines(), 1);
        }
        while i < n
            invariant
                n == self.lines@.len(),
                1 <= i <= n,
                self.well_formed(),
                total == join_lines(self.view_lines().take(i as int)).len(),
            decreases n - i,
        {
            proof {
                lemma_join_len_prefix(self.view_lines(), i + 1);
                lemma_join_len_mono(self.view_lines(), i + 1);
            }
            total = total + 1 + self.lines[i].len();
            i = i + 1;
        }
        assert(self.view_lines().take(n as int) == self.view_lines());
        total
    }

    fn to_text(&self) -> (s: String) {
        let mut out: Vec<char> = Vec::new();
        let n = self.lines.len();
        let mut i: usize = 0;
        while i < n
            invariant
                n == self.lines@.len(),
                n >= 1,
                i <= n,
                i >= 1 ==> out@ == join_lines(self.view_lines().take(i as int)),
                i == 0 ==> out@ == Seq::<char>::empty(),
            decreases n - i,
        {
            let ghost before = out@;
            if i > 0 {
                out.push('\n');
            }
            let line = &self.lines[i];
            let mut j: usize = 0;
            while j < line.len()
                invariant
                    j <= line@.len(),
                    i > 0 ==> out@ == before + seq!['\n'] + line@.take(j as int),
                    i == 0 ==> out@ == before + line@.take(j as int),
                decreases line@.len() - j,
            {
                out.push(line[j]);
                proof {
                    assert(line@.take(j + 1) == line@.take(j as int).push(line@[j as int]));
                }
                j = j + 1;
            }
            proof {
                assert(line@.take(line@.len() as int) == line@);
                let vl = self.view_lines();
                assert(vl[i as int] == line@);
                if i > 0 {
                    assert(vl.take(i + 1) == vl.take(i as int).push(vl[i as int]));
                    assert(vl.take(i + 1).drop_last() == vl.take(i as int));
                } else {
                    assert(vl.take(1) == seq![vl[0]]);
                }
            }
            i = i + 1;
        }
        assert(self.view_lines().take(n as int) == self.view_lines());
        chars_to_string(out.as_slice())
    }

    /// Splits the target line at `pos`, splices in `text` (which may itself
    /// span multiple lines), and reattaches the original tail of the line
    /// after the last inserted line.
    ///
    /// Example: inserting `"X\nY"` at column 2 of `"abcd"` produces
    /// `["abX", "Ycd"]`.
    fn insert(&mut self, pos: Position, text: &str) -> (r: Result<(), BufferError>) {
        self.validate_position(pos)?;
        let ghost old_lines = self.view_lines();
        let chars = str_chars(text);
        let mut parts = split_chars(&chars);
        let ghost sp = split_lines(chars@);
        proof {
            lemma_split_wf(chars@);
        }
        let l = pos.line;
        assert(l < self.lines@.len());
        let ghost line = old_lines[l as int];
        let ghost pre = line.take(pos.column as int);
        let ghost suf = line.skip(pos.column as int);
        let mut tail = self.lines[l].split_off(pos.column);
        if parts.len() == 1 {
            let mut only = parts.pop().unwrap();
            assert(only@ == sp[0]);
            self.lines[l].append(&mut only);
            self.lines[l].append(&mut tail);
            proof {
                assert(self.view_lines() =~= insert_lines(old_lines, pos, chars@));
            }
        } else {
            let mut last = parts.pop().unwrap();
            let mut first = parts.remove(0);
            assert(first@ == sp[0]);
            assert(last@ == sp.last());
            self.lines[l].append(&mut first);
            last.append(&mut tail);
            assert(l < self.lines.len());
            let mut rest = self.lines.split_off(l + 1);
            let ghost midv = parts@;
            assert(lines_view(midv) =~= sp.subrange(1, sp.len() - 1));
            self.lines.append(&mut parts);
            self.lines.push(last);
            self.lines.append(&mut rest);
            proof {
                let want = insert_lines(old_lines, pos, chars@);
                let got = self.view_lines();
                let sparts = splice_parts(sp, pre, suf);
                assert(sparts =~= seq![pre + sp[0]] + sp.subrange(1, sp.len() - 1) + seq![
                    sp.last() + suf,
                ]);
                assert(want == old_lines.take(l as int) + sparts + old_lines.skip(l + 1));
                assert(got.len() == want.len());
                assert forall|k: int| 0 <= k < got.len() implies got[k] == want[k] by {
                    if k < l {
                    } else if k == l {
                        assert(got[k] =~= pre + sp[0]);
                    } else if k < l + sp.len() - 1 {
                        assert(got[k] == sp[k - l]);
                    } else if k == l + sp.len() - 1 {
                        assert(got[k] =~= sp.last() + suf);
                    } else {
                    }
                }
                assert(got =~= want);
            }
        }
        proof {
            lemma_insert_wf(old_lines, pos, chars@);
            lemma_insert_text(old_lines, pos, chars@);
            let j = join_lines(old_lines);
            let o = crate::text::char_offset(old_lines, pos);
            assert(crate::text::line_start(old_lines, l as int) + line.len() <= j.len()) by {
                crate::text::lemma_join_around(old_lines, l as int);
            }
            assert((j.take(o) + chars@ + j.skip(o)).len() == j.len() + chars@.len());
        }
        Ok(())
    }

    /// Removes the text spanned by `range`, joining lines if the range
    /// crosses a line boundary.
    fn delete(&mut self, range: Range) -> (r: Result<(), BufferError>) {
        self.validate_position(range.start)?;
        self.validate_position(range.end)?;
        let range = range.normalized();
        let ghost old_lines = self.view_lines();
        let a = range.start;
        let b = range.end;
        assert(a.line < self.lines@.len() && b.line < self.lines@.len());
        assert(pos_le(a, b));
        if a.line == b.line {
            let ghost orig = self.lines[a.line as int]@;
            let mut tail = self.lines[a.line].split_off(b.column);
            self.lines[a.line].truncate(a.column);
            self.lines[a.line].append(&mut tail);
            proof {
                assert(self.lines[a.line as int]@ =~= orig.take(a.column as int) + orig.skip(
                    b.column as int,
                ));
                assert(self.view_lines() =~= delete_lines(old_lines, a, b));
            }
        } else {
            assert(b.line < self.lines.len());
            let mut rest = self.lines.split_off(b.line + 1);
            let mut last = self.lines.pop().unwrap();
            let mut suffix = last.split_off(b.column);
            self.lines.truncate(a.line + 1);
            self.lines[a.line].truncate(a.column);
            self.lines[a.line].append(&mut suffix);
            self.lines.append(&mut rest);
            proof {
                assert(self.view_lines() =~= delete_lines(old_lines, a, b));
            }
        }
        proof {
            lemma_delete_wf(old_lines, a, b);
            lemma_delete_text(old_lines, a, b);
            lemma_offset_bound(old_lines, b);
        }
        Ok(())
    }
}

} // verus!
