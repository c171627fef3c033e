//! [`Document`]: a [`Buffer`] plus everything needed to load it from and
//! save it back to a file faithfully (path, dirty tracking, the file's own
//! line-ending and trailing-newline style) and an undo/redo [`History`].
//!
//! Reading and writing files is the caller's part: a document is built
//! from the text a file held ([`Document::open`]) and says what text to
//! write where ([`Document::save`], [`Document::save_as`]).

use vstd::prelude::*;

use crate::buffer::Buffer;
use crate::error::{BufferError, DocumentError};
use crate::history::{
    apply_edit_lines, coalesce_fits, coalesces_spec, delete_edit, edit_fits, end_fits,
    edit_matches, group_view, insert_edit, inverse_view, lemma_delete_edit_recorded,
    lemma_insert_edit_recorded, lemma_record_extends, lemma_undo_replay, replay_lines, replay_ok,
    replay_recorded, revert_lines, revert_ok, Edit, EditView, History,
};
use crate::position::{normalize, Position, Range};
use crate::storage::TextStorage;
use crate::text::{
    chars_to_string, end_of_insert, insert_lines, join_lines, lemma_reinsert_restores,
    lemma_splice_empty_ends, pos_le, range_text, split_chars, split_lines, str_chars, valid_pos,
    wf_lines,
};

verus! {

/// Which line-ending style a file used, so it can be preserved on save
/// rather than silently normalized.
#[derive(Debug, Clone, Copy, PartialEq, Eq, Structural)]
pub enum LineEnding {
    /// Unix-style `\n`.
    Lf,
    /// Windows-style `\r\n`.
    CrLf,
}

/// Whether `s` holds a `'\r'` directly followed by a `'\n'`.
pub open spec fn contains_crlf(s: Seq<char>) -> bool {
    exists|i: int| 0 <= i < s.len() - 1 && s[i] == '\r' && #[trigger] s[i + 1] == '\n'
}

/// The style a file with text `s` is taken to use: `CrLf` as soon as it
/// holds one `"\r\n"`, `Lf` otherwise.
pub open spec fn detect_spec(s: Seq<char>) -> LineEnding {
    if contains_crlf(s) {
        LineEnding::CrLf
    } else {
        LineEnding::Lf
    }
}

/// The characters written between lines in style `le`.
pub open spec fn ending_chars(le: LineEnding) -> Seq<char> {
    match le {
        LineEnding::Lf => seq!['\n'],
        LineEnding::CrLf => seq!['\r', '\n'],
    }
}

/// `s` with every `"\r\n"`, from left to right, replaced by `"\n"`.
pub open spec fn crlf_to_lf(s: Seq<char>) -> Seq<char>
    decreases s.len(),
{
    if s.len() == 0 {
        Seq::<char>::empty()
    } else if s.len() >= 2 && s[0] == '\r' && s[1] == '\n' {
        seq!['\n'] + crlf_to_lf(s.skip(2))
    } else {
        seq![s[0]] + crlf_to_lf(s.skip(1))
    }
}

/// `s` with every `'\n'` replaced by `"\r\n"`.
pub open spec fn lf_to_crlf(s: Seq<char>) -> Seq<char>
    decreases s.len(),
{
    if s.len() == 0 {
        Seq::<char>::empty()
    } else if s[0] == '\n' {
        seq!['\r', '\n'] + lf_to_crlf(s.skip(1))
    } else {
        seq![s[0]] + lf_to_crlf(s.skip(1))
    }
}

/// Whether the text of a file, once its `"\r\n"`s are made `'\n'`, ends
/// with a line break.
pub open spec fn trailing_spec(raw: Seq<char>) -> bool {
    let c = crlf_to_lf(raw);
    c.len() > 0 && c.last() == '\n'
}

/// What a document opened from a file with text `raw` holds: the text with
/// `"\r\n"` made `'\n'`, less one final line break.
pub open spec fn open_content(raw: Seq<char>) -> Seq<char> {
    let c = crlf_to_lf(raw);
    if trailing_spec(raw) {
        c.drop_last()
    } else {
        c
    }
}

/// What saving writes for a document with text `t`, style `le` and
/// trailing-newline flag `trailing`.
pub open spec fn render_spec(t: Seq<char>, le: LineEnding, trailing: bool) -> Seq<char> {
    (if le == LineEnding::CrLf {
        lf_to_crlf(t)
    } else {
        t
    }) + (if trailing {
        ending_chars(le)
    } else {
        Seq::<char>::empty()
    })
}

/// Whether a file's text uses its line-ending style throughout: a file
/// that holds a `"\r\n"` has a `'\r'` before every `'\n'`.
pub open spec fn consistent_endings(raw: Seq<char>) -> bool {
    contains_crlf(raw) ==> forall|i: int|
        0 <= i < raw.len() && #[trigger] raw[i] == '\n' ==> i > 0 && raw[i - 1] == '\r'
}

impl LineEnding {
    /// Detects a file's line-ending style by checking for the presence of
    /// `"\r\n"`. A file that mixes `"\r\n"` and bare `"\n"` is treated
    /// entirely as `CrLf`.
    pub fn detect(text: &str) -> (le: LineEnding)
        ensures
            le == detect_spec(text@),
    {
        let chars = str_chars(text);
        let n = chars.len();
        let mut i: usize = 0;
        while i < n
            invariant
                i <= n,
                n == chars@.len(),
                chars@ == text@,
                forall|k: int| 0 <= k < i && k < n - 1 ==> !(chars@[k] == '\r' && #[trigger] chars@[k
                    + 1] == '\n'),
            decreases n - i,
        {
            if i + 1 < n && chars[i] == '\r' && chars[i + 1] == '\n' {
                assert(chars@[i + 1 as int] == '\n');
                return LineEnding::CrLf;
            }
            i = i + 1;
        }
        assert(!contains_crlf(text@)) by {
            if contains_crlf(text@) {
                let k = choose|k: int|
                    0 <= k < text@.len() - 1 && text@[k] == '\r' && #[trigger] text@[k + 1] == '\n';
                assert(k < i);
            }
        }
        LineEnding::Lf
    }

    /// The literal string to write between lines for this style.
    pub fn as_str(self) -> (s: &'static str)
        ensures
            s@ == ending_chars(self),
    {
        match self {
            LineEnding::Lf => {
                proof {
                    reveal_strlit("\n");
                }
                "\n"
            },
            LineEnding::CrLf => {
                proof {
                    reveal_strlit("\r\n");
                }
                "\r\n"
            },
        }
    }
}

/// `chars` with every `"\r\n"` made `'\n'`.
fn replace_crlf(chars: &Vec<char>) -> (out: Vec<char>)
    ensures
        out@ == crlf_to_lf(chars@),
        out@.len() <= chars@.len(),
{
    let mut out: Vec<char> = Vec::new();
    let n = chars.len();
    let mut i: usize = 0;
    assert(chars@.skip(0) == chars@);
    assert(out@ + chars@ == chars@);
    while i < n
        invariant
            n == chars@.len(),
            i <= n,
            out@ + crlf_to_lf(chars@.skip(i as int)) == crlf_to_lf(chars@),
            out@.len() <= i,
        decreases n - i,
    {
        let ghost rest = chars@.skip(i as int);
        if i + 1 < n && chars[i] == '\r' && chars[i + 1] == '\n' {
            assert(rest[0] == '\r' && rest[1] == '\n');
            assert(rest.skip(2) == chars@.skip(i + 2));
            out.push('\n');
            i = i + 2;
        } else {
            assert(rest.skip(1) == chars@.skip(i + 1));
            out.push(chars[i]);
            i = i + 1;
        }
    }
    assert(chars@.skip(n as int) == Seq::<char>::empty());
    assert(out@ + Seq::<char>::empty() == out@);
    out
}

/// `chars` with every `'\n'` made `"\r\n"`.
fn replace_lf(chars: &Vec<char>) -> (out: Vec<char>)
    ensures
        out@ == lf_to_crlf(chars@),
{
    let mut out: Vec<char> = Vec::new();
    let n = chars.len();
    let mut i: usize = 0;
    assert(chars@.skip(0) == chars@);
    while i < n
        invariant
            n == chars@.len(),
            i <= n,
            out@ + lf_to_crlf(chars@.skip(i as int)) == lf_to_crlf(chars@),
        decreases n - i,
    {
        let ghost rest = chars@.skip(i as int);
        assert(rest.skip(1) == chars@.skip(i + 1));
        if chars[i] == '\n' {
            out.push('\r');
            out.push('\n');
            assert(out@ + lf_to_crlf(chars@.skip(i + 1)) =~= lf_to_crlf(chars@));
        } else {
            out.push(chars[i]);
        }
        i = i + 1;
    }
    assert(chars@.skip(n as int) == Seq::<char>::empty());
    assert(out@ + Seq::<char>::empty() == out@);
    out
}

/// Where `t` ends when inserted at `pos`, or `None` where that position
/// doesn't fit in a `usize`.
pub fn insert_end(pos: Position, t: &str) -> (r: Option<Position>)
    ensures
        r is Some <==> end_fits(pos, t@),
        r matches Some(e) ==> e == end_of_insert(pos, t@),
{
    let chars = str_chars(t);
    let parts = split_chars(&chars);
    let ghost sp = split_lines(t@);
    assert(parts@.len() == sp.len());
    if parts.len() == 1 {
        if pos.column > usize::MAX - chars.len() {
            return None;
        }
        Some(Position::new(pos.line, pos.column + chars.len()))
    } else {
        if pos.line > usize::MAX - (parts.len() - 1) {
            return None;
        }
        let last = parts.len() - 1;
        assert(parts@[last as int]@ == sp.last());
        Some(Position::new(pos.line + (parts.len() - 1), parts[last].len()))
    }
}

/// A file's text plus the metadata needed to edit and save it faithfully,
/// and the history of its edits.
///
/// Internally the text always has `'\n'`-only line endings; `Document`
/// converts to and from the file's style only when opened and saved. It
/// also remembers whether the file ended with a line break, so opening and
/// saving a file neither adds nor removes one.
pub struct Document<S: TextStorage> {
    buffer: Buffer<S>,
    path: Option<String>,
    dirty: bool,
    line_ending: LineEnding,
    trailing_newline: bool,
    history: History,
}

/// What saving a document writes, and where.
pub struct SaveRequest {
    /// The file to write.
    pub path: String,
    /// The text to write to it.
    pub content: String,
}

/// Whether `new_h` is `old_h` after recording `e`: merged into the open
/// group when it continues that group's last edit, and otherwise started
/// as a new group after closing the open one. The redo stack is cleared.
pub open spec fn records(old_h: History, new_h: History, e: EditView) -> bool {
    &&& new_h.redo_groups() == Seq::<Seq<Edit>>::empty()
    &&& if old_h.current_group().len() > 0 && coalesce_fits(old_h.current_group().last()@, e)
        && coalesces_spec(old_h.current_group().last()@, e) {
        &&& group_view(new_h.current_group()) == group_view(old_h.current_group()).push(e)
        &&& new_h.undo_groups() == old_h.undo_groups()
    } else {
        &&& group_view(new_h.current_group()) == seq![e]
        &&& new_h.undo_groups() == old_h.committed_groups()
    }
}

/// What inserting `t` at `pos` does to a document `d0`, giving `d1` and
/// the result `r`: it succeeds exactly at a valid position; then the text
/// is inserted, the document is dirty and a non-empty `t` is recorded for
/// undo; on failure nothing changes.
pub open spec fn insert_outcome<S: TextStorage>(
    d0: Document<S>,
    d1: Document<S>,
    pos: Position,
    t: Seq<char>,
    r: Result<(), BufferError>,
) -> bool {
    &&& d1.buf().inv()
    &&& r is Ok <==> valid_pos(d0.buf().lines(), pos)
    &&& r is Err ==> {
        &&& r == Err::<(), BufferError>(BufferError::InvalidPosition)
        &&& d1.buf().lines() == d0.buf().lines()
        &&& d1.buf().text() == d0.buf().text()
        &&& d1.dirty_view() == d0.dirty_view()
        &&& d1.history_view() == d0.history_view()
    }
    &&& r is Ok ==> {
        &&& d1.dirty_view()
        &&& S::splits_on_lf() ==> d1.buf().lines() == insert_lines(d0.buf().lines(), pos, t)
        &&& d1.buf().text() == d0.buf().text().take(d0.buf().offset_of(pos)) + t
            + d0.buf().text().skip(d0.buf().offset_of(pos))
        &&& t.len() > 0 ==> records(d0.history_view(), d1.history_view(), insert_edit(pos, t))
        &&& t.len() == 0 ==> d1.history_view() == d0.history_view()
    }
    &&& d1.path_view() == d0.path_view()
    &&& d1.ending_view() == d0.ending_view()
    &&& d1.trailing_view() == d0.trailing_view()
}

/// What deleting `range` does to a document `d0`, giving `d1` and the
/// result `r`: it succeeds exactly when both endpoints are valid; then the
/// span between them (in reading order) is removed, the document is dirty
/// and a non-empty removed text is recorded for undo; on failure nothing
/// changes.
pub open spec fn delete_outcome<S: TextStorage>(
    d0: Document<S>,
    d1: Document<S>,
    range: Range,
    r: Result<(), BufferError>,
) -> bool {
    let a = normalize(range).start;
    let b = normalize(range).end;
    let removed = range_text(d0.buf().lines(), a, b);
    &&& d1.buf().inv()
    &&& r is Ok <==> valid_pos(d0.buf().lines(), range.start) && valid_pos(
        d0.buf().lines(),
        range.end,
    )
    &&& r is Err ==> {
        &&& r == Err::<(), BufferError>(BufferError::InvalidPosition)
        &&& d1 == d0
    }
    &&& r is Ok ==> {
        &&& d1.dirty_view()
        &&& S::splits_on_lf() ==> d1.buf().lines() == crate::text::delete_lines(
            d0.buf().lines(),
            a,
            b,
        )
        &&& d1.buf().text() == d0.buf().text().take(d0.buf().offset_of(a))
            + d0.buf().text().skip(d0.buf().offset_of(b))
        &&& removed.len() > 0 ==> records(
            d0.history_view(),
            d1.history_view(),
            delete_edit(d0.buf().lines(), a, b),
        )
        &&& removed.len() == 0 ==> d1.history_view() == d0.history_view()
    }
    &&& d1.path_view() == d0.path_view()
    &&& d1.ending_view() == d0.ending_view()
    &&& d1.trailing_view() == d0.trailing_view()
}

/// The text `t` of a storage of kind `S` with the span from `a` to `b`
/// removed.
pub open spec fn cut_text<S: TextStorage>(t: Seq<char>, a: Position, b: Position) -> Seq<char> {
    t.take(S::text_offset(t, a)) + t.skip(S::text_offset(t, b))
}

/// The text `t` of a storage of kind `S` with `s` inserted at `p`.
pub open spec fn paste_text<S: TextStorage>(t: Seq<char>, p: Position, s: Seq<char>) -> Seq<char> {
    t.take(S::text_offset(t, p)) + s + t.skip(S::text_offset(t, p))
}

/// Whether `e` can be applied to the text `t` of a storage of kind `S`:
/// the ends of its removed and inserted texts fit in a `usize`, its
/// removed span runs between two valid positions, the text with its
/// inserted text fits in a `usize` count, and its position is still valid
/// once the span is cut.
pub open spec fn edit_applies<S: TextStorage>(t: Seq<char>, e: EditView) -> bool {
    let end = end_of_insert(e.pos, e.removed);
    &&& end_fits(e.pos, e.removed)
    &&& end_fits(e.pos, e.inserted)
    &&& valid_pos(S::text_lines(t), e.pos)
    &&& valid_pos(S::text_lines(t), end)
    &&& t.len() + e.inserted.len() < usize::MAX
    &&& valid_pos(S::text_lines(cut_text::<S>(t, e.pos, end)), e.pos)
}

/// The text `t` of a storage of kind `S` after applying `e`: the span its
/// removed text covers is cut, then its inserted text is put at its
/// position.
pub open spec fn apply_edit_text<S: TextStorage>(t: Seq<char>, e: EditView) -> Seq<char> {
    paste_text::<S>(cut_text::<S>(t, e.pos, end_of_insert(e.pos, e.removed)), e.pos, e.inserted)
}

/// Whether the inverses of the edits of `g`, last edit first, apply one
/// after another to the text `t` of a storage of kind `S`.
pub open spec fn revert_text_ok<S: TextStorage>(t: Seq<char>, g: Seq<EditView>) -> bool
    decreases g.len(),
{
    if g.len() == 0 {
        true
    } else {
        let e = inverse_view(g.last());
        edit_applies::<S>(t, e) && revert_text_ok::<S>(apply_edit_text::<S>(t, e), g.drop_last())
    }
}

/// The text `t` of a storage of kind `S` after applying the inverses of
/// the edits of `g`, last edit first.
pub open spec fn revert_text<S: TextStorage>(t: Seq<char>, g: Seq<EditView>) -> Seq<char>
    decreases g.len(),
{
    if g.len() == 0 {
        t
    } else {
        revert_text::<S>(apply_edit_text::<S>(t, inverse_view(g.last())), g.drop_last())
    }
}

/// Whether the edits of `g`, first edit first, apply one after another to
/// the text `t` of a storage of kind `S`.
pub open spec fn replay_text_ok<S: TextStorage>(t: Seq<char>, g: Seq<EditView>) -> bool
    decreases g.len(),
{
    if g.len() == 0 {
        true
    } else {
        replay_text_ok::<S>(t, g.drop_last()) && edit_applies::<S>(
            replay_text::<S>(t, g.drop_last()),
            g.last(),
        )
    }
}

/// The text `t` of a storage of kind `S` after applying the edits of `g`,
/// first edit first.
pub open spec fn replay_text<S: TextStorage>(t: Seq<char>, g: Seq<EditView>) -> Seq<char>
    decreases g.len(),
{
    if g.len() == 0 {
        t
    } else {
        apply_edit_text::<S>(replay_text::<S>(t, g.drop_last()), g.last())
    }
}

/// Where all edits of `g` apply one after another to the text `t`, so do
/// those of any prefix of `g`.
proof fn lemma_replay_text_prefix<S: TextStorage>(t: Seq<char>, g: Seq<EditView>, k: int)
    requires
        0 <= k <= g.len(),
        replay_text_ok::<S>(t, g),
    ensures
        replay_text_ok::<S>(t, g.take(k)),
    decreases g.len() - k,
{
    if k < g.len() {
        lemma_replay_text_prefix::<S>(t, g.drop_last(), k);
        assert(g.drop_last().take(k) == g.take(k));
    } else {
        assert(g.take(k) == g);
    }
}

/// Where the cursor belongs after undoing in `d`: where the text removed
/// by the first edit of the group undone ends once put back; `None` where
/// there is nothing to undo or the group is empty.
pub open spec fn undo_cursor<S: TextStorage>(d: Document<S>) -> Option<Position> {
    let groups = d.history_view().committed_groups();
    if groups.len() > 0 && groups.last().len() > 0 {
        let e = groups.last()[0]@;
        Some(end_of_insert(e.pos, e.removed))
    } else {
        None
    }
}

/// Where the cursor belongs after redoing in `d`: where the text inserted
/// by the last edit of the group redone ends; `None` where there is
/// nothing to redo or the group is empty.
pub open spec fn redo_cursor<S: TextStorage>(d: Document<S>) -> Option<Position> {
    let groups = d.history_view().redo_groups();
    if groups.len() > 0 && groups.last().len() > 0 {
        let e = groups.last().last()@;
        Some(end_of_insert(e.pos, e.inserted))
    } else {
        None
    }
}

/// What undoing does to a document `d0`, giving `d1` and the result `r`.
/// The open group is closed; then, if there is a group to undo, the
/// inverses of its edits are applied, last edit first, and the group moves
/// to the redo stack. For every storage, that succeeds exactly when each
/// inverse applies to the text as the ones before it left it, and the text
/// is then [`revert_text`] of the text before; for storages that split
/// lines on `'\n'`, the same holds of the lines ([`revert_lines`]).
pub open spec fn undo_outcome<S: TextStorage>(
    d0: Document<S>,
    d1: Document<S>,
    r: Result<Option<Position>, BufferError>,
) -> bool {
    let groups = d0.history_view().committed_groups();
    &&& d1.buf().inv()
    &&& groups.len() == 0 ==> {
        &&& r == Ok::<Option<Position>, BufferError>(None)
        &&& d1.buf() == d0.buf()
        &&& d1.history_view().undo_groups() == groups
        &&& d1.history_view().current_group().len() == 0
        &&& d1.history_view().redo_groups() == d0.history_view().redo_groups()
    }
    &&& groups.len() > 0 ==> {
        let g = group_view(groups.last());
        &&& r is Ok <==> revert_text_ok::<S>(d0.buf().text(), g)
        &&& r is Ok ==> d1.buf().text() == revert_text::<S>(d0.buf().text(), g)
        &&& S::splits_on_lf() ==> (r is Ok <==> revert_ok(d0.buf().lines(), g))
        &&& S::splits_on_lf() && r is Ok ==> d1.buf().lines() == revert_lines(
            d0.buf().lines(),
            g,
        )
        &&& r is Ok ==> {
            &&& d1.history_view().undo_groups() == groups.drop_last()
            &&& d1.history_view().redo_groups() == d0.history_view().redo_groups().push(
                groups.last(),
            )
            &&& d1.dirty_view()
        }
        &&& r is Err ==> d1.history_view().undo_groups() == groups
    }
    &&& r is Ok ==> r == Ok::<Option<Position>, BufferError>(undo_cursor(d0))
    &&& d1.path_view() == d0.path_view()
    &&& d1.ending_view() == d0.ending_view()
    &&& d1.trailing_view() == d0.trailing_view()
}

/// What redoing does to a document `d0`, giving `d1` and the result `r`.
/// If there is a group to redo, its edits are applied, first edit first,
/// and the group moves to the undo stack. For every storage, that succeeds
/// exactly when each edit applies to the text as the ones before it left
/// it, and the text is then [`replay_text`] of the text before; for
/// storages that split lines on `'\n'`, the same holds of the lines
/// ([`replay_lines`]).
pub open spec fn redo_outcome<S: TextStorage>(
    d0: Document<S>,
    d1: Document<S>,
    r: Result<Option<Position>, BufferError>,
) -> bool {
    let groups = d0.history_view().redo_groups();
    &&& d1.buf().inv()
    &&& groups.len() == 0 ==> {
        &&& r == Ok::<Option<Position>, BufferError>(None)
        &&& d1.buf() == d0.buf()
        &&& d1.history_view().undo_groups() == d0.history_view().undo_groups()
        &&& d1.history_view().redo_groups() == groups
        &&& d1.history_view().current_group() == d0.history_view().current_group()
    }
    &&& groups.len() > 0 ==> {
        let g = group_view(groups.last());
        &&& r is Ok <==> replay_text_ok::<S>(d0.buf().text(), g)
        &&& r is Ok ==> d1.buf().text() == replay_text::<S>(d0.buf().text(), g)
        &&& S::splits_on_lf() ==> (r is Ok <==> replay_ok(d0.buf().lines(), g))
        &&& S::splits_on_lf() && r is Ok ==> d1.buf().lines() == replay_lines(
            d0.buf().lines(),
            g,
        )
        &&& r is Ok ==> {
            &&& d1.history_view().redo_groups() == groups.drop_last()
            &&& d1.history_view().undo_groups() == d0.history_view().undo_groups().push(
                groups.last(),
            )
            &&& d1.dirty_view()
        }
        &&& r is Err ==> d1.history_view().redo_groups() == groups
    }
    &&& r is Ok ==> r == Ok::<Option<Position>, BufferError>(redo_cursor(d0))
    &&& d1.path_view() == d0.path_view()
    &&& d1.ending_view() == d0.ending_view()
    &&& d1.trailing_view() == d0.trailing_view()
}

impl<S: TextStorage> Document<S> {
    /// The document's text buffer.
    pub closed spec fn buf(&self) -> Buffer<S> {
        self.buffer
    }

    /// The file path the document is associated with, if any.
    pub closed spec fn path_view(&self) -> Option<Seq<char>> {
        match self.path {
            Some(p) => Some(p@),
            None => None,
        }
    }

    /// Whether the document has unsaved changes.
    pub closed spec fn dirty_view(&self) -> bool {
        self.dirty
    }

    /// The line-ending style used on save.
    pub closed spec fn ending_view(&self) -> LineEnding {
        self.line_ending
    }

    /// Whether saving ends the file with a line break.
    pub closed spec fn trailing_view(&self) -> bool {
        self.trailing_newline
    }

    /// The document's undo/redo history.
    pub closed spec fn history_view(&self) -> History {
        self.history
    }

    /// Wraps an existing buffer as a new, clean, pathless document (LF
    /// endings, trailing newline on save, empty history).
    pub fn new(buffer: Buffer<S>) -> (d: Self)
        ensures
            d.buf() == buffer,
            d.path_view() is None,
            !d.dirty_view(),
            d.ending_view() == LineEnding::Lf,
            d.trailing_view(),
            d.history_view().undo_groups().len() == 0,
            d.history_view().redo_groups().len() == 0,
            d.history_view().current_group().len() == 0,
    {
        Self {
            buffer,
            path: None,
            dirty: false,
            line_ending: LineEnding::Lf,
            trailing_newline: true,
            history: History::new(),
        }
    }

    /// Read-only access to the underlying buffer.
    pub fn buffer(&self) -> (b: &Buffer<S>)
        ensures
            *b == self.buf(),
    {
        &self.buffer
    }

    /// Mutable access to the underlying buffer, for edits that don't need
    /// to flow through [`Self::insert`]/[`Self::delete`]. This bypasses
    /// dirty tracking and the undo history.
    pub fn buffer_mut(&mut self) -> (b: &mut Buffer<S>)
        ensures
            *b == old(self).buf(),
            final(self).buf() == *final(b),
            final(self).path_view() == old(self).path_view(),
            final(self).dirty_view() == old(self).dirty_view(),
            final(self).ending_view() == old(self).ending_view(),
            final(self).trailing_view() == old(self).trailing_view(),
            final(self).history_view() == old(self).history_view(),
    {
        &mut self.buffer
    }

    /// The file path this document is associated with, if any.
    pub fn path(&self) -> (p: Option<&String>)
        ensures
            p is None <==> self.path_view() is None,
            p matches Some(s) ==> self.path_view() == Some(s@),
    {
        match &self.path {
            Some(p) => Some(p),
            None => None,
        }
    }

    /// Whether the document has unsaved changes.
    pub fn is_dirty(&self) -> (b: bool)
        ensures
            b == self.dirty_view(),
    {
        self.dirty
    }

    /// The line-ending style that will be used on save.
    pub fn line_ending(&self) -> (le: LineEnding)
        ensures
            le == self.ending_view(),
    {
        self.line_ending
    }

    /// Records `edit` in the history, closing the open group first where
    /// the column arithmetic of merging would not fit in a `usize`.
    fn record(&mut self, edit: Edit)
        ensures
            records(old(self).history_view(), final(self).history_view(), edit@),
            final(self).buf() == old(self).buf(),
            final(self).path_view() == old(self).path_view(),
            final(self).dirty_view() == old(self).dirty_view(),
            final(self).ending_view() == old(self).ending_view(),
            final(self).trailing_view() == old(self).trailing_view(),
    {
        let ghost e = edit@;
        let ghost old_h = self.history;
        if !self.history.fits(&edit) {
            self.history.break_group();
        }
        self.history.record(edit);
        proof {
            let h = self.history;
            if old_h.current_group().len() > 0 && coalesce_fits(old_h.current_group().last()@, e)
                && coalesces_spec(old_h.current_group().last()@, e) {
                assert(group_view(h.current_group()) =~= group_view(old_h.current_group()).push(
                    e,
                ));
            } else {
                assert(group_view(h.current_group()) =~= seq![e]);
            }
        }
    }

    /// Inserts `text` at `pos`, marks the document dirty and records the
    /// edit for undo (an empty `text` changes nothing and is not recorded).
    pub fn insert(&mut self, pos: Position, text: &str) -> (r: Result<(), BufferError>)
        requires
            old(self).buf().inv(),
            old(self).buf().text().len() + text@.len() < usize::MAX,
        ensures
            insert_outcome(*old(self), *final(self), pos, text@, r),
    {
        self.buffer.insert(pos, text)?;
        self.dirty = true;
        if !text.is_empty() {
            let edit = Edit { pos, removed: String::new(), inserted: text.to_owned() };
            assert(edit@ == insert_edit(pos, text@));
            self.record(edit);
        }
        Ok(())
    }

    /// Deletes the text spanned by `range` (in either order), marks the
    /// document dirty and records the removed text for undo (an empty span
    /// changes nothing and is not recorded).
    pub fn delete(&mut self, range: Range) -> (r: Result<(), BufferError>)
        requires
            old(self).buf().inv(),
        ensures
            delete_outcome(*old(self), *final(self), range, r),
    {
        if !self.buffer.is_valid_position(range.start) || !self.buffer.is_valid_position(
            range.end,
        ) {
            return Err(BufferError::InvalidPosition);
        }
        let span = range.normalized();
        let removed = self.buffer.text_in_range(span);
        self.buffer.delete(range)?;
        self.dirty = true;
        if !removed.as_str().is_empty() {
            let edit = Edit { pos: span.start, removed, inserted: String::new() };
            self.record(edit);
        }
        Ok(())
    }

    /// Closes the open undo group, so the next edit starts a new one.
    pub fn break_undo_group(&mut self)
        ensures
            final(self).buf() == old(self).buf(),
            final(self).history_view().undo_groups() == old(self).history_view().committed_groups(),
            final(self).history_view().current_group().len() == 0,
            final(self).history_view().redo_groups() == old(self).history_view().redo_groups(),
            final(self).path_view() == old(self).path_view(),
            final(self).dirty_view() == old(self).dirty_view(),
            final(self).ending_view() == old(self).ending_view(),
            final(self).trailing_view() == old(self).trailing_view(),
    {
        self.history.break_group();
    }

    /// Applies `e` to the buffer: deletes the span its removed text covers
    /// and inserts its inserted text in its place. Returns where the
    /// inserted text ends.
    fn apply_edit(&mut self, e: &Edit) -> (r: Result<Position, BufferError>)
        requires
            old(self).buf().inv(),
        ensures
            final(self).buf().inv(),
            r matches Ok(c) ==> c == end_of_insert(e.pos, e.inserted@),
            r is Ok <==> edit_applies::<S>(old(self).buf().text(), e@),
            r is Ok ==> final(self).buf().text() == apply_edit_text::<S>(old(self).buf().text(), e@),
            S::splits_on_lf() ==> (r is Ok <==> edit_fits(old(self).buf().lines(), e@)),
            S::splits_on_lf() && r is Ok ==> final(self).buf().lines() == apply_edit_lines(
                old(self).buf().lines(),
                e@,
            ),
            S::splits_on_lf() && r is Err ==> final(self).buf() == old(self).buf(),
            final(self).history_view() == old(self).history_view(),
            final(self).path_view() == old(self).path_view(),
            final(self).dirty_view() == old(self).dirty_view(),
            final(self).ending_view() == old(self).ending_view(),
            final(self).trailing_view() == old(self).trailing_view(),
    {
        proof {
            self.buffer.lemma_inv();
        }
        let ghost ls = self.buffer.lines();
        let end = match insert_end(e.pos, e.removed.as_str()) {
            Some(p) => p,
            None => return Err(BufferError::InvalidPosition),
        };
        let after = match insert_end(e.pos, e.inserted.as_str()) {
            Some(p) => p,
            None => {
                proof {
                    if S::splits_on_lf() && edit_fits(ls, e@) {
                        crate::history::lemma_end_fits_bound(ls, e@);
                    }
                }
                return Err(BufferError::InvalidPosition);
            },
        };
        if !self.buffer.is_valid_position(e.pos) || !self.buffer.is_valid_position(end) {
            return Err(BufferError::InvalidPosition);
        }
        let added = crate::text::char_count(e.inserted.as_str());
        if self.buffer.len_chars() >= usize::MAX - added {
            return Err(BufferError::InvalidPosition);
        }
        proof {
            crate::history::lemma_end_after_start(e.pos, e.removed@);
            if S::splits_on_lf() {
                lemma_reinsert_restores(ls, e.pos, end);
                crate::text::lemma_delete_text(ls, e.pos, end);
            }
        }
        let ghost t0 = self.buffer.text();
        let range = Range::new(e.pos, end);
        assert(normalize(range) == range) by {
            assert(!crate::text::pos_lt(end, e.pos));
        }
        self.buffer.delete(range)?;
        proof {
            self.buffer.lemma_inv();
            assert(self.buffer.text() == cut_text::<S>(t0, e.pos, end));
        }
        self.buffer.insert(e.pos, e.inserted.as_str())?;
        Ok(after)
    }

    /// Reverts the most recent group of edits (closing the open group
    /// first): the inverse of each edit of the group is applied, last edit
    /// first, and the group moves to the redo stack. Returns where the
    /// cursor belongs afterwards (where the text the first edit removed
    /// ends once put back), or `None` when there was nothing to undo.
    ///
    /// Where an inverse doesn't apply (the buffer was changed behind the
    /// history's back through [`Self::buffer_mut`]), fails with
    /// `InvalidPosition` and puts the group back on the undo stack.
    pub fn undo(&mut self) -> (r: Result<Option<Position>, BufferError>)
        requires
            old(self).buf().inv(),
        ensures
            undo_outcome(*old(self), *final(self), r),
    {
        let ghost ls = self.buffer.lines();
        let ghost t0 = self.buffer.text();
        let group = match self.history.pop_undo() {
            Some(g) => g,
            None => return Ok(None),
        };
        let ghost g = group_view(group@);
        let ghost h1 = self.history;
        let mut i = group.len();
        assert(g.take(i as int) == g);
        let mut cursor: Option<Position> = None;
        while i > 0
            invariant
                i <= group@.len(),
                g == group_view(group@),
                self.buf().inv(),
                t0 == old(self).buf().text(),
                revert_text_ok::<S>(t0, g) <==> revert_text_ok::<S>(
                    self.buf().text(),
                    g.take(i as int),
                ),
                revert_text::<S>(t0, g) == revert_text::<S>(self.buf().text(), g.take(i as int)),
                S::splits_on_lf() ==> (revert_ok(ls, g) <==> revert_ok(
                    self.buf().lines(),
                    g.take(i as int),
                )),
                S::splits_on_lf() ==> revert_lines(ls, g) == revert_lines(
                    self.buf().lines(),
                    g.take(i as int),
                ),
                i < group@.len() ==> cursor == Some(end_of_insert(g[i as int].pos, g[i as int].removed)),
                i == group@.len() ==> cursor is None,
                self.history_view() == h1,
                ls == old(self).buf().lines(),
                old(self).history_view().committed_groups().len() > 0,
                group@ == old(self).history_view().committed_groups().last(),
                h1.undo_groups() == old(self).history_view().committed_groups().drop_last(),
                h1.redo_groups() == old(self).history_view().redo_groups(),
                self.path_view() == old(self).path_view(),
                self.ending_view() == old(self).ending_view(),
                self.trailing_view() == old(self).trailing_view(),
            decreases i,
        {
            i = i - 1;
            let inverse = group[i].inverse();
            assert(g.take(i + 1).last() == g[i as int]);
            assert(g.take(i + 1).drop_last() == g.take(i as int));
            match self.apply_edit(&inverse) {
                Ok(c) => {
                    cursor = Some(c);
                },
                Err(err) => {
                    self.history.push_undo(group);
                    assert(self.history_view().undo_groups() =~= old(self).history_view().committed_groups());
                    return Err(err);
                },
            }
        }
        assert(g.take(0) == Seq::<EditView>::empty());
        assert(g.take(group@.len() as int) == g);
        self.history.push_redo(group);
        self.dirty = true;
        Ok(cursor)
    }

    /// Re-applies the most recently undone group of edits, first edit
    /// first, and moves the group back to the undo stack. Returns where the
    /// cursor belongs afterwards (where the text the last edit inserted
    /// ends), or `None` when there was nothing to redo.
    ///
    /// Where an edit doesn't apply (the buffer was changed behind the
    /// history's back), fails with `InvalidPosition` and puts the group
    /// back on the redo stack.
    pub fn redo(&mut self) -> (r: Result<Option<Position>, BufferError>)
        requires
            old(self).buf().inv(),
        ensures
            redo_outcome(*old(self), *final(self), r),
    {
        let ghost ls = self.buffer.lines();
        let ghost t0 = self.buffer.text();
        let group = match self.history.pop_redo() {
            Some(g) => g,
            None => return Ok(None),
        };
        let ghost g = group_view(group@);
        let ghost h1 = self.history;
        let n = group.len();
        let mut i: usize = 0;
        let mut cursor: Option<Position> = None;
        assert(g.take(0) == Seq::<EditView>::empty());
        while i < n
            invariant
                n == group@.len(),
                i <= n,
                g == group_view(group@),
                self.buf().inv(),
                t0 == old(self).buf().text(),
                replay_text_ok::<S>(t0, g.take(i as int)),
                self.buf().text() == replay_text::<S>(t0, g.take(i as int)),
                S::splits_on_lf() ==> replay_ok(ls, g.take(i as int)),
                S::splits_on_lf() ==> self.buf().lines() == replay_lines(ls, g.take(i as int)),
                i > 0 ==> cursor == Some(end_of_insert(g[i - 1].pos, g[i - 1].inserted)),
                i == 0 ==> cursor is None,
                self.history_view() == h1,
                ls == old(self).buf().lines(),
                old(self).history_view().redo_groups().len() > 0,
                group@ == old(self).history_view().redo_groups().last(),
                h1.redo_groups() == old(self).history_view().redo_groups().drop_last(),
                h1.undo_groups() == old(self).history_view().undo_groups(),
                self.path_view() == old(self).path_view(),
                self.ending_view() == old(self).ending_view(),
                self.trailing_view() == old(self).trailing_view(),
            decreases n - i,
        {
            assert(g.take(i + 1).drop_last() == g.take(i as int));
            assert(g.take(i + 1).last() == g[i as int]);
            match self.apply_edit(&group[i]) {
                Ok(c) => {
                    cursor = Some(c);
                },
                Err(err) => {
                    proof {
                        if S::splits_on_lf() && replay_ok(ls, g) {
                            crate::history::lemma_replay_prefix(ls, g, i + 1);
                        }
                        if replay_text_ok::<S>(t0, g) {
                            lemma_replay_text_prefix::<S>(t0, g, i + 1);
                        }
                    }
                    self.history.push_redo(group);
                    assert(self.history_view().redo_groups() =~= old(self).history_view().redo_groups());
                    return Err(err);
                },
            }
            i = i + 1;
        }
        assert(g.take(n as int) == g);
        self.history.push_undo(group);
        self.dirty = true;
        Ok(cursor)
    }
}

impl<S: TextStorage> Document<S> {
    /// Builds a document from the text `raw` that the file at `path` held.
    ///
    /// The file's line-ending style and trailing-newline presence are
    /// recorded so [`Self::save`]/[`Self::save_as`] can reproduce them.
    /// Internally, `"\r\n"` is normalized to `'\n'` and one final line
    /// break is dropped before the content is loaded into the buffer.
    pub fn open(path: String, raw: &str) -> (d: Self)
        requires
            raw@.len() < usize::MAX,
        ensures
            d.buf().inv(),
            d.buf().text() == open_content(raw@),
            S::splits_on_lf() ==> d.buf().lines() == split_lines(open_content(raw@)),
            d.ending_view() == detect_spec(raw@),
            d.trailing_view() == trailing_spec(raw@),
            d.path_view() == Some(path@),
            !d.dirty_view(),
            d.history_view().undo_groups().len() == 0,
            d.history_view().redo_groups().len() == 0,
            d.history_view().current_group().len() == 0,
    {
        let line_ending = LineEnding::detect(raw);
        let chars = str_chars(raw);
        let mut content = replace_crlf(&chars);
        let trailing_newline = content.len() > 0 && content[content.len() - 1] == '\n';
        if trailing_newline {
            content.pop();
        }
        assert(content@ == open_content(raw@));
        let mut buffer = Buffer::new(S::empty());
        proof {
            buffer.lemma_inv();
        }
        let ghost empty_lines = buffer.lines();
        if content.len() > 0 {
            let text = chars_to_string(content.as_slice());
            assert(valid_pos(buffer.lines(), Position { line: 0, column: 0 }));
            let r = buffer.insert(Position::new(0, 0), text.as_str());
            assert(r is Ok);
            proof {
                assert(buffer.text() =~= content@);
                if S::splits_on_lf() {
                    lemma_splice_empty_ends(content@);
                    assert(empty_lines.take(0) + split_lines(content@) + empty_lines.skip(1)
                        =~= split_lines(content@));
                }
            }
        } else {
            proof {
                assert(content@ == Seq::<char>::empty());
            }
        }
        Self {
            buffer,
            path: Some(path),
            dirty: false,
            line_ending,
            trailing_newline,
            history: History::new(),
        }
    }

    /// Creates an empty, clean document already associated with `path`:
    /// the file is only written once [`Self::save`] is called.
    pub fn new_at(path: String) -> (d: Self)
        ensures
            d.buf().inv(),
            d.buf().lines() == seq![Seq::<char>::empty()],
            d.buf().text() == Seq::<char>::empty(),
            d.path_view() == Some(path@),
            !d.dirty_view(),
            d.ending_view() == LineEnding::Lf,
            d.trailing_view(),
            d.history_view().undo_groups().len() == 0,
            d.history_view().redo_groups().len() == 0,
            d.history_view().current_group().len() == 0,
    {
        let d = Self::new(Buffer::new(S::empty()));
        Self { path: Some(path), ..d }
    }

    /// Renders the buffer to the text saving writes: the file's
    /// line-ending style re-applied, and a final line break where the file
    /// had one.
    pub fn rendered(&self) -> (s: String)
        requires
            self.buf().inv(),
        ensures
            s@ == render_spec(self.buf().text(), self.ending_view(), self.trailing_view()),
    {
        let text = self.buffer.to_text();
        let chars = str_chars(text.as_str());
        let mut content = if self.line_ending == LineEnding::CrLf {
            replace_lf(&chars)
        } else {
            chars
        };
        let ghost body = content@;
        if self.trailing_newline {
            if self.line_ending == LineEnding::CrLf {
                content.push('\r');
            }
            content.push('\n');
        }
        proof {
            if self.trailing_newline {
                assert(content@ =~= body + ending_chars(self.line_ending));
            } else {
                assert(content@ =~= body + Seq::<char>::empty());
            }
        }
        chars_to_string(content.as_slice())
    }

    /// What saving to the document's own path writes. Fails with `NoPath`
    /// when the document has never been given a path; use
    /// [`Self::save_as`] then. Once the text is written, call
    /// [`Self::mark_saved`].
    pub fn save(&self) -> (r: Result<SaveRequest, DocumentError>)
        requires
            self.buf().inv(),
        ensures
            r is Err <==> self.path_view() is None,
            r is Err ==> r == Err::<SaveRequest, DocumentError>(DocumentError::NoPath),
            r matches Ok(req) ==> Some(req.path@) == self.path_view() && req.content@
                == render_spec(self.buf().text(), self.ending_view(), self.trailing_view()),
    {
        match &self.path {
            Some(path) => Ok(SaveRequest { path: path.clone(), content: self.rendered() }),
            None => Err(DocumentError::NoPath),
        }
    }

    /// What saving to `path` writes. Once the text is written, call
    /// [`Self::mark_saved`], which adopts `path` as the document's path.
    pub fn save_as(&self, path: String) -> (req: SaveRequest)
        requires
            self.buf().inv(),
        ensures
            req.path@ == path@,
            req.content@ == render_spec(self.buf().text(), self.ending_view(), self.trailing_view()),
    {
        SaveRequest { path, content: self.rendered() }
    }

    /// Records that `request` was written: its path becomes the document's
    /// path and the document is clean.
    pub fn mark_saved(&mut self, request: &SaveRequest)
        ensures
            final(self).path_view() == Some(request.path@),
            !final(self).dirty_view(),
            final(self).buf() == old(self).buf(),
            final(self).history_view() == old(self).history_view(),
            final(self).ending_view() == old(self).ending_view(),
            final(self).trailing_view() == old(self).trailing_view(),
    {
        self.path = Some(request.path.clone());
        self.dirty = false;
    }
}


/// Whether every `'\n'` in `s` directly follows a `'\r'`.
pub open spec fn lf_after_cr(s: Seq<char>) -> bool {
    forall|i: int| 0 <= i < s.len() && #[trigger] s[i] == '\n' ==> i > 0 && s[i - 1] == '\r'
}

/// A text without `"\r\n"` is left as it is by [`crlf_to_lf`].
pub proof fn lemma_crlf_to_lf_identity(s: Seq<char>)
    requires
        !contains_crlf(s),
    ensures
        crlf_to_lf(s) == s,
    decreases s.len(),
{
    if s.len() > 0 {
        let r = s.skip(1);
        assert(!contains_crlf(r)) by {
            if contains_crlf(r) {
                let k = choose|k: int|
                    0 <= k < r.len() - 1 && r[k] == '\r' && #[trigger] r[k + 1] == '\n';
                assert(s[k + 1] == '\r' && s[k + 2] == '\n');
            }
        }
        lemma_crlf_to_lf_identity(r);
        if s.len() >= 2 && s[0] == '\r' {
            assert(s[1] != '\n') by {
                if s[1] == '\n' {
                    assert(s[0int + 1] == '\n');
                }
            }
        }
        assert(seq![s[0]] + r =~= s);
    }
}

/// [`lf_to_crlf`] acts on each part of a concatenation on its own.
pub proof fn lemma_lf_to_crlf_concat(a: Seq<char>, b: Seq<char>)
    ensures
        lf_to_crlf(a + b) == lf_to_crlf(a) + lf_to_crlf(b),
    decreases a.len(),
{
    if a.len() == 0 {
        assert(a + b == b);
    } else {
        lemma_lf_to_crlf_concat(a.skip(1), b);
        assert((a + b).skip(1) == a.skip(1) + b);
        assert((a + b)[0] == a[0]);
    }
}

/// Where every `'\n'` follows a `'\r'`, turning `"\r\n"` into `'\n'` and
/// back gives the text back.
pub proof fn lemma_crlf_roundtrip(s: Seq<char>)
    requires
        lf_after_cr(s),
    ensures
        lf_to_crlf(crlf_to_lf(s)) == s,
    decreases s.len(),
{
    if s.len() > 0 {
        if s.len() >= 2 && s[0] == '\r' && s[1] == '\n' {
            let r = s.skip(2);
            assert(lf_after_cr(r)) by {
                assert forall|j: int| 0 <= j < r.len() && #[trigger] r[j] == '\n' implies j > 0
                    && r[j - 1] == '\r' by {
                    assert(s[j + 2] == '\n');
                }
            }
            lemma_crlf_roundtrip(r);
            let c = crlf_to_lf(r);
            assert(crlf_to_lf(s) == seq!['\n'] + c);
            assert((seq!['\n'] + c).skip(1) == c);
            assert(lf_to_crlf(seq!['\n'] + c) == seq!['\r', '\n'] + lf_to_crlf(c));
            assert(seq!['\r', '\n'] + r =~= s);
        } else {
            let r = s.skip(1);
            assert(s[0] != '\n') by {
                if s[0] == '\n' {
                    assert(s[0] == '\n');
                }
            }
            assert(lf_after_cr(r)) by {
                assert forall|j: int| 0 <= j < r.len() && #[trigger] r[j] == '\n' implies j > 0
                    && r[j - 1] == '\r' by {
                    assert(s[j + 1] == '\n');
                }
            }
            lemma_crlf_roundtrip(r);
            let c = crlf_to_lf(r);
            assert(crlf_to_lf(s) == seq![s[0]] + c);
            assert((seq![s[0]] + c).skip(1) == c);
            assert((seq![s[0]] + c)[0] == s[0]);
            assert(seq![s[0]] + r =~= s);
        }
    }
}

/// Law: opening a file and saving it unchanged writes back exactly the
/// text the file held, wherever the file uses one line-ending style
/// throughout.
pub proof fn lemma_open_save_roundtrip(raw: Seq<char>)
    requires
        consistent_endings(raw),
    ensures
        render_spec(open_content(raw), detect_spec(raw), trailing_spec(raw)) == raw,
{
    let c = crlf_to_lf(raw);
    if contains_crlf(raw) {
        assert(lf_after_cr(raw));
        lemma_crlf_roundtrip(raw);
        if trailing_spec(raw) {
            lemma_lf_to_crlf_concat(c.drop_last(), seq!['\n']);
            assert(c.drop_last() + seq!['\n'] =~= c);
            assert(lf_to_crlf(seq!['\n']) == seq!['\r', '\n'] + lf_to_crlf(
                Seq::<char>::empty(),
            )) by {
                assert(seq!['\n'].skip(1) == Seq::<char>::empty());
            }
            assert(lf_to_crlf(seq!['\n']) =~= seq!['\r', '\n']);
        } else {
            assert(lf_to_crlf(c) + Seq::<char>::empty() == lf_to_crlf(c));
        }
    } else {
        lemma_crlf_to_lf_identity(raw);
        if trailing_spec(raw) {
            assert(c.drop_last() + seq!['\n'] =~= c);
        } else {
            assert(c + Seq::<char>::empty() == c);
        }
    }
}

/// Law: undo gives back the lines from before the edits it reverses, and
/// redo then gives back the lines after them, for storages that split lines
/// on `'\n'`. Where the group that undoing `d1` would take (its open group,
/// or else its top undo group) holds edits recorded one after another from
/// the lines of `d0`, and gave the lines of `d1`, undoing `d1` succeeds and
/// leaves the lines of `d0`; redoing right after succeeds and leaves the
/// lines of `d1` again. However many edits were merged into the group,
/// one undo takes them all back.
pub proof fn lemma_document_undo_redo<S: TextStorage>(
    d0: Document<S>,
    d1: Document<S>,
    d2: Document<S>,
    d3: Document<S>,
    r2: Result<Option<Position>, BufferError>,
    r3: Result<Option<Position>, BufferError>,
)
    requires
        S::splits_on_lf(),
        d0.buf().inv(),
        d1.history_view().committed_groups().len() > 0,
        replay_recorded(
            d0.buf().lines(),
            group_view(d1.history_view().committed_groups().last()),
        ),
        replay_lines(d0.buf().lines(), group_view(d1.history_view().committed_groups().last()))
            == d1.buf().lines(),
        undo_outcome(d1, d2, r2),
        redo_outcome(d2, d3, r3),
    ensures
        r2 is Ok,
        d2.buf().lines() == d0.buf().lines(),
        r3 is Ok,
        d3.buf().lines() == d1.buf().lines(),
{
    let ls = d0.buf().lines();
    let groups = d1.history_view().committed_groups();
    let g = group_view(groups.last());
    d0.buf().lemma_inv();
    lemma_undo_replay(ls, g);
    assert(d2.history_view().redo_groups().last() == groups.last());
}

/// Whether recording `e` in `h` merges it into the open group (see
/// [`records`]).
pub open spec fn merges_into_open_group(h: History, e: EditView) -> bool {
    h.current_group().len() > 0 && coalesce_fits(h.current_group().last()@, e) && coalesces_spec(
        h.current_group().last()@,
        e,
    )
}

/// Whether the open group of `h` holds edits recorded one after another
/// from the lines `base`, giving the lines `ls`.
pub open spec fn open_group_recorded(h: History, base: Seq<Seq<char>>, ls: Seq<Seq<char>>) -> bool {
    &&& replay_recorded(base, group_view(h.current_group()))
    &&& replay_lines(base, group_view(h.current_group())) == ls
}

/// Recording an edit that applies to `ls0` and records what it does there
/// keeps the open group tied to the lines: merged into a group recorded
/// from `base`, or starting a new one from `ls0`.
proof fn lemma_records_recorded(
    h0: History,
    h1: History,
    e: EditView,
    base: Seq<Seq<char>>,
    ls0: Seq<Seq<char>>,
)
    requires
        records(h0, h1, e),
        open_group_recorded(h0, base, ls0),
        edit_fits(ls0, e),
        edit_matches(ls0, e),
    ensures
        merges_into_open_group(h0, e) ==> open_group_recorded(
            h1,
            base,
            apply_edit_lines(ls0, e),
        ),
        !merges_into_open_group(h0, e) ==> open_group_recorded(
            h1,
            ls0,
            apply_edit_lines(ls0, e),
        ),
        h1.current_group().len() > 0,
        h1.committed_groups().last() == h1.current_group(),
{
    let g0 = group_view(h0.current_group());
    let g1 = group_view(h1.current_group());
    if merges_into_open_group(h0, e) {
        lemma_record_extends(base, g0, e);
        assert(g1.len() > 0);
    } else {
        let empty = Seq::<EditView>::empty();
        assert(replay_recorded(ls0, empty));
        lemma_record_extends(ls0, empty, e);
        assert(empty.push(e) == seq![e]);
        assert(g1.len() == 1);
    }
}

/// Law: inserting into a document keeps its undo group tied to its text,
/// for storages that split lines on `'\n'`. Where the open group of `d0`
/// holds edits recorded one after another from the lines `base` and gave
/// the lines of `d0`, a successful insert of a non-empty text leaves an
/// open group that is also the group undo takes next, holds edits
/// recorded from `base` (where the insert merged into the group) or from
/// the lines of `d0` (where it started a new one), and gave the lines of
/// `d1`. With [`lemma_document_undo_redo`], undo then takes the lines back
/// to `base`, or to those of `d0`.
pub proof fn lemma_document_insert_recorded<S: TextStorage>(
    d0: Document<S>,
    d1: Document<S>,
    pos: Position,
    t: Seq<char>,
    r: Result<(), BufferError>,
    base: Seq<Seq<char>>,
)
    requires
        S::splits_on_lf(),
        d0.buf().inv(),
        d0.buf().text().len() + t.len() < usize::MAX,
        open_group_recorded(d0.history_view(), base, d0.buf().lines()),
        insert_outcome(d0, d1, pos, t, r),
        r is Ok,
        t.len() > 0,
    ensures
        merges_into_open_group(d0.history_view(), insert_edit(pos, t)) ==> open_group_recorded(
            d1.history_view(),
            base,
            d1.buf().lines(),
        ),
        !merges_into_open_group(d0.history_view(), insert_edit(pos, t)) ==> open_group_recorded(
            d1.history_view(),
            d0.buf().lines(),
            d1.buf().lines(),
        ),
        d1.history_view().committed_groups().last() == d1.history_view().current_group(),
{
    d0.buf().lemma_inv();
    lemma_insert_edit_recorded(d0.buf().lines(), pos, t);
    lemma_records_recorded(
        d0.history_view(),
        d1.history_view(),
        insert_edit(pos, t),
        base,
        d0.buf().lines(),
    );
}

/// Law: deleting from a document keeps its undo group tied to its text,
/// for storages that split lines on `'\n'`, as
/// [`lemma_document_insert_recorded`] says of inserting: after a
/// successful delete of a non-empty span, the open group holds edits
/// recorded from `base` or from the lines of `d0`, and gave the lines of
/// `d1`.
pub proof fn lemma_document_delete_recorded<S: TextStorage>(
    d0: Document<S>,
    d1: Document<S>,
    range: Range,
    r: Result<(), BufferError>,
    base: Seq<Seq<char>>,
)
    requires
        S::splits_on_lf(),
        d0.buf().inv(),
        d0.buf().text().len() < usize::MAX,
        open_group_recorded(d0.history_view(), base, d0.buf().lines()),
        delete_outcome(d0, d1, range, r),
        r is Ok,
        range_text(d0.buf().lines(), normalize(range).start, normalize(range).end).len() > 0,
    ensures
        merges_into_open_group(
            d0.history_view(),
            delete_edit(d0.buf().lines(), normalize(range).start, normalize(range).end),
        ) ==> open_group_recorded(d1.history_view(), base, d1.buf().lines()),
        !merges_into_open_group(
            d0.history_view(),
            delete_edit(d0.buf().lines(), normalize(range).start, normalize(range).end),
        ) ==> open_group_recorded(d1.history_view(), d0.buf().lines(), d1.buf().lines()),
        d1.history_view().committed_groups().last() == d1.history_view().current_group(),
{
    let a = normalize(range).start;
    let b = normalize(range).end;
    d0.buf().lemma_inv();
    assert(pos_le(a, b));
    lemma_delete_edit_recorded(d0.buf().lines(), a, b);
    lemma_records_recorded(
        d0.history_view(),
        d1.history_view(),
        delete_edit(d0.buf().lines(), a, b),
        base,
        d0.buf().lines(),
    );
}

/// Law: saving a document opened from the text `raw`, with no edits
/// since, writes back exactly `raw`, wherever `raw` uses one line-ending
/// style throughout: a document holding what [`Document::open`] gives for
/// `raw` renders as `raw`, and [`Document::save_as`] writes that
/// rendering.
pub proof fn lemma_document_save_roundtrip<S: TextStorage>(d: Document<S>, raw: Seq<char>)
    requires
        consistent_endings(raw),
        d.buf().text() == open_content(raw),
        d.ending_view() == detect_spec(raw),
        d.trailing_view() == trailing_spec(raw),
    ensures
        render_spec(d.buf().text(), d.ending_view(), d.trailing_view()) == raw,
{
    lemma_open_save_roundtrip(raw);
}

/// Law: in a document whose open undo group was just closed, undoing a
/// successful insert gives back the lines from before the insert, and
/// redoing it then gives back the lines after it.
pub proof fn lemma_document_undo_insert(ls: Seq<Seq<char>>, pos: Position, t: Seq<char>)
    requires
        wf_lines(ls),
        valid_pos(ls, pos),
        join_lines(ls).len() + t.len() < usize::MAX,
    ensures
        revert_ok(insert_lines(ls, pos, t), seq![insert_edit(pos, t)]),
        revert_lines(insert_lines(ls, pos, t), seq![insert_edit(pos, t)]) == ls,
        replay_ok(ls, seq![insert_edit(pos, t)]),
        replay_lines(ls, seq![insert_edit(pos, t)]) == insert_lines(ls, pos, t),
{
    crate::history::lemma_undo_insert(ls, pos, t);
    crate::history::lemma_redo_insert(ls, pos, t);
}

} // verus!
