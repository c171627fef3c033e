//! [`TextStorage`]: how a document's text is physically stored, and the
//! backends that implement it.

pub mod rope;
pub mod ropey_storage;
pub mod vec_storage;

use vstd::prelude::*;

use crate::error::BufferError;
use crate::position::{normalize, Position, Range};
use crate::storage::rope::RopeStorage;
use crate::storage::vec_storage::VecStorage;
use crate::text::{char_offset, delete_lines, insert_lines, join_lines, valid_pos, wf_lines};

verus! {

/// Abstraction over how a document's text is physically stored.
///
/// Every storage holds at least one line (an empty document is one empty
/// line, not zero lines), so a position with `column: 0` on line 0 is
/// always valid. All positions use **character** offsets, not byte offsets.
///
/// A storage is described by its `lines` (each without its terminator)
/// and its whole `text`. Storages that split lines only on `'\n'`
/// ([`TextStorage::splits_on_lf`]) keep `text` equal to the lines joined by
/// `'\n'`, and their inserts and deletes act on lines exactly as
/// [`insert_lines`] and [`delete_lines`] say.
pub trait TextStorage: Sized {
    /// The stored lines, each without its line terminator.
    spec fn lines(&self) -> Seq<Seq<char>>;

    /// The whole stored text.
    spec fn text(&self) -> Seq<char>;

    /// The storage's internal consistency.
    spec fn inv(&self) -> bool;

    /// Whether this storage splits lines on `'\n'` and on nothing else.
    spec fn splits_on_lf() -> bool;

    /// The character offset, in the text, of `pos`.
    spec fn offset_of(&self, pos: Position) -> int;

    /// The lines a storage of this kind holds when its text is `t`.
    spec fn text_lines(t: Seq<char>) -> Seq<Seq<char>>;

    /// The character offset of `pos` in a storage of this kind whose text
    /// is `t`.
    spec fn text_offset(t: Seq<char>, pos: Position) -> int;

    /// What holds of every consistent storage.
    proof fn lemma_inv(&self)
        requires
            self.inv(),
        ensures
            self.lines().len() >= 1,
            wf_lines(self.lines()),
            self.text().len() <= usize::MAX,
            self.lines() == Self::text_lines(self.text()),
            forall|p: Position| #[trigger] self.offset_of(p) == Self::text_offset(self.text(), p),
            Self::splits_on_lf() ==> wf_lines(self.lines()) && self.text() == join_lines(
                self.lines(),
            ),
            self.offset_of(Position { line: 0, column: 0 }) == 0,
            Self::splits_on_lf() ==> forall|p: Position| #[trigger]
                self.offset_of(p) == char_offset(self.lines(), p),
            forall|p: Position|
                valid_pos(self.lines(), p) ==> 0 <= #[trigger] self.offset_of(p) <= self.text().len(),
            self.lines().len() <= self.text().len() + 1,
            self.lines().len() <= usize::MAX,
            forall|i: int|
                0 <= i < self.lines().len() ==> #[trigger] self.lines()[i].len() <= self.text().len(),
    ;

    /// An empty document: one line containing no text.
    fn empty() -> (s: Self)
        ensures
            s.inv(),
            s.lines() == seq![Seq::<char>::empty()],
            s.text() == Seq::<char>::empty(),
    ;

    /// The text of the line at `index`, or `None` if it doesn't exist.
    fn line(&self, index: usize) -> (r: Option<String>)
        requires
            self.inv(),
        ensures
            index < self.lines().len() ==> (r matches Some(s) && s@ == self.lines()[index as int]),
            index >= self.lines().len() ==> r is None,
    ;

    /// The number of lines currently stored; always at least 1.
    fn line_count(&self) -> (n: usize)
        requires
            self.inv(),
        ensures
            n == self.lines().len(),
    ;

    /// The total number of characters in the document, including the
    /// line terminators between lines (but none after the last line).
    fn len_chars(&self) -> (n: usize)
        requires
            self.inv(),
        ensures
            n == self.text().len(),
    ;

    /// Inserts `text` at `pos`, splitting the line at `pos` where `text`
    /// holds line breaks. Fails with `InvalidPosition`, changing nothing,
    /// where `pos` is not a valid position.
    fn insert(&mut self, pos: Position, text: &str) -> (r: Result<(), BufferError>)
        requires
            old(self).inv(),
            old(self).text().len() + text@.len() < usize::MAX,
        ensures
            final(self).inv(),
            r is Ok <==> valid_pos(old(self).lines(), pos),
            r is Err ==> r == Err::<(), BufferError>(BufferError::InvalidPosition),
            r is Err ==> final(self).lines() == old(self).lines() && final(self).text() == old(self).text(),
            r is Ok && Self::splits_on_lf() ==> final(self).lines() == insert_lines(
                old(self).lines(),
                pos,
                text@,
            ),
            r is Ok ==> final(self).text() == old(self).text().take(old(self).offset_of(pos))
                + text@ + old(self).text().skip(old(self).offset_of(pos)),
    ;

    /// Removes the text spanned by `range`, in whichever order its
    /// endpoints are given, joining lines where it crosses line
    /// boundaries. Fails with `InvalidPosition`, changing nothing, where
    /// either endpoint is not a valid position.
    fn delete(&mut self, range: Range) -> (r: Result<(), BufferError>)
        requires
            old(self).inv(),
        ensures
            final(self).inv(),
            r is Ok <==> valid_pos(old(self).lines(), range.start) && valid_pos(
                old(self).lines(),
                range.end,
            ),
            r is Err ==> r == Err::<(), BufferError>(BufferError::InvalidPosition),
            r is Err ==> final(self).lines() == old(self).lines() && final(self).text() == old(self).text(),
            r is Ok && Self::splits_on_lf() ==> final(self).lines() == delete_lines(
                old(self).lines(),
                normalize(range).start,
                normalize(range).end,
            ),
            r is Ok ==> final(self).text() == old(self).text().take(
                old(self).offset_of(normalize(range).start),
            ) + old(self).text().skip(old(self).offset_of(normalize(range).end)),
            r is Ok ==> old(self).offset_of(normalize(range).start) <= old(self).offset_of(
                normalize(range).end,
            ),
    ;

    /// The entire document as one `String`: the text, with no trailing
    /// line break.
    fn to_text(&self) -> (s: String)
        requires
            self.inv(),
        ensures
            s@ == self.text(),
    ;
}

/// Law: the rope and the line-vector backends agree. Two of them holding
/// the same text hold the same lines and place every position at the same
/// offset. Since `insert` and `delete` decide success by the lines alone
/// and rewrite the text by those offsets alone, the same edit then succeeds
/// on both or fails on both, and leaves both holding the same text again;
/// so the two stay indistinguishable through any history of edits.
pub proof fn lemma_rope_vec_agree(r: RopeStorage, v: VecStorage)
    requires
        r.inv(),
        v.inv(),
        r.text() == v.text(),
    ensures
        r.lines() == v.lines(),
        forall|p: Position| #[trigger] r.offset_of(p) == v.offset_of(p),
        forall|p: Position| #[trigger] valid_pos(r.lines(), p) == valid_pos(v.lines(), p),
{
    r.lemma_inv();
    v.lemma_inv();
    assert forall|p: Position| #[trigger] r.offset_of(p) == v.offset_of(p) by {
        assert(r.offset_of(p) == RopeStorage::text_offset(r.text(), p));
        assert(v.offset_of(p) == VecStorage::text_offset(v.text(), p));
    }
}

/// One call made on a storage: an insert of `text` at `pos`, or a delete
/// of `range`.
pub ghost enum StorageCall {
    Insert { pos: Position, text: Seq<char> },
    Delete { range: Range },
}

/// What the contract of [`TextStorage::insert`] or [`TextStorage::delete`]
/// promises of a call `c` on `s0` that leaves `s1` and succeeds exactly
/// where `ok` says. [`crate::buffer::Buffer::insert`] and
/// [`crate::buffer::Buffer::delete`] ensure it of the storage they wrap.
pub open spec fn call_outcome<S: TextStorage>(s0: S, s1: S, c: StorageCall, ok: bool) -> bool {
    &&& s1.inv()
    &&& !ok ==> s1.text() == s0.text()
    &&& match c {
        StorageCall::Insert { pos, text } => {
            &&& ok <==> valid_pos(s0.lines(), pos)
            &&& ok ==> s1.text() == s0.text().take(s0.offset_of(pos)) + text + s0.text().skip(
                s0.offset_of(pos),
            )
        },
        StorageCall::Delete { range } => {
            &&& ok <==> valid_pos(s0.lines(), range.start) && valid_pos(s0.lines(), range.end)
            &&& ok ==> s1.text() == s0.text().take(s0.offset_of(normalize(range).start))
                + s0.text().skip(s0.offset_of(normalize(range).end))
        },
    }
}

/// Whether `ss` are the states a storage goes through under the calls
/// `cs`, each succeeding as `oks` says, starting from a consistent one.
pub open spec fn history_of<S: TextStorage>(ss: Seq<S>, cs: Seq<StorageCall>, oks: Seq<bool>) -> bool {
    &&& ss.len() == cs.len() + 1
    &&& oks.len() == cs.len()
    &&& ss[0].inv()
    &&& forall|i: int| 0 <= i < cs.len() ==> call_outcome(ss[i], #[trigger] ss[i + 1], cs[i], oks[i])
}

/// The states up to `k` of two storages, one of each kind, that went
/// through the same calls from the same text agree.
proof fn lemma_history_agree_upto(
    rs: Seq<RopeStorage>,
    vs: Seq<VecStorage>,
    cs: Seq<StorageCall>,
    rok: Seq<bool>,
    vok: Seq<bool>,
    k: int,
)
    requires
        history_of(rs, cs, rok),
        history_of(vs, cs, vok),
        rs[0].text() == vs[0].text(),
        0 <= k <= cs.len(),
    ensures
        rs[k].inv(),
        vs[k].inv(),
        rs[k].text() == vs[k].text(),
        forall|i: int| 0 <= i < k ==> #[trigger] rok[i] == vok[i],
    decreases k,
{
    if k > 0 {
        lemma_history_agree_upto(rs, vs, cs, rok, vok, k - 1);
        let i = k - 1;
        assert(call_outcome(rs[i], rs[i + 1], cs[i], rok[i]));
        assert(call_outcome(vs[i], vs[i + 1], cs[i], vok[i]));
        lemma_rope_vec_agree(rs[i], vs[i]);
    }
}

/// Law: the rope and the line-vector backends are interchangeable. Two
/// storages, one of each kind, that start from the same text and go
/// through the same insert and delete calls succeed on the same calls,
/// and after every call hold the same text and the same lines, so their
/// line counts, lengths and lines all agree.
pub proof fn lemma_rope_vec_same_history(
    rs: Seq<RopeStorage>,
    vs: Seq<VecStorage>,
    cs: Seq<StorageCall>,
    rok: Seq<bool>,
    vok: Seq<bool>,
)
    requires
        history_of(rs, cs, rok),
        history_of(vs, cs, vok),
        rs[0].text() == vs[0].text(),
    ensures
        forall|i: int| 0 <= i < cs.len() ==> #[trigger] rok[i] == vok[i],
        forall|i: int|
            0 <= i <= cs.len() ==> #[trigger] rs[i].text() == vs[i].text() && rs[i].lines()
                == vs[i].lines(),
{
    lemma_history_agree_upto(rs, vs, cs, rok, vok, cs.len() as int);
    assert forall|i: int| 0 <= i <= cs.len() implies #[trigger] rs[i].text() == vs[i].text()
        && rs[i].lines() == vs[i].lines() by {
        lemma_history_agree_upto(rs, vs, cs, rok, vok, i);
        lemma_rope_vec_agree(rs[i], vs[i]);
    }
}

} // verus!


