//! Undo/redo support, built as a log of small reversible [`Edit`]s rather
//! than full-buffer snapshots.
//!
//! Every mutation a [`crate::document::Document`] makes has one shape: "at
//! `pos`, `removed` was replaced by `inserted`". That describes an insert
//! (`removed` empty), a delete (`inserted` empty) or a replacement, and is
//! enough to invert any of them by swapping the two strings.

use vstd::prelude::*;

use crate::position::Position;
use crate::text::{
    char_count, delete_lines, end_of_insert, insert_lines, join_lines, lemma_delete_text,
    lemma_end_of_insert_value, lemma_insert_text, lemma_insert_then_delete, lemma_join_len_push,
    lemma_join_split, lemma_offset_bound, lemma_range_text_is_subrange, lemma_reinsert_restores,
    lemma_split_wf, pos_le, range_text, split_lines, str_chars, valid_pos, wf_lines,
    lemma_delete_wf, lemma_insert_wf, char_offset, lemma_line_span, lemma_split_join,
};

verus! {

/// A single reversible change: `removed` (the text that used to be at
/// `pos`) was replaced by `inserted`.
#[derive(Debug, Clone, PartialEq, Eq)]
pub struct Edit {
    pub pos: Position,
    pub removed: String,
    pub inserted: String,
}

/// What an [`Edit`] says, as plain values.
pub ghost struct EditView {
    pub pos: Position,
    pub removed: Seq<char>,
    pub inserted: Seq<char>,
}

impl Edit {
    /// The plain values of this edit.
    pub open spec fn view(&self) -> EditView {
        EditView { pos: self.pos, removed: self.removed@, inserted: self.inserted@ }
    }

    /// The edit that undoes this one: the same position, with `removed`
    /// and `inserted` swapped.
    pub fn inverse(&self) -> (e: Edit)
        ensures
            e@ == inverse_view(self@),
    {
        Edit { pos: self.pos, removed: self.inserted.clone(), inserted: self.removed.clone() }
    }
}

/// The edit that undoes `e`.
pub open spec fn inverse_view(e: EditView) -> EditView {
    EditView { pos: e.pos, removed: e.inserted, inserted: e.removed }
}

/// The plain values of each edit in `g`.
pub open spec fn group_view(g: Seq<Edit>) -> Seq<EditView> {
    Seq::new(g.len(), |i: int| g[i]@)
}

/// Whether `e` only inserts text.
pub open spec fn is_pure_insert(e: EditView) -> bool {
    e.removed.len() == 0 && e.inserted.len() > 0
}

/// Whether `e` only removes text.
pub open spec fn is_pure_delete(e: EditView) -> bool {
    e.inserted.len() == 0 && e.removed.len() > 0
}

/// Whether `next` continues `last` closely enough to join its undo group:
/// a straight run of single-line inserts, each right after the one before
/// it; or a run of deletes at one position (holding Delete) or each just
/// before the one before it (holding Backspace).
pub open spec fn coalesces_spec(last: EditView, next: EditView) -> bool {
    if is_pure_insert(last) && is_pure_insert(next) {
        next.pos == (Position { line: last.pos.line, column: (last.pos.column
            + last.inserted.len()) as usize }) && last.inserted.last() != '\n'
    } else if is_pure_delete(last) && is_pure_delete(next) {
        next.pos == last.pos || (next.pos.line == last.pos.line && next.pos.column
            + next.removed.len() == last.pos.column)
    } else {
        false
    }
}

/// Whether the column arithmetic of [`coalesces_spec`] stays within `usize`.
pub open spec fn coalesce_fits(last: EditView, next: EditView) -> bool {
    &&& is_pure_insert(last) && is_pure_insert(next) ==> last.pos.column + last.inserted.len()
        <= usize::MAX
    &&& is_pure_delete(last) && is_pure_delete(next) && next.pos != last.pos ==> next.pos.column
        + next.removed.len() <= usize::MAX
}

/// Tracks undo/redo state as a stack of edit groups.
///
/// Edits are coalesced into groups so that, e.g., typing "hello" undoes in
/// one step rather than five. A group is closed (no further edits merge
/// into it) whenever [`Self::break_group`] is called.
pub struct History {
    undo_stack: Vec<Vec<Edit>>,
    redo_stack: Vec<Vec<Edit>>,
    current: Vec<Edit>,
}

impl History {
    /// The closed groups that can be undone, oldest first.
    pub closed spec fn undo_groups(&self) -> Seq<Seq<Edit>> {
        Seq::new(self.undo_stack@.len(), |i: int| self.undo_stack@[i]@)
    }

    /// The groups that can be redone, oldest first.
    pub closed spec fn redo_groups(&self) -> Seq<Seq<Edit>> {
        Seq::new(self.redo_stack@.len(), |i: int| self.redo_stack@[i]@)
    }

    /// The group still open to further edits.
    pub closed spec fn current_group(&self) -> Seq<Edit> {
        self.current@
    }

    /// The undo groups once the open group, if any, is closed.
    pub open spec fn committed_groups(&self) -> Seq<Seq<Edit>> {
        if self.current_group().len() > 0 {
            self.undo_groups().push(self.current_group())
        } else {
            self.undo_groups()
        }
    }

    /// An empty history: nothing to undo or redo yet.
    pub fn new() -> (h: Self)
        ensures
            h.undo_groups() == Seq::<Seq<Edit>>::empty(),
            h.redo_groups() == Seq::<Seq<Edit>>::empty(),
            h.current_group() == Seq::<Edit>::empty(),
    {
        let h = Self { undo_stack: Vec::new(), redo_stack: Vec::new(), current: Vec::new() };
        assert(h.undo_groups() =~= Seq::<Seq<Edit>>::empty());
        assert(h.redo_groups() =~= Seq::<Seq<Edit>>::empty());
        h
    }

    /// Records an edit that just happened, merging it into the open group
    /// when it continues that group's last edit (see [`coalesces_spec`]),
    /// and otherwise closing the open group and starting a new one with
    /// it. Recording any edit clears the redo stack, since it invalidates
    /// the "future" that stack represented.
    pub fn record(&mut self, edit: Edit)
        requires
            old(self).current_group().len() > 0 ==> coalesce_fits(
                old(self).current_group().last()@,
                edit@,
            ),
        ensures
            final(self).redo_groups() == Seq::<Seq<Edit>>::empty(),
            final(self).committed_groups().len() > 0,
            old(self).current_group().len() > 0 && coalesces_spec(
                old(self).current_group().last()@,
                edit@,
            ) ==> final(self).current_group() == old(self).current_group().push(edit)
                && final(self).undo_groups() == old(self).undo_groups(),
            !(old(self).current_group().len() > 0 && coalesces_spec(
                old(self).current_group().last()@,
                edit@,
            )) ==> final(self).current_group() == seq![edit] && final(self).undo_groups()
                == old(self).committed_groups(),
    {
        self.redo_stack.clear();
        assert(self.redo_groups() =~= Seq::<Seq<Edit>>::empty());
        let n = self.current.len();
        if n > 0 {
            if Self::coalesces(&self.current[n - 1], &edit) {
                self.current.push(edit);
            } else {
                self.commit();
                self.current.push(edit);
                assert(self.current@ =~= seq![edit]);
            }
        } else {
            self.current.push(edit);
            assert(self.current@ =~= seq![edit]);
        }
    }

    /// Closes the open group, if any, so a later edit starts a new one
    /// instead of merging with it.
    pub fn break_group(&mut self)
        ensures
            final(self).undo_groups() == old(self).committed_groups(),
            final(self).current_group() == Seq::<Edit>::empty(),
            final(self).redo_groups() == old(self).redo_groups(),
            final(self).committed_groups() == old(self).committed_groups(),
    {
        self.commit();
    }

    /// Pops the most recent undo group, closing the open group first so a
    /// partially typed run isn't left stranded.
    pub fn pop_undo(&mut self) -> (r: Option<Vec<Edit>>)
        ensures
            final(self).current_group() == Seq::<Edit>::empty(),
            final(self).redo_groups() == old(self).redo_groups(),
            old(self).committed_groups().len() == 0 ==> r is None && final(self).undo_groups()
                == old(self).committed_groups(),
            old(self).committed_groups().len() > 0 ==> (r matches Some(g) && g@
                == old(self).committed_groups().last()) && final(self).undo_groups() == old(self).committed_groups().drop_last(),
    {
        self.commit();
        let r = self.undo_stack.pop();
        proof {
            if old(self).committed_groups().len() > 0 {
                assert(self.undo_groups() =~= old(self).committed_groups().drop_last());
            }
        }
        r
    }

    /// Pops the most recent redo group.
    pub fn pop_redo(&mut self) -> (r: Option<Vec<Edit>>)
        ensures
            final(self).current_group() == old(self).current_group(),
            final(self).undo_groups() == old(self).undo_groups(),
            old(self).redo_groups().len() == 0 ==> r is None && final(self).redo_groups() == old(self).redo_groups(),
            old(self).redo_groups().len() > 0 ==> (r matches Some(g) && g@ == old(self).redo_groups().last()) && final(self).redo_groups() == old(self).redo_groups().drop_last(),
    {
        let r = self.redo_stack.pop();
        proof {
            if old(self).redo_groups().len() > 0 {
                assert(self.redo_groups() =~= old(self).redo_groups().drop_last());
            }
        }
        r
    }

    /// Pushes a group onto the undo stack: what redoing just did, so it
    /// can be undone again.
    pub fn push_undo(&mut self, group: Vec<Edit>)
        ensures
            final(self).undo_groups() == old(self).undo_groups().push(group@),
            final(self).redo_groups() == old(self).redo_groups(),
            final(self).current_group() == old(self).current_group(),
    {
        self.undo_stack.push(group);
        assert(self.undo_groups() =~= old(self).undo_groups().push(group@));
    }

    /// Pushes a group onto the redo stack: what undoing just did, so it
    /// can be redone.
    pub fn push_redo(&mut self, group: Vec<Edit>)
        ensures
            final(self).redo_groups() == old(self).redo_groups().push(group@),
            final(self).undo_groups() == old(self).undo_groups(),
            final(self).current_group() == old(self).current_group(),
    {
        self.redo_stack.push(group);
        assert(self.redo_groups() =~= old(self).redo_groups().push(group@));
    }

    /// Whether there is anything to undo.
    pub fn can_undo(&self) -> (b: bool)
        ensures
            b == (self.committed_groups().len() > 0),
    {
        self.undo_stack.len() > 0 || self.current.len() > 0
    }

    /// Whether `edit` can be recorded without closing the open group
    /// first: the group is empty, or the column arithmetic of merging
    /// `edit` into it fits in a `usize`.
    pub fn fits(&self, edit: &Edit) -> (b: bool)
        ensures
            b == (self.current_group().len() == 0 || coalesce_fits(
                self.current_group().last()@,
                edit@,
            )),
    {
        let n = self.current.len();
        if n == 0 {
            return true;
        }
        let last = &self.current[n - 1];
        let last_removed = char_count(last.removed.as_str());
        let last_inserted = char_count(last.inserted.as_str());
        let next_removed = char_count(edit.removed.as_str());
        let next_inserted = char_count(edit.inserted.as_str());
        let both_insert = last_removed == 0 && last_inserted > 0 && next_removed == 0
            && next_inserted > 0;
        let both_delete = last_inserted == 0 && last_removed > 0 && next_inserted == 0
            && next_removed > 0;
        if both_insert && last.pos.column > usize::MAX - last_inserted {
            return false;
        }
        if both_delete && edit.pos != last.pos && edit.pos.column > usize::MAX - next_removed {
            return false;
        }
        true
    }

    /// Whether there is anything to redo.
    pub fn can_redo(&self) -> (b: bool)
        ensures
            b == (self.redo_groups().len() > 0),
    {
        self.redo_stack.len() > 0
    }

    /// Moves the open group, if non-empty, onto the undo stack.
    fn commit(&mut self)
        ensures
            final(self).undo_groups() == old(self).committed_groups(),
            final(self).current_group() == Seq::<Edit>::empty(),
            final(self).redo_groups() == old(self).redo_groups(),
    {
        if self.current.len() > 0 {
            let mut group: Vec<Edit> = Vec::new();
            std::mem::swap(&mut group, &mut self.current);
            self.undo_stack.push(group);
            assert(self.undo_groups() =~= old(self).undo_groups().push(old(self).current_group()));
        }
    }

    /// Whether `next` is a natural continuation of `last` and should be
    /// merged into the same undo group. Deliberately conservative: only a
    /// straight run of single-line inserts immediately following one
    /// another, or a run of deletes from holding Backspace or Delete,
    /// coalesce. Anything else, including mixing inserts with deletes,
    /// starts a new group.
    fn coalesces(last: &Edit, next: &Edit) -> (b: bool)
        requires
            coalesce_fits(last@, next@),
        ensures
            b == coalesces_spec(last@, next@),
    {
        let last_removed = char_count(last.removed.as_str());
        let last_inserted = char_count(last.inserted.as_str());
        let next_removed = char_count(next.removed.as_str());
        let next_inserted = char_count(next.inserted.as_str());
        let last_is_insert = last_removed == 0 && last_inserted > 0;
        let next_is_insert = next_removed == 0 && next_inserted > 0;
        let last_is_delete = last_inserted == 0 && last_removed > 0;
        let next_is_delete = next_inserted == 0 && next_removed > 0;

        if last_is_insert && next_is_insert {
            let end_of_last = Position::new(last.pos.line, last.pos.column + last_inserted);
            let chars = str_chars(last.inserted.as_str());
            let ends_with_newline = chars[chars.len() - 1] == '\n';
            return next.pos == end_of_last && !ends_with_newline;
        }

        if last_is_delete && next_is_delete {
            // Holding Delete: the cursor never moves, so each new block
            // is removed from the same position as the last.
            if next.pos == last.pos {
                return true;
            }
            // Holding Backspace: the cursor moves left with each press, so
            // each new block sits immediately before the last one.
            let end_of_next = Position::new(next.pos.line, next.pos.column + next_removed);
            return end_of_next == last.pos;
        }

        false
    }
}


impl Default for History {
    /// Same as [`History::new`].
    fn default() -> (h: Self)
        ensures
            h.undo_groups() == Seq::<Seq<Edit>>::empty(),
            h.redo_groups() == Seq::<Seq<Edit>>::empty(),
            h.current_group() == Seq::<Edit>::empty(),
    {
        Self::new()
    }
}

// ===== Applying edits to lines =====

/// Whether the position arithmetic of [`end_of_insert`] for `t` at `pos`
/// stays within `usize`.
pub open spec fn end_fits(pos: Position, t: Seq<char>) -> bool {
    let parts = split_lines(t);
    if parts.len() == 1 {
        pos.column + t.len() <= usize::MAX
    } else {
        pos.line + parts.len() - 1 <= usize::MAX && parts.last().len() <= usize::MAX
    }
}

/// Whether `e` can be applied to the lines `ls`: its removed text spans
/// from a valid position to another valid position, and the text with its
/// inserted text fits in a `usize` count.
pub open spec fn edit_fits(ls: Seq<Seq<char>>, e: EditView) -> bool {
    &&& end_fits(e.pos, e.removed)
    &&& valid_pos(ls, e.pos)
    &&& valid_pos(ls, end_of_insert(e.pos, e.removed))
    &&& join_lines(ls).len() + e.inserted.len() < usize::MAX
}

/// The lines after applying `e`: the span its removed text covers is
/// deleted, then its inserted text is inserted at its position.
pub open spec fn apply_edit_lines(ls: Seq<Seq<char>>, e: EditView) -> Seq<Seq<char>> {
    insert_lines(delete_lines(ls, e.pos, end_of_insert(e.pos, e.removed)), e.pos, e.inserted)
}

/// Whether the inverses of the edits of `g`, last edit first, apply one
/// after another starting from `ls`.
pub open spec fn revert_ok(ls: Seq<Seq<char>>, g: Seq<EditView>) -> bool
    decreases g.len(),
{
    if g.len() == 0 {
        true
    } else {
        let e = inverse_view(g.last());
        edit_fits(ls, e) && revert_ok(apply_edit_lines(ls, e), g.drop_last())
    }
}

/// The lines after applying the inverses of the edits of `g`, last edit
/// first, starting from `ls`.
pub open spec fn revert_lines(ls: Seq<Seq<char>>, g: Seq<EditView>) -> Seq<Seq<char>>
    decreases g.len(),
{
    if g.len() == 0 {
        ls
    } else {
        revert_lines(apply_edit_lines(ls, inverse_view(g.last())), g.drop_last())
    }
}

/// Whether the edits of `g`, first edit first, apply one after another
/// starting from `ls`.
pub open spec fn replay_ok(ls: Seq<Seq<char>>, g: Seq<EditView>) -> bool
    decreases g.len(),
{
    if g.len() == 0 {
        true
    } else {
        replay_ok(ls, g.drop_last()) && edit_fits(replay_lines(ls, g.drop_last()), g.last())
    }
}

/// The lines after applying the edits of `g`, first edit first, starting
/// from `ls`.
pub open spec fn replay_lines(ls: Seq<Seq<char>>, g: Seq<EditView>) -> Seq<Seq<char>>
    decreases g.len(),
{
    if g.len() == 0 {
        ls
    } else {
        apply_edit_lines(replay_lines(ls, g.drop_last()), g.last())
    }
}

/// The edit that records inserting `t` at `pos`.
pub open spec fn insert_edit(pos: Position, t: Seq<char>) -> EditView {
    EditView { pos, removed: Seq::<char>::empty(), inserted: t }
}

/// The edit that records removing the text between `a` and `b`.
pub open spec fn delete_edit(ls: Seq<Seq<char>>, a: Position, b: Position) -> EditView {
    EditView { pos: a, removed: range_text(ls, a, b), inserted: Seq::<char>::empty() }
}

/// Inserting nothing leaves the lines as they are.
pub proof fn lemma_insert_empty(ls: Seq<Seq<char>>, pos: Position)
    requires
        valid_pos(ls, pos),
    ensures
        insert_lines(ls, pos, Seq::<char>::empty()) == ls,
        end_of_insert(pos, Seq::<char>::empty()) == pos,
{
    let l = pos.line as int;
    let line = ls[l];
    assert(split_lines(Seq::<char>::empty()) == seq![Seq::<char>::empty()]);
    assert(line.take(pos.column as int) + Seq::<char>::empty() + line.skip(pos.column as int)
        =~= line);
    assert(insert_lines(ls, pos, Seq::<char>::empty()) =~= ls);
}

/// Deleting an empty span leaves the lines as they are.
pub proof fn lemma_delete_empty(ls: Seq<Seq<char>>, pos: Position)
    requires
        valid_pos(ls, pos),
    ensures
        delete_lines(ls, pos, pos) == ls,
{
    let line = ls[pos.line as int];
    assert(line.take(pos.column as int) + line.skip(pos.column as int) =~= line);
    assert(delete_lines(ls, pos, pos) =~= ls);
}

/// The end of an insert never comes before its start.
pub proof fn lemma_end_after_start(pos: Position, t: Seq<char>)
    requires
        end_fits(pos, t),
    ensures
        pos_le(pos, end_of_insert(pos, t)),
{
    lemma_split_wf(t);
}

/// Law: undoing an insert recorded as its own group gives back the lines
/// from before the insert.
pub proof fn lemma_undo_insert(ls: Seq<Seq<char>>, pos: Position, t: Seq<char>)
    requires
        wf_lines(ls),
        valid_pos(ls, pos),
        join_lines(ls).len() + t.len() < usize::MAX,
    ensures
        revert_ok(insert_lines(ls, pos, t), seq![insert_edit(pos, t)]),
        revert_lines(insert_lines(ls, pos, t), seq![insert_edit(pos, t)]) == ls,
{
    let i = insert_lines(ls, pos, t);
    let g = seq![insert_edit(pos, t)];
    let e = inverse_view(g.last());
    lemma_insert_then_delete(ls, pos, t);
    lemma_end_of_insert_value(ls, pos, t);
    lemma_insert_text(ls, pos, t);
    lemma_offset_bound(ls, pos);
    assert(end_fits(pos, t)) by {
        lemma_split_wf(t);
        lemma_join_split(t);
        if split_lines(t).len() > 1 {
            let parts = split_lines(t);
            assert(parts.drop_last().push(parts.last()) == parts);
            lemma_join_len_push(parts.drop_last(), parts.last());
        }
    }
    assert(join_lines(i).len() == join_lines(ls).len() + t.len());
    assert(edit_fits(i, e));
    lemma_insert_empty(ls, pos);
    assert(apply_edit_lines(i, e) == ls);
    assert(g.drop_last() == Seq::<EditView>::empty());
    reveal_with_fuel(revert_ok, 2);
    reveal_with_fuel(revert_lines, 2);
}

/// Law: undoing a delete recorded as its own group gives back the lines
/// from before the delete.
pub proof fn lemma_undo_delete(ls: Seq<Seq<char>>, a: Position, b: Position)
    requires
        wf_lines(ls),
        valid_pos(ls, a),
        valid_pos(ls, b),
        pos_le(a, b),
        join_lines(ls).len() < usize::MAX,
    ensures
        revert_ok(delete_lines(ls, a, b), seq![delete_edit(ls, a, b)]),
        revert_lines(delete_lines(ls, a, b), seq![delete_edit(ls, a, b)]) == ls,
{
    let d = delete_lines(ls, a, b);
    let g = seq![delete_edit(ls, a, b)];
    let e = inverse_view(g.last());
    let t = range_text(ls, a, b);
    lemma_reinsert_restores(ls, a, b);
    lemma_delete_text(ls, a, b);
    lemma_range_text_is_subrange(ls, a, b);
    lemma_offset_bound(ls, a);
    lemma_offset_bound(ls, b);
    lemma_insert_empty(d, a);
    lemma_delete_empty(d, a);
    assert(split_lines(Seq::<char>::empty()) == seq![Seq::<char>::empty()]);
    assert(end_fits(a, Seq::<char>::empty()));
    assert(join_lines(d).len() + t.len() == join_lines(ls).len());
    assert(edit_fits(d, e));
    assert(apply_edit_lines(d, e) == ls);
    assert(g.drop_last() == Seq::<EditView>::empty());
    reveal_with_fuel(revert_ok, 2);
    reveal_with_fuel(revert_lines, 2);
}

/// Law: redoing a group that was just undone gives back the lines from
/// before the undo, for an insert recorded as its own group.
pub proof fn lemma_redo_insert(ls: Seq<Seq<char>>, pos: Position, t: Seq<char>)
    requires
        wf_lines(ls),
        valid_pos(ls, pos),
        join_lines(ls).len() + t.len() < usize::MAX,
    ensures
        replay_ok(ls, seq![insert_edit(pos, t)]),
        replay_lines(ls, seq![insert_edit(pos, t)]) == insert_lines(ls, pos, t),
{
    let g = seq![insert_edit(pos, t)];
    assert(g.drop_last() == Seq::<EditView>::empty());
    assert(split_lines(Seq::<char>::empty()) == seq![Seq::<char>::empty()]);
    lemma_insert_empty(ls, pos);
    lemma_delete_empty(ls, pos);
    assert(edit_fits(ls, g.last()));
    reveal_with_fuel(replay_ok, 2);
    reveal_with_fuel(replay_lines, 2);
}


// ===== Undoing what was recorded =====

/// Whether `e` records what applying it to `ls` does: the text it says it
/// removed is the text of `ls` in the span it removes.
pub open spec fn edit_matches(ls: Seq<Seq<char>>, e: EditView) -> bool {
    range_text(ls, e.pos, end_of_insert(e.pos, e.removed)) == e.removed
}

/// Whether the edits of `g`, first edit first, apply one after another
/// starting from `ls`, each recording what it did to the lines of its
/// moment: what a group holds when its edits were recorded as they were
/// made.
pub open spec fn replay_recorded(ls: Seq<Seq<char>>, g: Seq<EditView>) -> bool
    decreases g.len(),
{
    if g.len() == 0 {
        true
    } else {
        &&& replay_recorded(ls, g.drop_last())
        &&& edit_fits(replay_lines(ls, g.drop_last()), g.last())
        &&& edit_matches(replay_lines(ls, g.drop_last()), g.last())
    }
}

/// Applying an edit that records what it does, then its inverse, gives
/// back the lines; and the inverse applies.
proof fn lemma_undo_edit(ls: Seq<Seq<char>>, e: EditView)
    requires
        wf_lines(ls),
        edit_fits(ls, e),
        edit_matches(ls, e),
    ensures
        edit_fits(apply_edit_lines(ls, e), inverse_view(e)),
        apply_edit_lines(apply_edit_lines(ls, e), inverse_view(e)) == ls,
{
    let end = end_of_insert(e.pos, e.removed);
    let d = delete_lines(ls, e.pos, end);
    let x = apply_edit_lines(ls, e);
    lemma_end_after_start(e.pos, e.removed);
    lemma_delete_wf(ls, e.pos, end);
    lemma_delete_text(ls, e.pos, end);
    lemma_range_text_is_subrange(ls, e.pos, end);
    lemma_offset_bound(ls, e.pos);
    lemma_offset_bound(ls, end);
    lemma_reinsert_restores(ls, e.pos, end);
    assert(join_lines(d).len() == join_lines(ls).len() - e.removed.len());
    lemma_insert_then_delete(d, e.pos, e.inserted);
    lemma_insert_text(d, e.pos, e.inserted);
    lemma_offset_bound(d, e.pos);
    assert(join_lines(x).len() == join_lines(d).len() + e.inserted.len());
    lemma_end_fits_bound(ls, e);
    assert(edit_fits(x, inverse_view(e)));
}

/// Law: undoing a group gives back the lines from before its edits. Where
/// the edits of `g` were applied one after another to `ls`, each recording
/// what it did, the inverses of the edits, last edit first, apply to the
/// lines they gave and give back `ls`. This holds of every group, however
/// many edits were merged into it.
pub proof fn lemma_undo_replay(ls: Seq<Seq<char>>, g: Seq<EditView>)
    requires
        wf_lines(ls),
        replay_recorded(ls, g),
    ensures
        replay_ok(ls, g),
        revert_ok(replay_lines(ls, g), g),
        revert_lines(replay_lines(ls, g), g) == ls,
    decreases g.len(),
{
    if g.len() > 0 {
        let h = g.drop_last();
        let e = g.last();
        lemma_undo_replay(ls, h);
        lemma_replay_wf(ls, h);
        let r = replay_lines(ls, h);
        lemma_undo_edit(r, e);
        assert(apply_edit_lines(replay_lines(ls, g), inverse_view(g.last())) == r);
    }
}

/// Law: an edit that applies to the lines a group gave, and records what
/// it does there, extends the group: the longer group is recorded from
/// the same lines, and gives what the edit gives from the group's lines.
/// This is how typing merges into the open undo group.
pub proof fn lemma_record_extends(ls: Seq<Seq<char>>, g: Seq<EditView>, e: EditView)
    requires
        replay_recorded(ls, g),
        edit_fits(replay_lines(ls, g), e),
        edit_matches(replay_lines(ls, g), e),
    ensures
        replay_recorded(ls, g.push(e)),
        replay_lines(ls, g.push(e)) == apply_edit_lines(replay_lines(ls, g), e),
{
    assert(g.push(e).drop_last() == g);
    assert(g.push(e).last() == e);
}

/// Law: the edit recording an insert at a valid position applies to the
/// lines, records what it does, and does what the insert does, wherever
/// the text with the insert fits in a `usize` count.
pub proof fn lemma_insert_edit_recorded(ls: Seq<Seq<char>>, pos: Position, t: Seq<char>)
    requires
        valid_pos(ls, pos),
        join_lines(ls).len() + t.len() < usize::MAX,
    ensures
        edit_fits(ls, insert_edit(pos, t)),
        edit_matches(ls, insert_edit(pos, t)),
        apply_edit_lines(ls, insert_edit(pos, t)) == insert_lines(ls, pos, t),
{
    lemma_insert_empty(ls, pos);
    lemma_delete_empty(ls, pos);
    assert(split_lines(Seq::<char>::empty()) == seq![Seq::<char>::empty()]);
    lemma_range_text_is_subrange(ls, pos, pos);
    assert(range_text(ls, pos, pos) =~= Seq::<char>::empty());
}

/// Law: the edit recording a delete between two valid positions in
/// reading order applies to the lines, records what it does, and does what
/// the delete does, wherever the text's length is below `usize::MAX`.
pub proof fn lemma_delete_edit_recorded(ls: Seq<Seq<char>>, a: Position, b: Position)
    requires
        wf_lines(ls),
        valid_pos(ls, a),
        valid_pos(ls, b),
        pos_le(a, b),
        join_lines(ls).len() < usize::MAX,
    ensures
        edit_fits(ls, delete_edit(ls, a, b)),
        edit_matches(ls, delete_edit(ls, a, b)),
        apply_edit_lines(ls, delete_edit(ls, a, b)) == delete_lines(ls, a, b),
{
    let t = range_text(ls, a, b);
    let d = delete_lines(ls, a, b);
    let q = end_of_insert(a, t);
    lemma_reinsert_restores(ls, a, b);
    lemma_delete_wf(ls, a, b);
    lemma_delete_text(ls, a, b);
    lemma_range_text_is_subrange(ls, a, b);
    lemma_offset_bound(ls, a);
    lemma_offset_bound(d, a);
    assert(join_lines(d).len() + t.len() == join_lines(ls).len());
    lemma_insert_then_delete(d, a, t);
    assert(char_offset(d, a) == char_offset(ls, a));
    assert(end_fits(a, t)) by {
        let parts = split_lines(t);
        lemma_end_of_insert_value(d, a, t);
        lemma_split_wf(t);
        lemma_join_split(t);
        lemma_line_span(parts, parts.len() - 1);
    }
    lemma_end_after_start(a, t);
    lemma_range_text_is_subrange(ls, a, q);
    assert(range_text(ls, a, q) =~= t);
    // Cutting up to `q` and up to `b` leaves the same text, so the same lines.
    lemma_delete_wf(ls, a, q);
    lemma_delete_text(ls, a, q);
    lemma_split_join(d);
    lemma_split_join(delete_lines(ls, a, q));
    assert(delete_lines(ls, a, q) == d);
    lemma_insert_empty(d, a);
}

/// Where an edit applies, the end of its inserted text fits in a `usize`.
pub proof fn lemma_end_fits_bound(ls: Seq<Seq<char>>, e: EditView)
    requires
        edit_fits(ls, e),
    ensures
        end_fits(e.pos, e.inserted),
{
    lemma_end_of_insert_value(ls, e.pos, e.inserted);
    lemma_split_wf(e.inserted);
}


/// Applying an edit that fits keeps the lines well formed, and the end of
/// its inserted text is a valid position afterwards.
pub proof fn lemma_apply_edit_wf(ls: Seq<Seq<char>>, e: EditView)
    requires
        wf_lines(ls),
        edit_fits(ls, e),
    ensures
        wf_lines(apply_edit_lines(ls, e)),
        valid_pos(apply_edit_lines(ls, e), end_of_insert(e.pos, e.inserted)),
{
    let end = end_of_insert(e.pos, e.removed);
    lemma_end_after_start(e.pos, e.removed);
    lemma_delete_wf(ls, e.pos, end);
    lemma_delete_text(ls, e.pos, end);
    lemma_offset_bound(ls, end);
    let d = delete_lines(ls, e.pos, end);
    assert(d[e.pos.line as int] == ls[e.pos.line as int].take(e.pos.column as int)
        + ls[end.line as int].skip(end.column as int));
    assert(valid_pos(d, e.pos));
    lemma_insert_wf(d, e.pos, e.inserted);
    lemma_insert_then_delete(d, e.pos, e.inserted);
}

/// Where the inverses of a non-empty group apply, the end of the text the
/// group's first edit removed, once put back, is a valid position in the
/// lines they give.
pub proof fn lemma_revert_end_valid(ls: Seq<Seq<char>>, g: Seq<EditView>)
    requires
        wf_lines(ls),
        g.len() > 0,
        revert_ok(ls, g),
    ensures
        wf_lines(revert_lines(ls, g)),
        valid_pos(revert_lines(ls, g), end_of_insert(g[0].pos, g[0].removed)),
    decreases g.len(),
{
    let e = inverse_view(g.last());
    lemma_apply_edit_wf(ls, e);
    if g.len() > 1 {
        lemma_revert_end_valid(apply_edit_lines(ls, e), g.drop_last());
    }
}

/// Where the edits of a group apply, the lines they give are well formed.
pub proof fn lemma_replay_wf(ls: Seq<Seq<char>>, g: Seq<EditView>)
    requires
        wf_lines(ls),
        replay_ok(ls, g),
    ensures
        wf_lines(replay_lines(ls, g)),
    decreases g.len(),
{
    if g.len() > 0 {
        lemma_replay_wf(ls, g.drop_last());
        lemma_apply_edit_wf(replay_lines(ls, g.drop_last()), g.last());
    }
}

/// Where the edits of a non-empty group apply, the end of the text its
/// last edit inserted is a valid position in the lines they give.
pub proof fn lemma_replay_end_valid(ls: Seq<Seq<char>>, g: Seq<EditView>)
    requires
        wf_lines(ls),
        g.len() > 0,
        replay_ok(ls, g),
    ensures
        valid_pos(replay_lines(ls, g), end_of_insert(g.last().pos, g.last().inserted)),
{
    lemma_replay_wf(ls, g.drop_last());
    lemma_apply_edit_wf(replay_lines(ls, g.drop_last()), g.last());
}

/// Where all edits of `g` apply one after another, so do those of any
/// prefix of `g`.
pub proof fn lemma_replay_prefix(ls: Seq<Seq<char>>, g: Seq<EditView>, k: int)
    requires
        0 <= k <= g.len(),
        replay_ok(ls, g),
    ensures
        replay_ok(ls, g.take(k)),
    decreases g.len() - k,
{
    if k < g.len() {
        assert(g.drop_last().len() == g.len() - 1);
        lemma_replay_prefix(ls, g.drop_last(), k);
        assert(g.drop_last().take(k) == g.take(k));
    } else {
        assert(g.take(k) == g);
    }
}

} // verus!
