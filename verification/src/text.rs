//! The mathematical model of a document's text.
//!
//! A document is a non-empty sequence of lines, each a sequence of
//! characters that holds no `'\n'`. Its text is those lines joined by
//! `'\n'`; splitting that text on `'\n'` gives the lines back. Every
//! storage backend, every edit and every position in this crate is
//! described against this model, in characters (never bytes).

use vstd::prelude::*;
use vstd::string::StrSliceExecFns;

use crate::position::Position;

verus! {

/// The line-break character every `'\n'`-splitting model uses.
pub open spec fn lf() -> char {
    '\n'
}

/// Whether `s` holds no `'\n'`.
pub open spec fn lf_free(s: Seq<char>) -> bool {
    forall|i: int| 0 <= i < s.len() ==> s[i] != '\n'
}

/// Whether every line in `ls` holds no `'\n'`.
pub open spec fn lines_lf_free(ls: Seq<Seq<char>>) -> bool {
    forall|i: int| 0 <= i < ls.len() ==> #[trigger] lf_free(ls[i])
}

/// Whether `ls` is the line sequence of some document: at least one line,
/// and no line holding a `'\n'`.
pub open spec fn wf_lines(ls: Seq<Seq<char>>) -> bool {
    ls.len() >= 1 && lines_lf_free(ls)
}

/// `s` split at every `'\n'`. There is always one more part than there are
/// `'\n'`s in `s`, so the empty text splits into one empty part.
pub open spec fn split_lines(s: Seq<char>) -> Seq<Seq<char>>
    decreases s.len(),
{
    if s.len() == 0 {
        seq![Seq::<char>::empty()]
    } else {
        let prev = split_lines(s.drop_last());
        if s.last() == '\n' {
            prev.push(Seq::<char>::empty())
        } else {
            prev.update(prev.len() - 1, prev.last().push(s.last()))
        }
    }
}

/// `ls` joined by `'\n'` (no leading or trailing `'\n'`).
pub open spec fn join_lines(ls: Seq<Seq<char>>) -> Seq<char>
    decreases ls.len(),
{
    if ls.len() == 0 {
        Seq::<char>::empty()
    } else if ls.len() == 1 {
        ls[0]
    } else {
        join_lines(ls.drop_last()) + seq!['\n'] + ls.last()
    }
}

/// The line `i` of `ls`, or the empty line where `ls` has no line `i`.
pub open spec fn line_or_empty(ls: Seq<Seq<char>>, i: int) -> Seq<char> {
    if 0 <= i < ls.len() {
        ls[i]
    } else {
        Seq::<char>::empty()
    }
}

/// Whether `pos` names an existing line and a column within, or at the
/// end of, that line.
pub open spec fn valid_pos(ls: Seq<Seq<char>>, pos: Position) -> bool {
    pos.line < ls.len() && pos.column <= ls[pos.line as int].len()
}

/// The character offset, in `join_lines(ls)`, at which line `l` begins.
pub open spec fn line_start(ls: Seq<Seq<char>>, l: int) -> int {
    if l <= 0 {
        0
    } else {
        (join_lines(ls.take(l)).len() + 1) as int
    }
}

/// The character offset, in `join_lines(ls)`, of `pos`.
pub open spec fn char_offset(ls: Seq<Seq<char>>, pos: Position) -> int {
    line_start(ls, pos.line as int) + pos.column
}

/// The lines `parts` with `pre` put before the first and `suf` after the
/// last: what replaces one line split at a column when `parts` is spliced
/// in at that column.
pub open spec fn splice_parts(parts: Seq<Seq<char>>, pre: Seq<char>, suf: Seq<char>) -> Seq<
    Seq<char>,
> {
    if parts.len() == 1 {
        seq![pre + parts[0] + suf]
    } else {
        seq![pre + parts[0]] + parts.subrange(1, parts.len() - 1) + seq![parts.last() + suf]
    }
}

/// The lines after inserting the text `t` at `pos`: the line at `pos` is
/// split, and the lines of `t` are spliced in between its two halves.
pub open spec fn insert_lines(ls: Seq<Seq<char>>, pos: Position, t: Seq<char>) -> Seq<Seq<char>> {
    let l = pos.line as int;
    let line = ls[l];
    ls.take(l) + splice_parts(
        split_lines(t),
        line.take(pos.column as int),
        line.skip(pos.column as int),
    ) + ls.skip(l + 1)
}

/// The lines after removing the text between `a` and `b` (`a` not after
/// `b`): the part of `a`'s line before `a` and the part of `b`'s line after
/// `b` become one line, replacing every line from `a`'s to `b`'s.
pub open spec fn delete_lines(ls: Seq<Seq<char>>, a: Position, b: Position) -> Seq<Seq<char>> {
    ls.take(a.line as int) + seq![
        ls[a.line as int].take(a.column as int) + ls[b.line as int].skip(b.column as int),
    ] + ls.skip(b.line + 1)
}

/// Whether `a` comes strictly before `b` in reading order (line first,
/// then column).
pub open spec fn pos_lt(a: Position, b: Position) -> bool {
    a.line < b.line || (a.line == b.line && a.column < b.column)
}

/// Whether `a` comes before `b` or is `b`.
pub open spec fn pos_le(a: Position, b: Position) -> bool {
    !pos_lt(b, a)
}

/// The position just past `t` when `t` is inserted at `pos`: on the last
/// line `t` creates, after that line's inserted characters.
pub open spec fn end_of_insert(pos: Position, t: Seq<char>) -> Position {
    let parts = split_lines(t);
    if parts.len() == 1 {
        Position { line: pos.line, column: (pos.column + t.len()) as usize }
    } else {
        Position { line: (pos.line + parts.len() - 1) as usize, column: parts.last().len() as usize }
    }
}

/// The characters of `s` from `n` on, or none where `s` is shorter.
pub open spec fn skip_sat(s: Seq<char>, n: int) -> Seq<char> {
    if n <= s.len() {
        s.skip(n)
    } else {
        Seq::<char>::empty()
    }
}

/// The first `n` characters of `s`, or all of `s` where it is shorter.
pub open spec fn take_sat(s: Seq<char>, n: int) -> Seq<char> {
    if n <= s.len() {
        s.take(n)
    } else {
        s
    }
}

/// `'\n'` followed by line `l`, for every `l` from `lo` up to (not
/// including) `hi`, one after another; a line that `ls` lacks counts as
/// empty.
pub open spec fn middle_lines(ls: Seq<Seq<char>>, lo: int, hi: int) -> Seq<char>
    decreases hi - lo,
{
    if hi <= lo {
        Seq::<char>::empty()
    } else {
        middle_lines(ls, lo, hi - 1) + seq!['\n'] + line_or_empty(ls, hi - 1)
    }
}

/// The text between `a` and `b`, read line by line: the rest of `a`'s line
/// after `a`, every line in between, and the start of `b`'s line before
/// `b`, separated by `'\n'`. A missing line reads as empty.
pub open spec fn range_text(ls: Seq<Seq<char>>, a: Position, b: Position) -> Seq<char> {
    if a.line == b.line {
        take_sat(skip_sat(line_or_empty(ls, a.line as int), a.column as int), b.column - a.column)
    } else {
        skip_sat(line_or_empty(ls, a.line as int), a.column as int) + middle_lines(
            ls,
            a.line + 1,
            b.line as int,
        ) + seq!['\n'] + take_sat(line_or_empty(ls, b.line as int), b.column as int)
    }
}

/// The number of characters in all lines together, plus one `'\n'` between
/// each two of them.
pub open spec fn total_chars(ls: Seq<Seq<char>>) -> int {
    join_lines(ls).len() as int
}

// ===== Executable helpers =====

/// The characters of `s`, in order.
pub fn str_chars(s: &str) -> (out: Vec<char>)
    ensures
        out@ == s@,
{
    let mut out: Vec<char> = Vec::new();
    for c in it: s.chars()
        invariant
            out@ == it.seq().take(it.index() as int),
            it.seq() == s@,
    {
        out.push(c);
    }
    out
}

/// The number of characters (not bytes) in `s`.
pub fn char_count(s: &str) -> (n: usize)
    ensures
        n == s@.len(),
{
    s.unicode_len()
}

/// A copy of the characters of `v` from `lo` up to (not including) `hi`.
pub fn copy_range(v: &Vec<char>, lo: usize, hi: usize) -> (out: Vec<char>)
    requires
        lo <= hi <= v@.len(),
    ensures
        out@ == v@.subrange(lo as int, hi as int),
{
    let mut out: Vec<char> = Vec::new();
    let mut j: usize = lo;
    while j < hi
        invariant
            lo <= j <= hi <= v@.len(),
            out@ == v@.subrange(lo as int, j as int),
        decreases hi - j,
    {
        out.push(v[j]);
        proof {
            assert(v@.subrange(lo as int, j + 1) == v@.subrange(lo as int, j as int).push(
                v@[j as int],
            ));
        }
        j = j + 1;
    }
    out
}

/// A `String` holding exactly the characters `chars`.
///
/// Calls `FromIterator<&char>` for `String` (through `collect`), which std
/// documents as appending each character in turn.
#[verifier::external_body]
pub(crate) fn chars_to_string(chars: &[char]) -> (s: String)
    ensures
        s@ == chars@,
{
    chars.iter().collect()
}

/// The view of each line of `v`.
pub open spec fn lines_view(v: Seq<Vec<char>>) -> Seq<Seq<char>> {
    Seq::new(v.len(), |i: int| v[i]@)
}

/// `chars` split at every `'\n'`, as `split_lines` says.
pub fn split_chars(chars: &Vec<char>) -> (parts: Vec<Vec<char>>)
    ensures
        lines_view(parts@) == split_lines(chars@),
        parts@.len() >= 1,
{
    let mut parts: Vec<Vec<char>> = Vec::new();
    parts.push(Vec::new());
    let n = chars.len();
    let mut i: usize = 0;
    assert(chars@.take(0) == Seq::<char>::empty());
    assert(lines_view(parts@) =~= split_lines(chars@.take(0)));
    while i < n
        invariant
            n == chars@.len(),
            i <= n,
            parts@.len() >= 1,
            lines_view(parts@) == split_lines(chars@.take(i as int)),
        decreases n - i,
    {
        let c = chars[i];
        let ghost before = lines_view(parts@);
        assert(chars@.take(i + 1).drop_last() == chars@.take(i as int));
        assert(chars@.take(i + 1).last() == c);
        if c == '\n' {
            parts.push(Vec::new());
            assert(lines_view(parts@) =~= before.push(Seq::<char>::empty()));
        } else {
            let last = parts.len() - 1;
            parts[last].push(c);
            assert(lines_view(parts@) =~= before.update(last as int, before.last().push(c)));
        }
        i = i + 1;
    }
    assert(chars@.take(n as int) == chars@);
    parts
}

// ===== Lemmas on splitting and joining =====

/// Splitting always gives at least one part, and no part holds a `'\n'`.
pub proof fn lemma_split_wf(s: Seq<char>)
    ensures
        wf_lines(split_lines(s)),
    decreases s.len(),
{
    if s.len() > 0 {
        lemma_split_wf(s.drop_last());
        let prev = split_lines(s.drop_last());
        let cur = split_lines(s);
        if s.last() != '\n' {
            assert forall|i: int| 0 <= i < cur.len() implies #[trigger] lf_free(cur[i]) by {
                if i == prev.len() - 1 {
                    assert(lf_free(prev[i]));
                    assert(cur[i] == prev[i].push(s.last()));
                } else {
                    assert(lf_free(prev[i]));
                }
            }
        } else {
            assert forall|i: int| 0 <= i < cur.len() implies #[trigger] lf_free(cur[i]) by {
                if i < prev.len() {
                    assert(lf_free(prev[i]));
                }
            }
        }
    }
}

/// Joining the parts of a split gives the text back.
pub proof fn lemma_join_split(s: Seq<char>)
    ensures
        join_lines(split_lines(s)) == s,
    decreases s.len(),
{
    if s.len() > 0 {
        let p = s.drop_last();
        lemma_join_split(p);
        lemma_split_wf(p);
        let prev = split_lines(p);
        let cur = split_lines(s);
        if s.last() == '\n' {
            assert(cur.drop_last() == prev);
            assert(s == p + seq!['\n'] + Seq::<char>::empty());
        } else {
            if prev.len() == 1 {
                assert(cur[0] == prev[0].push(s.last()));
                assert(s == p.push(s.last()));
            } else {
                assert(cur.drop_last() == prev.drop_last());
                assert(p == join_lines(prev.drop_last()) + seq!['\n'] + prev.last());
                assert(s == p.push(s.last()));
                assert(s =~= join_lines(prev.drop_last()) + seq!['\n'] + prev.last().push(s.last()));
                assert(cur.last() == prev.last().push(s.last()));
            }
        }
    }
}

/// Joining two non-empty runs of lines puts one `'\n'` between them.
pub proof fn lemma_join_concat(a: Seq<Seq<char>>, b: Seq<Seq<char>>)
    requires
        a.len() >= 1,
        b.len() >= 1,
    ensures
        join_lines(a + b) == join_lines(a) + seq!['\n'] + join_lines(b),
    decreases b.len(),
{
    if b.len() == 1 {
        assert((a + b).drop_last() == a);
    } else {
        lemma_join_concat(a, b.drop_last());
        assert((a + b).drop_last() == a + b.drop_last());
        assert(join_lines(a + b) == join_lines(a + b.drop_last()) + seq!['\n'] + b.last());
        assert(join_lines(b) == join_lines(b.drop_last()) + seq!['\n'] + b.last());
    }
}

/// Splitting `a` followed by a `'\n'`-free `b` extends the last part of
/// `a`'s split by `b`.
pub proof fn lemma_split_append_free(a: Seq<char>, b: Seq<char>)
    requires
        lf_free(b),
    ensures
        split_lines(a + b) == split_lines(a).update(
            split_lines(a).len() - 1,
            split_lines(a).last() + b,
        ),
    decreases b.len(),
{
    lemma_split_wf(a);
    if b.len() == 0 {
        assert(a + b == a);
        assert(split_lines(a).last() + b == split_lines(a).last());
        assert(split_lines(a).update(split_lines(a).len() - 1, split_lines(a).last())
            == split_lines(a));
    } else {
        let b0 = b.drop_last();
        assert(lf_free(b0));
        lemma_split_append_free(a, b0);
        assert((a + b).drop_last() == a + b0);
        assert((a + b).last() == b.last());
        assert(b.last() != '\n');
        let sa = split_lines(a);
        let n = sa.len();
        let mid = split_lines(a + b0);
        assert(mid == sa.update(n - 1, sa.last() + b0));
        assert(mid.len() == n);
        assert(mid.last() == sa.last() + b0);
        assert(split_lines(a + b) == mid.update(n - 1, mid.last().push(b.last())));
        assert(mid.last().push(b.last()) =~= sa.last() + b);
        assert(split_lines(a + b) =~= sa.update(n - 1, sa.last() + b));
    }
}

/// Splitting `a`, a `'\n'`, then a `'\n'`-free `b` gives `a`'s parts and
/// then `b`.
pub proof fn lemma_split_newline_free(a: Seq<char>, b: Seq<char>)
    requires
        lf_free(b),
    ensures
        split_lines(a + seq!['\n'] + b) == split_lines(a).push(b),
{
    let an = a + seq!['\n'];
    assert(an.drop_last() == a);
    assert(split_lines(an) == split_lines(a).push(Seq::<char>::empty()));
    lemma_split_append_free(an, b);
    assert(Seq::<char>::empty() + b == b);
}

/// Splitting joined `'\n'`-free lines gives the lines back.
pub proof fn lemma_split_join(ls: Seq<Seq<char>>)
    requires
        wf_lines(ls),
    ensures
        split_lines(join_lines(ls)) == ls,
    decreases ls.len(),
{
    if ls.len() == 1 {
        assert(lf_free(ls[0]));
        lemma_split_append_free(Seq::<char>::empty(), ls[0]);
        assert(Seq::<char>::empty() + ls[0] == ls[0]);
        assert(split_lines(Seq::<char>::empty()) == seq![Seq::<char>::empty()]);
        assert(seq![Seq::<char>::empty()].update(0, Seq::<char>::empty() + ls[0]) == ls);
    } else {
        let init = ls.drop_last();
        assert(wf_lines(init)) by {
            assert forall|i: int| 0 <= i < init.len() implies #[trigger] lf_free(init[i]) by {
                assert(lf_free(ls[i]));
            }
        }
        lemma_split_join(init);
        assert(lf_free(ls.last())) by {
            assert(lf_free(ls[ls.len() - 1]));
        }
        lemma_split_newline_free(join_lines(init), ls.last());
        assert(init.push(ls.last()) == ls);
    }
}

/// Two documents with the same text have the same lines.
pub proof fn lemma_join_injective(a: Seq<Seq<char>>, b: Seq<Seq<char>>)
    requires
        wf_lines(a),
        wf_lines(b),
        join_lines(a) == join_lines(b),
    ensures
        a == b,
{
    lemma_split_join(a);
    lemma_split_join(b);
}

/// Joined `'\n'`-free lines have as many characters as the lines together,
/// plus one for each gap between two of them.
pub proof fn lemma_join_len_push(ls: Seq<Seq<char>>, l: Seq<char>)
    requires
        ls.len() >= 1,
    ensures
        join_lines(ls.push(l)).len() == join_lines(ls).len() + 1 + l.len(),
{
    assert(ls.push(l).drop_last() == ls);
}


/// The text before line `i`, with the `'\n'` that ends it (empty for the
/// first line).
pub open spec fn prefix_text(ls: Seq<Seq<char>>, i: int) -> Seq<char> {
    if i <= 0 {
        Seq::<char>::empty()
    } else {
        join_lines(ls.take(i)) + seq!['\n']
    }
}

/// The text from line `j` on, with the `'\n'` that starts it (empty when
/// there is no line `j`).
pub open spec fn suffix_text(ls: Seq<Seq<char>>, j: int) -> Seq<char> {
    if j >= ls.len() {
        Seq::<char>::empty()
    } else {
        seq!['\n'] + join_lines(ls.skip(j))
    }
}

/// Replacing lines `i` up to (not including) `j` by the non-empty `mid`
/// changes the text only between the text before line `i` and the text
/// from line `j` on.
pub proof fn lemma_join_replace(ls: Seq<Seq<char>>, i: int, j: int, mid: Seq<Seq<char>>)
    requires
        0 <= i <= j <= ls.len(),
        mid.len() >= 1,
    ensures
        join_lines(ls.take(i) + mid + ls.skip(j)) == prefix_text(ls, i) + join_lines(mid)
            + suffix_text(ls, j),
{
    let a = ls.take(i);
    let c = ls.skip(j);
    if i == 0 {
        assert(a + mid == mid);
        if j >= ls.len() {
            assert(mid + c == mid);
            assert(join_lines(mid) + Seq::<char>::empty() == join_lines(mid));
        } else {
            lemma_join_concat(mid, c);
        }
        assert(Seq::<char>::empty() + join_lines(mid) == join_lines(mid));
        assert(join_lines(mid) + suffix_text(ls, j) == Seq::<char>::empty() + join_lines(mid)
            + suffix_text(ls, j));
    } else {
        if j >= ls.len() {
            assert(c.len() == 0);
            assert(a + mid + c == a + mid);
            lemma_join_concat(a, mid);
            assert(join_lines(a) + seq!['\n'] + join_lines(mid) == prefix_text(ls, i)
                + join_lines(mid) + suffix_text(ls, j));
        } else {
            lemma_join_concat(mid, c);
            assert(a + mid + c == a + (mid + c));
            assert((mid + c).len() >= 1);
            lemma_join_concat(a, mid + c);
            assert(join_lines(a) + seq!['\n'] + (join_lines(mid) + seq!['\n'] + join_lines(c))
                == prefix_text(ls, i) + join_lines(mid) + suffix_text(ls, j));
        }
    }
}

/// The text of a document is the text before line `l`, line `l`, and the
/// text after it.
pub proof fn lemma_join_around(ls: Seq<Seq<char>>, l: int)
    requires
        0 <= l < ls.len(),
    ensures
        join_lines(ls) == prefix_text(ls, l) + ls[l] + suffix_text(ls, l + 1),
        line_start(ls, l) == prefix_text(ls, l).len(),
{
    lemma_join_replace(ls, l, l + 1, seq![ls[l]]);
    assert(ls.take(l) + seq![ls[l]] + ls.skip(l + 1) == ls);
}

/// Splicing the parts of a split `t` between `pre` and `suf` joins back to
/// `pre`, `t`, then `suf`.
pub proof fn lemma_join_splice(t: Seq<char>, pre: Seq<char>, suf: Seq<char>)
    ensures
        join_lines(splice_parts(split_lines(t), pre, suf)) == pre + t + suf,
        splice_parts(split_lines(t), pre, suf).len() == split_lines(t).len(),
{
    let parts = split_lines(t);
    lemma_split_wf(t);
    lemma_join_split(t);
    let n = parts.len();
    if n == 1 {
        assert(t == parts[0]);
    } else {
        let first = seq![pre + parts[0]];
        let midp = parts.subrange(1, n - 1);
        let last = seq![parts.last() + suf];
        let sp = splice_parts(parts, pre, suf);
        assert(sp == first + midp + last);
        // join(parts) == join(parts.drop_last()) + '\n' + parts.last()
        let init = parts.drop_last();
        assert(join_lines(parts) == join_lines(init) + seq!['\n'] + parts.last());
        // join(first + midp) == pre + join(init)
        lemma_join_prefix_first(init, pre);
        assert(init.update(0, pre + init[0]) == first + midp);
        lemma_join_concat(first + midp, last);
        assert(join_lines(last) == parts.last() + suf);
        assert(join_lines(sp) == pre + join_lines(init) + seq!['\n'] + (parts.last() + suf));
        assert(pre + t + suf =~= pre + join_lines(init) + seq!['\n'] + (parts.last() + suf));
    }
}

/// Putting `pre` in front of the first line puts it in front of the text.
pub proof fn lemma_join_prefix_first(ls: Seq<Seq<char>>, pre: Seq<char>)
    requires
        ls.len() >= 1,
    ensures
        join_lines(ls.update(0, pre + ls[0])) == pre + join_lines(ls),
    decreases ls.len(),
{
    let u = ls.update(0, pre + ls[0]);
    if ls.len() == 1 {
    } else {
        lemma_join_prefix_first(ls.drop_last(), pre);
        assert(u.drop_last() == ls.drop_last().update(0, pre + ls[0]));
        assert(u.last() == ls.last());
        assert(join_lines(u) == join_lines(u.drop_last()) + seq!['\n'] + u.last());
        assert(pre + join_lines(ls) =~= pre + join_lines(ls.drop_last()) + seq!['\n'] + ls.last());
    }
}

/// Inserting text at a valid position inserts it, in the document's text,
/// at that position's character offset.
pub proof fn lemma_insert_text(ls: Seq<Seq<char>>, pos: Position, t: Seq<char>)
    requires
        valid_pos(ls, pos),
    ensures
        join_lines(insert_lines(ls, pos, t)) == join_lines(ls).take(char_offset(ls, pos))
            + t + join_lines(ls).skip(char_offset(ls, pos)),
{
    let l = pos.line as int;
    let c = pos.column as int;
    let line = ls[l];
    let pre = line.take(c);
    let suf = line.skip(c);
    let mid = splice_parts(split_lines(t), pre, suf);
    lemma_join_splice(t, pre, suf);
    lemma_join_replace(ls, l, l + 1, mid);
    lemma_join_around(ls, l);
    let j = join_lines(ls);
    let o = char_offset(ls, pos);
    let p = prefix_text(ls, l);
    let q = suffix_text(ls, l + 1);
    assert(line == pre + suf);
    assert(j == p + pre + suf + q);
    assert(o == p.len() + pre.len());
    assert(j.take(o) =~= p + pre);
    assert(j.skip(o) =~= suf + q);
    assert(join_lines(insert_lines(ls, pos, t)) =~= p + (pre + t + suf) + q);
}

/// Deleting between two valid ordered positions removes, from the
/// document's text, the characters between their offsets.
pub proof fn lemma_delete_text(ls: Seq<Seq<char>>, a: Position, b: Position)
    requires
        valid_pos(ls, a),
        valid_pos(ls, b),
        pos_le(a, b),
    ensures
        join_lines(delete_lines(ls, a, b)) == join_lines(ls).take(char_offset(ls, a))
            + join_lines(ls).skip(char_offset(ls, b)),
        char_offset(ls, a) <= char_offset(ls, b),
{
    let la = a.line as int;
    let lb = b.line as int;
    let x = ls[la].take(a.column as int) + ls[lb].skip(b.column as int);
    lemma_join_replace(ls, la, lb + 1, seq![x]);
    lemma_join_around(ls, la);
    lemma_join_around(ls, lb);
    let j = join_lines(ls);
    let pa = prefix_text(ls, la);
    let pb = prefix_text(ls, lb);
    let qa = suffix_text(ls, la + 1);
    let qb = suffix_text(ls, lb + 1);
    let oa = char_offset(ls, a);
    let ob = char_offset(ls, b);
    assert(j == pa + ls[la] + qa);
    assert(j == pb + ls[lb] + qb);
    assert(ls[la] == ls[la].take(a.column as int) + ls[la].skip(a.column as int));
    assert(ls[lb] == ls[lb].take(b.column as int) + ls[lb].skip(b.column as int));
    assert(j.take(oa) =~= pa + ls[la].take(a.column as int));
    assert(j.skip(ob) =~= ls[lb].skip(b.column as int) + qb);
    if la < lb {
        lemma_line_start_mono(ls, la, lb);
    }
    assert(join_lines(delete_lines(ls, a, b)) =~= pa + x + qb);
}

/// Later lines start later: line `j` starts after all of line `i` and its
/// `'\n'`, for `i < j`.
pub proof fn lemma_line_start_mono(ls: Seq<Seq<char>>, i: int, j: int)
    requires
        0 <= i < j < ls.len(),
    ensures
        line_start(ls, i) + ls[i].len() + 1 <= line_start(ls, j),
    decreases j - i,
{
    lemma_join_around(ls, i);
    lemma_join_around(ls, j - 1);
    if j - 1 > i {
        lemma_line_start_mono(ls, i, j - 1);
    }
    // line_start(j) = |join(take(j))| + 1, and take(j) = take(j-1).push(ls[j-1])
    assert(ls.take(j) == ls.take(j - 1).push(ls[j - 1]));
    if j - 1 == 0 {
        assert(ls.take(1) == seq![ls[0]]);
    } else {
        lemma_join_len_push(ls.take(j - 1), ls[j - 1]);
    }
}


/// Concatenating `'\n'`-free sequences gives a `'\n'`-free sequence.
pub proof fn lemma_lf_free_concat(a: Seq<char>, b: Seq<char>)
    requires
        lf_free(a),
        lf_free(b),
    ensures
        lf_free(a + b),
{
    assert forall|i: int| 0 <= i < (a + b).len() implies (a + b)[i] != '\n' by {
        if i < a.len() {
            assert((a + b)[i] == a[i]);
        } else {
            assert((a + b)[i] == b[i - a.len()]);
        }
    }
}

/// Any part of a `'\n'`-free sequence is `'\n'`-free.
pub proof fn lemma_lf_free_subrange(a: Seq<char>, i: int, j: int)
    requires
        lf_free(a),
        0 <= i <= j <= a.len(),
    ensures
        lf_free(a.subrange(i, j)),
{
    assert forall|k: int| 0 <= k < a.subrange(i, j).len() implies a.subrange(i, j)[k] != '\n' by {
        assert(a.subrange(i, j)[k] == a[i + k]);
    }
}

/// Inserting text at a valid position keeps the document well formed.
pub proof fn lemma_insert_wf(ls: Seq<Seq<char>>, pos: Position, t: Seq<char>)
    requires
        wf_lines(ls),
        valid_pos(ls, pos),
    ensures
        wf_lines(insert_lines(ls, pos, t)),
{
    let l = pos.line as int;
    let line = ls[l];
    assert(lf_free(line));
    let pre = line.take(pos.column as int);
    let suf = line.skip(pos.column as int);
    lemma_lf_free_subrange(line, 0, pos.column as int);
    lemma_lf_free_subrange(line, pos.column as int, line.len() as int);
    assert(pre == line.subrange(0, pos.column as int));
    assert(suf == line.subrange(pos.column as int, line.len() as int));
    let sp = split_lines(t);
    lemma_split_wf(t);
    let mid = splice_parts(sp, pre, suf);
    assert(lines_lf_free(mid)) by {
        assert(lf_free(sp[0]));
        assert(lf_free(sp[sp.len() - 1]));
        lemma_lf_free_concat(pre, sp[0]);
        lemma_lf_free_concat(sp.last(), suf);
        lemma_lf_free_concat(pre + sp[0], suf);
        assert forall|k: int| 0 <= k < mid.len() implies #[trigger] lf_free(mid[k]) by {
            if sp.len() == 1 {
            } else if k == 0 {
            } else if k == mid.len() - 1 {
            } else {
                assert(mid[k] == sp[k]);
            }
        }
    }
    let r = insert_lines(ls, pos, t);
    assert forall|k: int| 0 <= k < r.len() implies #[trigger] lf_free(r[k]) by {
        if k < l {
            assert(r[k] == ls[k]);
        } else if k < l + mid.len() {
            assert(r[k] == mid[k - l]);
        } else {
            assert(r[k] == ls[k - mid.len() + 1]);
        }
    }
}

/// Deleting between two valid ordered positions keeps the document well
/// formed.
pub proof fn lemma_delete_wf(ls: Seq<Seq<char>>, a: Position, b: Position)
    requires
        wf_lines(ls),
        valid_pos(ls, a),
        valid_pos(ls, b),
        pos_le(a, b),
    ensures
        wf_lines(delete_lines(ls, a, b)),
{
    let la = ls[a.line as int];
    let lb = ls[b.line as int];
    assert(lf_free(la));
    assert(lf_free(lb));
    lemma_lf_free_subrange(la, 0, a.column as int);
    lemma_lf_free_subrange(lb, b.column as int, lb.len() as int);
    assert(la.take(a.column as int) == la.subrange(0, a.column as int));
    assert(lb.skip(b.column as int) == lb.subrange(b.column as int, lb.len() as int));
    lemma_lf_free_concat(la.take(a.column as int), lb.skip(b.column as int));
    let r = delete_lines(ls, a, b);
    assert forall|k: int| 0 <= k < r.len() implies #[trigger] lf_free(r[k]) by {
        if k < a.line {
            assert(r[k] == ls[k]);
        } else if k == a.line {
        } else {
            assert(r[k] == ls[k - a.line + b.line]);
        }
    }
}


/// A valid position's offset lies within the document's text.
pub proof fn lemma_offset_bound(ls: Seq<Seq<char>>, pos: Position)
    requires
        valid_pos(ls, pos),
    ensures
        0 <= char_offset(ls, pos) <= join_lines(ls).len(),
        char_offset(ls, pos) == prefix_text(ls, pos.line as int).len() + pos.column,
{
    lemma_join_around(ls, pos.line as int);
}


/// The lines `i` through `j` join to line `i`, the lines between, and
/// line `j`.
pub proof fn lemma_join_subrange(ls: Seq<Seq<char>>, i: int, j: int)
    requires
        0 <= i < j < ls.len(),
    ensures
        join_lines(ls.subrange(i, j + 1)) == ls[i] + middle_lines(ls, i + 1, j) + seq!['\n']
            + ls[j],
    decreases j - i,
{
    let sub = ls.subrange(i, j + 1);
    assert(sub.drop_last() == ls.subrange(i, j));
    assert(sub.last() == ls[j]);
    if j == i + 1 {
        assert(ls.subrange(i, j) == seq![ls[i]]);
        assert(middle_lines(ls, i + 1, j) == Seq::<char>::empty());
        assert(ls[i] + Seq::<char>::empty() == ls[i]);
    } else {
        lemma_join_subrange(ls, i, j - 1);
        assert(line_or_empty(ls, j - 1) == ls[j - 1]);
        assert(join_lines(sub) == join_lines(ls.subrange(i, j)) + seq!['\n'] + ls[j]);
        assert(join_lines(sub) =~= ls[i] + middle_lines(ls, i + 1, j) + seq!['\n'] + ls[j]);
    }
}

/// Law: the text between two valid ordered positions, read line by line,
/// is the document's text between their character offsets.
pub proof fn lemma_range_text_is_subrange(ls: Seq<Seq<char>>, a: Position, b: Position)
    requires
        valid_pos(ls, a),
        valid_pos(ls, b),
        pos_le(a, b),
    ensures
        char_offset(ls, a) <= char_offset(ls, b) <= join_lines(ls).len(),
        range_text(ls, a, b) == join_lines(ls).subrange(char_offset(ls, a), char_offset(ls, b)),
{
    lemma_delete_text(ls, a, b);
    lemma_offset_bound(ls, a);
    lemma_offset_bound(ls, b);
    let j = join_lines(ls);
    let la = a.line as int;
    let lb = b.line as int;
    let oa = char_offset(ls, a);
    let ob = char_offset(ls, b);
    lemma_join_around(ls, la);
    lemma_join_around(ls, lb);
    let pa = prefix_text(ls, la);
    let pb = prefix_text(ls, lb);
    if la == lb {
        assert(line_or_empty(ls, la) == ls[la]);
        assert(j == pa + ls[la] + suffix_text(ls, la + 1));
        assert(range_text(ls, a, b) =~= j.subrange(oa, ob));
    } else {
        let m = middle_lines(ls, la + 1, lb);
        lemma_join_subrange(ls, la, lb);
        lemma_join_replace(ls, la, lb + 1, ls.subrange(la, lb + 1));
        assert(ls.take(la) + ls.subrange(la, lb + 1) + ls.skip(lb + 1) == ls);
        let q = suffix_text(ls, lb + 1);
        assert(j == pa + (ls[la] + m + seq!['\n'] + ls[lb]) + q);
        assert(j == pb + ls[lb] + q);
        assert(pb.len() == pa.len() + ls[la].len() + m.len() + 1);
        assert(line_or_empty(ls, la) == ls[la]);
        assert(line_or_empty(ls, lb) == ls[lb]);
        assert forall|k: int| 0 <= k < ob - oa implies #[trigger] range_text(ls, a, b)[k]
            == j.subrange(oa, ob)[k] by {
            assert(j[oa + k] == (pa + (ls[la] + m + seq!['\n'] + ls[lb]) + q)[oa + k]);
        }
        assert(range_text(ls, a, b) =~= j.subrange(oa, ob));
    }
}

/// Law: deleting the text between two valid ordered positions and then
/// inserting, at the first of them, the text that was there gives the
/// original lines back.
pub proof fn lemma_reinsert_restores(ls: Seq<Seq<char>>, a: Position, b: Position)
    requires
        wf_lines(ls),
        valid_pos(ls, a),
        valid_pos(ls, b),
        pos_le(a, b),
    ensures
        valid_pos(delete_lines(ls, a, b), a),
        insert_lines(delete_lines(ls, a, b), a, range_text(ls, a, b)) == ls,
{
    let d = delete_lines(ls, a, b);
    let t = range_text(ls, a, b);
    lemma_delete_text(ls, a, b);
    lemma_delete_wf(ls, a, b);
    lemma_range_text_is_subrange(ls, a, b);
    let la = a.line as int;
    assert(d.take(la) == ls.take(la));
    assert(prefix_text(d, la) == prefix_text(ls, la));
    assert(char_offset(d, a) == char_offset(ls, a));
    assert(valid_pos(d, a));
    lemma_insert_text(d, a, t);
    lemma_insert_wf(d, a, t);
    let j = join_lines(ls);
    let oa = char_offset(ls, a);
    let ob = char_offset(ls, b);
    let jd = join_lines(d);
    assert(jd == j.take(oa) + j.skip(ob));
    assert(jd.take(oa) =~= j.take(oa));
    assert(jd.skip(oa) =~= j.skip(ob));
    assert(jd.take(oa) + t + jd.skip(oa) =~= j);
    lemma_join_injective(insert_lines(d, a, t), ls);
}

/// The text of the first `k` lines has the length of those lines plus one
/// `'\n'` between each two.
pub proof fn lemma_join_len_prefix(ls: Seq<Seq<char>>, k: int)
    requires
        1 <= k <= ls.len(),
    ensures
        k >= 2 ==> join_lines(ls.take(k)).len() == join_lines(ls.take(k - 1)).len() + 1 + ls[k
            - 1].len(),
        k == 1 ==> join_lines(ls.take(k)).len() == ls[0].len(),
{
    if k >= 2 {
        assert(ls.take(k) == ls.take(k - 1).push(ls[k - 1]));
        lemma_join_len_push(ls.take(k - 1), ls[k - 1]);
    } else {
        assert(ls.take(1) == seq![ls[0]]);
    }
}

/// The text of a prefix of the lines is no longer than the whole text.
pub proof fn lemma_join_len_mono(ls: Seq<Seq<char>>, k: int)
    requires
        1 <= k <= ls.len(),
    ensures
        join_lines(ls.take(k)).len() <= join_lines(ls).len(),
    decreases ls.len() - k,
{
    if k == ls.len() {
        assert(ls.take(k) == ls);
    } else {
        lemma_join_len_mono(ls, k + 1);
        lemma_join_len_prefix(ls, k + 1);
    }
}

// ===== Counting line breaks =====

/// The number of `'\n'`s in `s`.
pub open spec fn count_lf(s: Seq<char>) -> nat
    decreases s.len(),
{
    if s.len() == 0 {
        0
    } else {
        count_lf(s.drop_last()) + if s.last() == '\n' {
            1nat
        } else {
            0nat
        }
    }
}

/// A text splits into one more line than it has `'\n'`s.
pub proof fn lemma_split_len(s: Seq<char>)
    ensures
        split_lines(s).len() == count_lf(s) + 1,
    decreases s.len(),
{
    if s.len() > 0 {
        lemma_split_len(s.drop_last());
    }
}

/// A text has no more `'\n'`s than characters.
pub proof fn lemma_count_lf_le(s: Seq<char>)
    ensures
        count_lf(s) <= s.len(),
    decreases s.len(),
{
    if s.len() > 0 {
        lemma_count_lf_le(s.drop_last());
    }
}

/// The `'\n'`s of two texts put together are those of each.
pub proof fn lemma_count_lf_concat(a: Seq<char>, b: Seq<char>)
    ensures
        count_lf(a + b) == count_lf(a) + count_lf(b),
    decreases b.len(),
{
    if b.len() == 0 {
        assert(a + b == a);
    } else {
        lemma_count_lf_concat(a, b.drop_last());
        assert((a + b).drop_last() == a + b.drop_last());
    }
}

/// Dropping the last character of a text moves no line start before its
/// last `'\n'`.
pub proof fn lemma_line_start_drop_last(s: Seq<char>, k: int)
    requires
        s.len() > 0,
        0 <= k <= count_lf(s.drop_last()),
    ensures
        line_start(split_lines(s), k) == line_start(split_lines(s.drop_last()), k),
{
    let prev = split_lines(s.drop_last());
    let cur = split_lines(s);
    lemma_split_len(s.drop_last());
    if k > 0 {
        assert(cur.take(k) == prev.take(k));
    }
}

/// In a text ending with `'\n'`, the line after that `'\n'` starts at the
/// end of the text.
pub proof fn lemma_line_start_after_lf(s: Seq<char>)
    requires
        s.len() > 0,
        s.last() == '\n',
    ensures
        line_start(split_lines(s), count_lf(s) as int) == s.len(),
{
    let p = s.drop_last();
    let prev = split_lines(p);
    lemma_split_len(p);
    lemma_join_split(p);
    assert(split_lines(s).take(prev.len() as int) == prev);
}

/// Line `k` of `a` followed by `b` starts where line `k` of `a` does, for
/// the lines that start within `a`.
pub proof fn lemma_line_start_prefix(a: Seq<char>, b: Seq<char>, k: int)
    requires
        0 <= k <= count_lf(a),
    ensures
        line_start(split_lines(a + b), k) == line_start(split_lines(a), k),
    decreases b.len(),
{
    if b.len() == 0 {
        assert(a + b == a);
    } else {
        let b0 = b.drop_last();
        lemma_line_start_prefix(a, b0, k);
        assert((a + b).drop_last() == a + b0);
        lemma_count_lf_concat(a, b0);
        lemma_line_start_drop_last(a + b, k);
    }
}

/// Line `k` of `a` followed by `b` starts, for the lines that start within
/// `b`, at the length of `a` plus where the matching line of `b` starts.
pub proof fn lemma_line_start_suffix(a: Seq<char>, b: Seq<char>, k: int)
    requires
        count_lf(a) < k <= count_lf(a + b),
    ensures
        line_start(split_lines(a + b), k) == a.len() + line_start(
            split_lines(b),
            k - count_lf(a),
        ),
    decreases b.len(),
{
    lemma_count_lf_concat(a, b);
    if b.len() == 0 {
        assert(a + b == a);
    } else {
        let b0 = b.drop_last();
        assert((a + b).drop_last() == a + b0);
        assert((a + b).last() == b.last());
        lemma_count_lf_concat(a, b0);
        if k <= count_lf(a + b0) {
            lemma_line_start_suffix(a, b0, k);
            lemma_line_start_drop_last(a + b, k);
            lemma_line_start_drop_last(b, k - count_lf(a));
        } else {
            lemma_line_start_after_lf(a + b);
            lemma_line_start_after_lf(b);
        }
    }
}

/// Where line `i` lies in the text: it starts at its line start, is
/// followed by the `'\n'` before the next line start, or ends the text.
pub proof fn lemma_line_span(ls: Seq<Seq<char>>, i: int)
    requires
        0 <= i < ls.len(),
    ensures
        0 <= line_start(ls, i),
        line_start(ls, i) + ls[i].len() <= join_lines(ls).len(),
        join_lines(ls).subrange(line_start(ls, i), line_start(ls, i) + ls[i].len()) == ls[i],
        i + 1 < ls.len() ==> line_start(ls, i + 1) == line_start(ls, i) + ls[i].len() + 1,
        i + 1 == ls.len() ==> line_start(ls, i) + ls[i].len() == join_lines(ls).len(),
{
    lemma_join_around(ls, i);
    let p = prefix_text(ls, i);
    let q = suffix_text(ls, i + 1);
    assert((p + ls[i] + q).subrange(p.len() as int, p.len() + ls[i].len() as int) == ls[i]);
    if i + 1 < ls.len() {
        lemma_join_len_prefix(ls, i + 1);
    }
}

/// A document has at most one more line than it has characters.
pub proof fn lemma_line_count_bound(ls: Seq<Seq<char>>)
    requires
        ls.len() >= 1,
    ensures
        ls.len() <= join_lines(ls).len() + 1,
    decreases ls.len(),
{
    if ls.len() > 1 {
        lemma_line_count_bound(ls.drop_last());
        lemma_join_len_push(ls.drop_last(), ls.last());
        assert(ls.drop_last().push(ls.last()) == ls);
    }
}

/// Where the end of an insert lands, in numbers.
pub proof fn lemma_end_of_insert_value(ls: Seq<Seq<char>>, p: Position, t: Seq<char>)
    requires
        valid_pos(ls, p),
        join_lines(ls).len() + t.len() <= usize::MAX,
    ensures
        split_lines(t).len() == 1 ==> end_of_insert(p, t).line == p.line && end_of_insert(
            p,
            t,
        ).column == p.column + t.len(),
        split_lines(t).len() > 1 ==> end_of_insert(p, t).line == p.line + split_lines(t).len()
            - 1 && end_of_insert(p, t).column == split_lines(t).last().len(),
        p.line + split_lines(t).len() - 1 <= usize::MAX,
{
    let parts = split_lines(t);
    lemma_split_wf(t);
    lemma_join_split(t);
    lemma_line_count_bound(parts);
    lemma_line_count_bound(ls);
    lemma_offset_bound(ls, p);
    lemma_join_around(ls, p.line as int);
    if parts.len() > 1 {
        let init = parts.drop_last();
        assert(init.push(parts.last()) == parts);
        lemma_join_len_push(init, parts.last());
    }
}

/// Law: inserting `t` at a valid position and then deleting from that
/// position to the end of what was inserted gives the original lines back;
/// the text read between those two positions is `t`.
#[verifier::rlimit(50)]
pub proof fn lemma_insert_then_delete(ls: Seq<Seq<char>>, p: Position, t: Seq<char>)
    requires
        wf_lines(ls),
        valid_pos(ls, p),
        join_lines(ls).len() + t.len() <= usize::MAX,
    ensures
        valid_pos(insert_lines(ls, p, t), p),
        valid_pos(insert_lines(ls, p, t), end_of_insert(p, t)),
        pos_le(p, end_of_insert(p, t)),
        char_offset(insert_lines(ls, p, t), p) == char_offset(ls, p),
        char_offset(insert_lines(ls, p, t), end_of_insert(p, t)) == char_offset(ls, p) + t.len(),
        range_text(insert_lines(ls, p, t), p, end_of_insert(p, t)) == t,
        delete_lines(insert_lines(ls, p, t), p, end_of_insert(p, t)) == ls,
{
    let l = p.line as int;
    let c = p.column as int;
    let line = ls[l];
    let pre = line.take(c);
    let suf = line.skip(c);
    let parts = split_lines(t);
    let n = parts.len() as int;
    let sp = splice_parts(parts, pre, suf);
    let i = insert_lines(ls, p, t);
    let e = end_of_insert(p, t);
    lemma_split_wf(t);
    lemma_join_split(t);
    lemma_join_splice(t, pre, suf);
    lemma_insert_text(ls, p, t);
    lemma_insert_wf(ls, p, t);
    lemma_offset_bound(ls, p);
    lemma_join_around(ls, l);
    lemma_end_of_insert_value(ls, p, t);
    let j = join_lines(ls);
    let ji = join_lines(i);
    let o = char_offset(ls, p);
    assert(i.len() == ls.len() + n - 1);
    assert(i.take(l) == ls.take(l));
    assert(prefix_text(i, l) == prefix_text(ls, l));
    assert(i[l] == sp[0]);
    assert(valid_pos(i, p)) by {
        if n == 1 {
            assert(sp[0] == pre + parts[0] + suf);
        } else {
            assert(sp[0] == pre + parts[0]);
        }
    }
    assert(char_offset(i, p) == o);
    assert(j == prefix_text(ls, l) + (pre + suf) + suffix_text(ls, l + 1)) by {
        assert(line =~= pre + suf);
    }
    if n == 1 {
        assert(t == parts[0]);
        assert(i[l] == pre + t + suf);
        assert(e.line == p.line && e.column == c + t.len());
        assert(valid_pos(i, e));
        assert(char_offset(i, e) == o + t.len());
    } else {
        let el = l + n - 1;
        assert(e.line == el);
        assert(i[el] == sp[n - 1]);
        assert(sp[n - 1] == parts.last() + suf);
        assert(valid_pos(i, e));
        assert(i.skip(el + 1) == ls.skip(l + 1));
        assert(suffix_text(i, el + 1) == suffix_text(ls, l + 1));
        lemma_join_around(i, el);
        assert(ji == prefix_text(i, el) + i[el] + suffix_text(i, el + 1));
        assert(ji.len() == j.len() + t.len());
        assert(char_offset(i, e) == o + t.len());
    }
    lemma_range_text_is_subrange(i, p, e);
    assert(ji.subrange(o, o + t.len()) =~= t);
    lemma_delete_text(i, p, e);
    lemma_delete_wf(i, p, e);
    assert(ji.take(o) + ji.skip(o + t.len()) =~= j);
    lemma_join_injective(delete_lines(i, p, e), ls);
}


/// Splicing a text's parts with nothing before and after gives its parts.
pub proof fn lemma_splice_empty_ends(t: Seq<char>)
    ensures
        splice_parts(split_lines(t), Seq::<char>::empty(), Seq::<char>::empty()) == split_lines(t),
{
    let parts = split_lines(t);
    lemma_split_wf(t);
    let e = Seq::<char>::empty();
    assert(e + parts[0] == parts[0]);
    assert(parts.last() + e == parts.last());
    assert(e + parts[0] + e == parts[0]);
    if parts.len() == 1 {
        assert(seq![parts[0]] =~= parts);
    } else {
        assert(seq![parts[0]] + parts.subrange(1, parts.len() - 1) + seq![parts.last()] =~= parts);
    }
}

} // verus!
