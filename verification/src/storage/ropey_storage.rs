//! A [`TextStorage`] backend wrapping [`ropey::Rope`], a production rope
//! implementation used by real text editors.
//!
//! One behavioral difference is worth calling out: `ropey` splits lines
//! according to the Unicode line-breaking rules, which treat `"\r\n"`,
//! `'\r'`, `'\u{0B}'` (vertical tab), `'\u{0C}'` (form feed), `'\u{85}'`
//! (NEL), `'\u{2028}'` (line separator) and `'\u{2029}'` (paragraph
//! separator) as line boundaries in addition to plain `'\n'`. The other
//! backends only ever split on `'\n'`. For ordinary LF-only text this is
//! unobservable; a file holding a bare `'\r'` or one of the rarer Unicode
//! separators has more lines here than under the other two backends.

use vstd::prelude::*;
use vstd::slice::slice_subrange;

use ropey::Rope;

use crate::error::BufferError;
use crate::position::{normalize, Position, Range};
use crate::storage::TextStorage;
use crate::text::{
    chars_to_string, count_lf, end_of_insert, lemma_count_lf_le, lemma_join_split,
    lemma_line_span, lemma_line_start_after_lf, lemma_line_start_drop_last, lemma_split_len,
    lemma_split_wf, lf_free, line_start, pos_le, split_lines, valid_pos, wf_lines,
};

verus! {

/// `ropey`'s rope type, carried opaquely; what it holds is [`rope_chars`].
#[verifier::external_type_specification]
#[verifier::external_body]
pub struct ExRope(Rope);

/// The characters a `ropey::Rope` holds, in order.
pub uninterp spec fn rope_chars(r: Rope) -> Seq<char>;

// ===== Line breaks as `ropey` counts them =====

/// Whether `c` is one of the characters `ropey` (with its default
/// `unicode_lines` feature) takes as a line break: LF, VT, FF, CR, NEL,
/// LINE SEPARATOR and PARAGRAPH SEPARATOR.
pub open spec fn is_break_char(c: char) -> bool {
    c == '\n' || c == '\u{0B}' || c == '\u{0C}' || c == '\r' || c == '\u{85}' || c == '\u{2028}'
        || c == '\u{2029}'
}

/// Whether a line break of `t` ends at index `i`: a break character there,
/// other than a CR directly followed by an LF (a CRLF pair is one break,
/// ending at its LF).
pub open spec fn break_ends_at(t: Seq<char>, i: int) -> bool {
    &&& 0 <= i < t.len()
    &&& is_break_char(t[i])
    &&& !(t[i] == '\r' && i + 1 < t.len() && t[i + 1] == '\n')
}

/// The number of line breaks of `t` that end before index `n`.
pub open spec fn breaks_before(t: Seq<char>, n: int) -> nat
    decreases n,
{
    if n <= 0 {
        0
    } else {
        breaks_before(t, n - 1) + if break_ends_at(t, n - 1) {
            1nat
        } else {
            0nat
        }
    }
}

/// The number of lines of `t`: one more than its line breaks.
pub open spec fn ropey_line_count(t: Seq<char>) -> nat {
    breaks_before(t, t.len() as int) + 1
}

/// Whether line `k` of `t` starts at index `s`: line 0 at the start, every
/// other line just after the line break that ends the one before it, and
/// the line one past the last at the end of the text.
pub open spec fn is_line_start(t: Seq<char>, k: int, s: int) -> bool {
    if k == 0 {
        s == 0
    } else if k == ropey_line_count(t) {
        s == t.len()
    } else {
        &&& 0 < s <= t.len()
        &&& break_ends_at(t, s - 1)
        &&& breaks_before(t, s) == k
    }
}

/// The index at which line `k` of `t` starts (see [`is_line_start`]).
pub open spec fn ropey_line_start(t: Seq<char>, k: int) -> int {
    choose|s: int| is_line_start(t, k, s)
}

/// Line `k` of `t` as `ropey` hands it out: its text with the line break
/// that ends it, if any.
pub open spec fn raw_line(t: Seq<char>, k: int) -> Seq<char> {
    t.subrange(ropey_line_start(t, k), ropey_line_start(t, k + 1))
}

/// The length of the line break that `raw` ends with, or 0 if it ends
/// with none: 2 for a CRLF pair, 1 for any other break.
pub open spec fn terminator_spec(raw: Seq<char>) -> int {
    let n = raw.len();
    if n == 0 {
        0
    } else if raw[n - 1] == '\n' {
        if n >= 2 && raw[n - 2] == '\r' {
            2
        } else {
            1
        }
    } else if is_break_char(raw[n - 1]) {
        1
    } else {
        0
    }
}

/// The content of line `k` of `t`: its raw text without its line break
/// (the last line has none).
pub open spec fn line_content(t: Seq<char>, k: int) -> Seq<char> {
    let raw = raw_line(t, k);
    if k + 1 == ropey_line_count(t) {
        raw
    } else {
        raw.take(raw.len() - terminator_spec(raw))
    }
}

/// The content lines of `t`.
pub open spec fn ropey_lines(t: Seq<char>) -> Seq<Seq<char>> {
    Seq::new(ropey_line_count(t), |k: int| line_content(t, k))
}

/// Breaks ending before a later index are at least as many.
proof fn lemma_breaks_mono(t: Seq<char>, a: int, b: int)
    requires
        a <= b,
    ensures
        breaks_before(t, a) <= breaks_before(t, b),
    decreases b - a,
{
    if a < b {
        lemma_breaks_mono(t, a, b - 1);
    }
}

/// There are no more breaks before `n` than indices.
proof fn lemma_breaks_le(t: Seq<char>, n: int)
    requires
        n >= 0,
    ensures
        breaks_before(t, n) <= n,
    decreases n,
{
    if n > 0 {
        lemma_breaks_le(t, n - 1);
    }
}

/// Where at least `k` breaks end before `n`, line `k` starts within `n`.
proof fn lemma_find_start(t: Seq<char>, k: int, n: int) -> (s: int)
    requires
        0 < k,
        0 <= n <= t.len(),
        breaks_before(t, n) >= k,
    ensures
        0 < s <= n,
        break_ends_at(t, s - 1),
        breaks_before(t, s) == k,
    decreases n,
{
    if breaks_before(t, n - 1) >= k {
        lemma_find_start(t, k, n - 1)
    } else {
        n
    }
}

/// Each line of `t`, and the one past the last, has exactly one start.
proof fn lemma_line_start(t: Seq<char>, k: int)
    requires
        0 <= k <= ropey_line_count(t),
    ensures
        is_line_start(t, k, ropey_line_start(t, k)),
        forall|s: int| is_line_start(t, k, s) ==> s == ropey_line_start(t, k),
        0 <= ropey_line_start(t, k) <= t.len(),
{
    if 0 < k < ropey_line_count(t) {
        let s = lemma_find_start(t, k, t.len() as int);
        assert(is_line_start(t, k, s));
    } else if k == 0 {
        assert(is_line_start(t, k, 0));
    } else {
        assert(is_line_start(t, k, t.len() as int));
    }
    let c = ropey_line_start(t, k);
    assert forall|s: int| is_line_start(t, k, s) implies s == c by {
        if 0 < k < ropey_line_count(t) {
            if s < c {
                lemma_breaks_mono(t, s, c - 1);
            } else if c < s {
                lemma_breaks_mono(t, c, s - 1);
            }
        }
    }
}

/// Later lines start no earlier.
proof fn lemma_line_start_mono(t: Seq<char>, i: int, j: int)
    requires
        0 <= i <= j <= ropey_line_count(t),
    ensures
        ropey_line_start(t, i) <= ropey_line_start(t, j),
{
    lemma_line_start(t, i);
    lemma_line_start(t, j);
    if i < j && 0 < i && j < ropey_line_count(t) {
        let si = ropey_line_start(t, i);
        let sj = ropey_line_start(t, j);
        if sj < si {
            lemma_breaks_mono(t, sj, si);
        }
    }
}

/// What holds of the lines of any text.
proof fn lemma_lines_shape(t: Seq<char>)
    ensures
        ropey_lines(t).len() == ropey_line_count(t),
        ropey_line_count(t) <= t.len() + 1,
        ropey_line_start(t, 0) == 0,
        forall|k: int|
            0 <= k < ropey_line_count(t) ==> 0 <= #[trigger] ropey_line_start(t, k)
                && ropey_line_start(t, k) + ropey_lines(t)[k].len() <= ropey_line_start(t, k + 1)
                <= t.len(),
{
    lemma_breaks_le(t, t.len() as int);
    lemma_line_start(t, 0);
    assert forall|k: int| 0 <= k < ropey_line_count(t) implies 0 <= #[trigger] ropey_line_start(t, k)
        && ropey_line_start(t, k) + ropey_lines(t)[k].len() <= ropey_line_start(t, k + 1)
        <= t.len() by {
        lemma_line_start(t, k);
        lemma_line_start(t, k + 1);
        lemma_line_start_mono(t, k, k + 1);
    }
}

/// A valid position's line has one start, and the position's offset lies
/// within the text.
proof fn lemma_offset_fits(t: Seq<char>, pos: Position)
    requires
        valid_pos(ropey_lines(t), pos),
    ensures
        forall|s: int| is_line_start(t, pos.line as int, s) ==> s == ropey_line_start(t, pos.line as int),
        0 <= ropey_line_start(t, pos.line as int),
        ropey_line_start(t, pos.line as int) + pos.column <= t.len(),
{
    lemma_lines_shape(t);
    lemma_line_start(t, pos.line as int);
    assert(0 <= ropey_line_start(t, pos.line as int));
}

/// Positions in reading order have offsets in the same order.
proof fn lemma_offset_order(t: Seq<char>, a: Position, b: Position)
    requires
        valid_pos(ropey_lines(t), a),
        valid_pos(ropey_lines(t), b),
        pos_le(a, b),
    ensures
        ropey_line_start(t, a.line as int) + a.column <= ropey_line_start(t, b.line as int)
            + b.column,
{
    lemma_lines_shape(t);
    if a.line < b.line {
        assert(0 <= ropey_line_start(t, a.line as int));
        lemma_line_start_mono(t, a.line + 1, b.line as int);
    }
}

// ===== Agreement with the '\n'-splitting backends =====

/// Whether `t` holds no line break other than `'\n'`.
pub open spec fn lf_only(t: Seq<char>) -> bool {
    forall|i: int| 0 <= i < t.len() ==> (is_break_char(#[trigger] t[i]) ==> t[i] == '\n')
}

/// In a text with no break but `'\n'`, the breaks before `n` are its
/// `'\n'`s.
proof fn lemma_breaks_are_lfs(t: Seq<char>, n: int)
    requires
        lf_only(t),
        0 <= n <= t.len(),
    ensures
        breaks_before(t, n) == count_lf(t.take(n)),
    decreases n,
{
    if n > 0 {
        lemma_breaks_are_lfs(t, n - 1);
        assert(t.take(n).drop_last() == t.take(n - 1));
        assert(is_break_char(t[n - 1]) ==> t[n - 1] == '\n');
    }
}

/// Each line after the first of the `'\n'`-split of `t` starts just after
/// a `'\n'`, with as many `'\n'`s before it as its index.
proof fn lemma_split_start_after_lf(t: Seq<char>, k: int)
    requires
        0 < k <= count_lf(t),
    ensures
        0 < line_start(split_lines(t), k) <= t.len(),
        t[line_start(split_lines(t), k) - 1] == '\n',
        count_lf(t.take(line_start(split_lines(t), k))) == k,
    decreases t.len(),
{
    let p = t.drop_last();
    if k <= count_lf(p) {
        lemma_split_start_after_lf(p, k);
        lemma_line_start_drop_last(t, k);
        let s = line_start(split_lines(t), k);
        assert(t.take(s) == p.take(s));
    } else {
        lemma_line_start_after_lf(t);
        assert(t.take(t.len() as int) == t);
    }
}

/// Law: on text whose only line breaks are `'\n'`, [`RopeyStorage`] sees
/// the same lines as the backends that split on `'\n'` alone.
pub proof fn lemma_ropey_lines_agree(t: Seq<char>)
    requires
        lf_only(t),
    ensures
        ropey_lines(t) == split_lines(t),
        forall|k: int|
            0 <= k < ropey_line_count(t) ==> #[trigger] ropey_line_start(t, k) == line_start(
                split_lines(t),
                k,
            ),
{
    let ls = split_lines(t);
    let n = ropey_line_count(t);
    lemma_breaks_are_lfs(t, t.len() as int);
    assert(t.take(t.len() as int) == t);
    lemma_split_len(t);
    lemma_join_split(t);
    assert(n == ls.len());
    // Each line starts where the split says it does.
    assert forall|k: int| 0 <= k <= n implies ropey_line_start(t, k) == (if k < n {
        line_start(ls, k)
    } else {
        t.len() as int
    }) by {
        lemma_line_start(t, k);
        if 0 < k < n {
            lemma_split_start_after_lf(t, k);
            let s = line_start(ls, k);
            lemma_breaks_are_lfs(t, s);
            assert(break_ends_at(t, s - 1));
            assert(is_line_start(t, k, s));
        } else if k == 0 {
            assert(is_line_start(t, 0, 0));
        } else {
            assert(is_line_start(t, k, t.len() as int));
        }
    }
    assert forall|k: int| 0 <= k < n implies #[trigger] ropey_lines(t)[k] == ls[k] by {
        lemma_line_span(ls, k);
        let a = ropey_line_start(t, k);
        let b = ropey_line_start(t, k + 1);
        let raw = raw_line(t, k);
        assert(a == line_start(ls, k));
        if k + 1 < n {
            assert(b == line_start(ls, k + 1));
            assert(b == a + ls[k].len() + 1);
            lemma_split_start_after_lf(t, k + 1);
            assert(raw.len() == ls[k].len() + 1);
            assert(raw[raw.len() - 1] == '\n');
            if raw.len() >= 2 {
                assert(raw[raw.len() - 2] == t[b - 2]);
                assert(is_break_char('\r'));
            }
            assert(terminator_spec(raw) == 1);
            assert(raw.take(raw.len() - 1) == t.subrange(a, a + ls[k].len()));
        } else {
            assert(b == t.len());
            assert(raw == t.subrange(a, a + ls[k].len()));
        }
    }
    assert(ropey_lines(t) =~= ls);
}

/// Between the start of line `k` and the start of the line after it, the
/// only line break that ends is the one ending line `k`.
proof fn lemma_no_inner_break(t: Seq<char>, k: int, p: int)
    requires
        0 <= k < ropey_line_count(t),
        ropey_line_start(t, k) <= p,
        p + 1 < ropey_line_start(t, k + 1) || (k + 1 == ropey_line_count(t) && p < t.len()),
    ensures
        !break_ends_at(t, p),
{
    lemma_line_start(t, k);
    lemma_line_start(t, k + 1);
    let a = ropey_line_start(t, k);
    let b = ropey_line_start(t, k + 1);
    assert(breaks_before(t, a) == k) by {
        if k == 0 {
            assert(a == 0);
        }
    }
    if break_ends_at(t, p) {
        lemma_breaks_mono(t, a, p);
        assert(breaks_before(t, p + 1) == breaks_before(t, p) + 1);
        if k + 1 < ropey_line_count(t) {
            lemma_breaks_mono(t, p + 1, b - 1);
        } else {
            lemma_breaks_mono(t, p + 1, t.len() as int);
        }
    }
}

/// Where no line break ends between `x` and `y`, as many end before `y`
/// as before `x`.
proof fn lemma_breaks_const(t: Seq<char>, x: int, y: int)
    requires
        0 <= x <= y,
        forall|i: int| x <= i < y ==> !#[trigger] break_ends_at(t, i),
    ensures
        breaks_before(t, y) == breaks_before(t, x),
    decreases y - x,
{
    if x < y {
        lemma_breaks_const(t, x, y - 1);
        assert(!break_ends_at(t, y - 1));
    }
}

/// Where the breaks of `u`, shifted by `d`, end just where those of `t` do
/// between `x` and `y`, both texts gain as many breaks over that stretch.
proof fn lemma_breaks_agree(t: Seq<char>, u: Seq<char>, d: int, x: int, y: int)
    requires
        0 <= x <= y,
        0 <= x + d,
        forall|i: int| x <= i < y ==> break_ends_at(u, i + d) == #[trigger] break_ends_at(t, i),
    ensures
        breaks_before(u, y + d) - breaks_before(u, x + d) == breaks_before(t, y) - breaks_before(
            t,
            x,
        ),
    decreases y - x,
{
    if x < y {
        lemma_breaks_agree(t, u, d, x, y - 1);
        assert(break_ends_at(u, y - 1 + d) == break_ends_at(t, y - 1));
        assert(y + d - 1 == y - 1 + d);
    }
}

/// Over a stretch of `t2` that holds `s`, a text whose only breaks are
/// `'\n'`s, the breaks gained are the `'\n'`s of `s`.
proof fn lemma_breaks_in_insert(t2: Seq<char>, o: int, s: Seq<char>, k: int)
    requires
        0 <= o,
        o + s.len() <= t2.len(),
        forall|i: int| 0 <= i < s.len() ==> t2[o + i] == #[trigger] s[i],
        lf_only(s),
        0 <= k <= s.len(),
    ensures
        breaks_before(t2, o + k) == breaks_before(t2, o) + count_lf(s.take(k)),
    decreases k,
{
    if k > 0 {
        lemma_breaks_in_insert(t2, o, s, k - 1);
        assert(s.take(k).drop_last() =~= s.take(k - 1));
        assert(t2[o + k - 1] == s[k - 1]);
        assert(o + k - 1 + 1 == o + k);
    }
}

/// Where line `k` of `t` starts (`a`), where its content ends (`e`) and
/// where the next line starts (`b`); a line other than the last ends in a
/// line break: one break character at `e`, or a CRLF pair at `e`.
proof fn lemma_line_parts(t: Seq<char>, k: int)
    requires
        0 <= k < ropey_line_count(t),
    ensures
        ({
            let a = ropey_line_start(t, k);
            let b = ropey_line_start(t, k + 1);
            let e = a + ropey_lines(t)[k].len();
            &&& 0 <= a <= e <= b <= t.len()
            &&& k + 1 == ropey_line_count(t) ==> e == t.len()
            &&& k + 1 < ropey_line_count(t) ==> e < b && is_break_char(t[e]) && (e + 1 < b ==> e
                + 2 == b && t[e] == '\r' && t[e + 1] == '\n') && (e + 1 == b ==> !(a < e && t[e
                - 1] == '\r' && t[e] == '\n'))
        }),
{
    lemma_line_start(t, k);
    lemma_line_start(t, k + 1);
    lemma_line_start_mono(t, k, k + 1);
    let a = ropey_line_start(t, k);
    let b = ropey_line_start(t, k + 1);
    let raw = raw_line(t, k);
    let term = terminator_spec(raw);
    assert(ropey_lines(t)[k] == line_content(t, k));
    assert(raw.len() == b - a);
    if k + 1 < ropey_line_count(t) {
        assert(break_ends_at(t, b - 1));
        if k > 0 && b <= a {
            lemma_breaks_mono(t, b, a);
        }
        assert(b > a);
        assert(raw[raw.len() - 1] == t[b - 1]);
        assert(term >= 1);
        assert(ropey_lines(t)[k].len() == raw.len() - term);
        if raw.len() >= 2 {
            assert(raw[raw.len() - 2] == t[b - 2]);
        }
    } else {
        assert(b == t.len());
        assert(ropey_lines(t)[k] == raw);
    }
}

/// The characters of a line's content are no line breaks.
proof fn lemma_content_unbroken(t: Seq<char>, k: int, i: int)
    requires
        0 <= k < ropey_line_count(t),
        ropey_line_start(t, k) <= i < ropey_line_start(t, k) + ropey_lines(t)[k].len(),
    ensures
        !is_break_char(t[i]),
{
    lemma_line_parts(t, k);
    let a = ropey_line_start(t, k);
    let b = ropey_line_start(t, k + 1);
    let e = a + ropey_lines(t)[k].len();
    if is_break_char(t[i]) {
        if t[i] == '\r' && i + 1 < t.len() && t[i + 1] == '\n' {
            assert(break_ends_at(t, i + 1));
            lemma_no_inner_break(t, k, i + 1);
        } else {
            assert(break_ends_at(t, i));
            lemma_no_inner_break(t, k, i);
        }
    }
}

/// A column fits on line `k` of `t` exactly where the characters from the
/// line's start up to it lie within the text and none of them is a line
/// break character.
proof fn lemma_column_fits(t: Seq<char>, k: int, c: int)
    requires
        0 <= k < ropey_line_count(t),
        0 <= c,
    ensures
        c <= ropey_lines(t)[k].len() <==> (ropey_line_start(t, k) + c <= t.len() && forall|i: int|
            ropey_line_start(t, k) <= i < ropey_line_start(t, k) + c ==> !is_break_char(
                #[trigger] t[i],
            )),
{
    lemma_line_parts(t, k);
    let a = ropey_line_start(t, k);
    let e = a + ropey_lines(t)[k].len();
    if c <= ropey_lines(t)[k].len() {
        assert forall|i: int| a <= i < a + c implies !is_break_char(#[trigger] t[i]) by {
            lemma_content_unbroken(t, k, i);
        }
    } else if a + c <= t.len() {
        assert(k + 1 < ropey_line_count(t));
        assert(a <= e < a + c);
        assert(is_break_char(t[e]));
    }
}

/// Whether inserting `s` at offset `o` of `t` would join a CR just before
/// the insertion point with an LF that `s` starts with into one CRLF line
/// break.
pub open spec fn joins_crlf(t: Seq<char>, o: int, s: Seq<char>) -> bool {
    s.len() > 0 && s[0] == '\n' && 0 < o && t[o - 1] == '\r'
}

/// The text `t` with `s` inserted at `pos`, as `ropey` places `pos`.
pub open spec fn inserted_text(t: Seq<char>, pos: Position, s: Seq<char>) -> Seq<char> {
    t.take(ropey_line_start(t, pos.line as int) + pos.column) + s + t.skip(
        ropey_line_start(t, pos.line as int) + pos.column,
    )
}

/// How the line breaks of `t` carry over to `t` with `s` spliced in at
/// offset `o`, where `s` breaks lines only at `'\n'`, no CRLF pair of `t`
/// is cut apart and no new one is formed: those before `o` stay, those of
/// `s` are its `'\n'`s, and those after are those of `t`, shifted.
proof fn lemma_splice_breaks(t: Seq<char>, o: int, s: Seq<char>)
    requires
        0 <= o <= t.len(),
        lf_only(s),
        !joins_crlf(t, o, s),
        o > 0 && t[o - 1] == '\r' && o < t.len() ==> t[o] != '\n',
    ensures
        forall|i: int| 0 <= i < o ==> #[trigger] break_ends_at(t.take(o) + s + t.skip(o), i) == break_ends_at(t, i),
        forall|j: int| 0 <= j <= o ==> #[trigger] breaks_before(t.take(o) + s + t.skip(o), j) == breaks_before(t, j),
        forall|k: int|
            0 <= k <= s.len() ==> #[trigger] breaks_before(t.take(o) + s + t.skip(o), o + k)
                == breaks_before(t, o) + count_lf(s.take(k)),
        breaks_before(t.take(o) + s + t.skip(o), (t.len() + s.len()) as int) == breaks_before(t, t.len() as int)
            + count_lf(s),
{
    let t2 = t.take(o) + s + t.skip(o);
    let n = s.len() as int;
    assert(t2.len() == t.len() + n);
    assert(forall|i: int| 0 <= i < o ==> #[trigger] t2[i] == t[i]);
    assert(forall|i: int| 0 <= i < n ==> t2[o + i] == #[trigger] s[i]);
    assert(forall|i: int| o <= i < t.len() ==> #[trigger] t2[i + n] == t[i]);
    assert forall|i: int| 0 <= i < o implies break_ends_at(t2, i + 0) == #[trigger] break_ends_at(
        t,
        i,
    ) by {
        assert(t2[i] == t[i]);
        if i + 1 < o {
            assert(t2[i + 1] == t[i + 1]);
        } else if n > 0 {
            assert(t2[o + 0] == s[0]);
        } else if o < t.len() {
            assert(t2[o + 0] == t[o]);
        }
    }
    assert forall|j: int| 0 <= j <= o implies #[trigger] breaks_before(t2, j) == breaks_before(t, j) by {
        lemma_breaks_agree(t, t2, 0, 0, j);
    }
    assert forall|i: int| o <= i < t.len() implies break_ends_at(t2, i + n) == #[trigger] break_ends_at(
        t,
        i,
    ) by {
        assert(t2[i + n] == t[i]);
        if i + 1 < t.len() {
            assert(t2[(i + 1) + n] == t[i + 1]);
        }
    }
    lemma_breaks_agree(t, t2, n, o, t.len() as int);
    assert forall|k: int| 0 <= k <= n implies #[trigger] breaks_before(t2, o + k) == breaks_before(
        t,
        o,
    ) + count_lf(s.take(k)) by {
        lemma_breaks_in_insert(t2, o, s, k);
    }
    assert(s.take(n) =~= s);
    assert(breaks_before(t2, o + n) == breaks_before(t, o) + count_lf(s));
}

/// Law: deleting what an insert just put in gives back the text from
/// before, where the inserted text breaks lines only at `'\n'` and its
/// first `'\n'` does not pair up with a CR just before the insertion point
/// (which would merge two line breaks into one CRLF). With `t2` the text
/// after inserting `s` at `pos`: `pos` and the end of the inserted text
/// ([`end_of_insert`]) are valid positions of `t2`, `pos` keeps its offset,
/// the two span exactly `s`, and removing that span leaves `t`.
#[verifier::rlimit(60)]
pub proof fn lemma_ropey_insert_delete_roundtrip(t: Seq<char>, pos: Position, s: Seq<char>)
    requires
        valid_pos(ropey_lines(t), pos),
        lf_only(s),
        !joins_crlf(t, RopeyStorage::text_offset(t, pos), s),
        t.len() + s.len() <= usize::MAX,
    ensures
        valid_pos(ropey_lines(inserted_text(t, pos, s)), pos),
        valid_pos(ropey_lines(inserted_text(t, pos, s)), end_of_insert(pos, s)),
        RopeyStorage::text_offset(inserted_text(t, pos, s), pos) == RopeyStorage::text_offset(t, pos),
        RopeyStorage::text_offset(inserted_text(t, pos, s), end_of_insert(pos, s))
            == RopeyStorage::text_offset(t, pos) + s.len(),
        inserted_text(t, pos, s).take(RopeyStorage::text_offset(t, pos)) + inserted_text(
            t,
            pos,
            s,
        ).skip(RopeyStorage::text_offset(t, pos) + s.len()) == t,
{
    let l = pos.line as int;
    let col = pos.column as int;
    let a = ropey_line_start(t, l);
    let o = a + col;
    let n = s.len() as int;
    let t2 = inserted_text(t, pos, s);
    let m = count_lf(s) as int;
    lemma_line_parts(t, l);
    lemma_line_start(t, l);
    lemma_column_fits(t, l, col);
    lemma_count_lf_le(s);
    assert(t2 == t.take(o) + s + t.skip(o));
    assert(t2.len() == t.len() + n);
    // No CRLF pair is cut apart at the insertion point.
    assert(o > 0 && t[o - 1] == '\r' && o < t.len() ==> t[o] != '\n') by {
        if o > 0 && t[o - 1] == '\r' {
            if col > 0 {
                assert(!is_break_char(t[o - 1]));
            } else {
                assert(l > 0);
                assert(break_ends_at(t, a - 1));
            }
        }
    }
    lemma_splice_breaks(t, o, s);
    // The insertion point lies on line `l`.
    assert(breaks_before(t, a) == l) by {
        if l == 0 {
            assert(a == 0);
        }
    }
    assert forall|i: int| a <= i < o implies !#[trigger] break_ends_at(t, i) by {
        assert(!is_break_char(t[i]));
    }
    lemma_breaks_const(t, a, o);
    lemma_breaks_le(t, t.len() as int);
    assert(s.take(n) =~= s);
    assert(breaks_before(t.take(o) + s + t.skip(o), o + n) == l + m);
    assert(breaks_before(t2, o + n) == l + m);
    assert(ropey_line_count(t2) == ropey_line_count(t) + m);
    // Line `l` starts where it did, and `pos` still fits on it.
    lemma_line_start(t2, l);
    if l > 0 {
        assert(breaks_before(t2, a) == breaks_before(t, a));
        assert(break_ends_at(t2, a - 1) == break_ends_at(t, a - 1));
        assert(is_line_start(t2, l, a));
    }
    assert(ropey_line_start(t2, l) == a);
    assert forall|i: int| a <= i < o implies !is_break_char(#[trigger] t2[i]) by {
        assert(t2[i] == t[i]);
        assert(!is_break_char(t[i]));
    }
    lemma_column_fits(t2, l, col);
    assert(ropey_lines(t2).len() == ropey_line_count(t2));
    // The end of the inserted text.
    let parts = split_lines(s);
    let q = end_of_insert(pos, s);
    lemma_split_len(s);
    lemma_split_wf(s);
    lemma_join_split(s);
    if m == 0 {
        assert(parts.len() == 1);
        assert(lf_free(parts[0]));
        assert(q.line == l && q.column == col + n);
        assert forall|i: int| a <= i < o + n implies !is_break_char(#[trigger] t2[i]) by {
            if i < o {
                assert(t2[i] == t[i]);
                assert(!is_break_char(t[i]));
            } else {
                assert(t2[i] == s[i - o]);
                assert(s[i - o] != '\n');
            }
        }
        lemma_column_fits(t2, l, col + n);
    } else {
        let last = parts[m];
        let z = line_start(parts, m);
        lemma_line_span(parts, m);
        lemma_split_start_after_lf(s, m);
        assert(last == parts.last());
        assert(lf_free(last));
        assert(q.line == l + m && q.column == last.len());
        assert(z + last.len() == n);
        assert(breaks_before(t2, o + z) == l + m);
        assert(t2[o + z - 1] == s[z - 1]);
        assert(break_ends_at(t2, o + z - 1));
        assert(is_line_start(t2, l + m, o + z));
        lemma_line_start(t2, l + m);
        assert forall|i: int| o + z <= i < o + n implies !is_break_char(#[trigger] t2[i]) by {
            assert(t2[i] == s[i - o]);
            assert(s.subrange(z, n)[i - o - z] == s[i - o]);
            assert(last[i - o - z] != '\n');
        }
        lemma_column_fits(t2, l + m, last.len() as int);
    }
    assert(t2.take(o) + t2.skip(o + n) =~= t);
}

/// Law: no line of a text, as `ropey` splits it, holds a `'\n'`.
pub proof fn lemma_ropey_lines_lf_free(t: Seq<char>)
    ensures
        wf_lines(ropey_lines(t)),
{
    let ls = ropey_lines(t);
    assert forall|k: int| 0 <= k < ls.len() implies #[trigger] lf_free(ls[k]) by {
        lemma_line_parts(t, k);
        let a = ropey_line_start(t, k);
        assert forall|i: int| 0 <= i < ls[k].len() implies ls[k][i] != '\n' by {
            assert(ls[k] == line_content(t, k));
            assert(ls[k][i] == t[a + i]);
            lemma_content_unbroken(t, k, a + i);
        }
    }
}

// ===== Trusted calls into `ropey` =====

/// Calls `Rope::new`, which makes an empty rope.
#[verifier::external_body]
fn rope_new() -> (r: Rope)
    ensures
        rope_chars(r) == Seq::<char>::empty(),
{
    Rope::new()
}

/// Calls `Rope::len_chars`: the number of characters the rope holds.
#[verifier::external_body]
fn rope_len_chars(r: &Rope) -> (n: usize)
    ensures
        n == rope_chars(*r).len(),
{
    r.len_chars()
}

/// Calls `Rope::len_lines`: one more than the number of line breaks, with
/// the breaks `ropey` documents for its default features.
#[verifier::external_body]
fn rope_len_lines(r: &Rope) -> (n: usize)
    ensures
        n == ropey_line_count(rope_chars(*r)),
{
    r.len_lines()
}

/// Calls `Rope::line_to_char`: the character index at which line `line`
/// starts, or the length of the rope for the line one past the last. It
/// panics past that, which `requires` rules out.
#[verifier::external_body]
fn rope_line_to_char(r: &Rope, line: usize) -> (c: usize)
    requires
        line <= ropey_line_count(rope_chars(*r)),
    ensures
        is_line_start(rope_chars(*r), line as int, c as int),
{
    r.line_to_char(line)
}

/// Calls `Rope::line` and collects the characters of the slice it gives:
/// the text of line `line`, with the line break ending it, if any. It
/// panics for a line that doesn't exist, which `requires` rules out.
#[verifier::external_body]
fn rope_line_chars(r: &Rope, line: usize) -> (v: Vec<char>)
    requires
        line < ropey_line_count(rope_chars(*r)),
    ensures
        v@ == raw_line(rope_chars(*r), line as int),
{
    r.line(line).chars().collect()
}

/// Calls `Rope::insert`, which puts `text` at character index `at`. It
/// panics for an index past the end, which `requires` rules out.
#[verifier::external_body]
fn rope_insert(r: &mut Rope, at: usize, text: &str)
    requires
        at <= rope_chars(*old(r)).len(),
    ensures
        rope_chars(*final(r)) == rope_chars(*old(r)).take(at as int) + text@ + rope_chars(
            *old(r),
        ).skip(at as int),
{
    r.insert(at, text)
}

/// Calls `Rope::remove` on the character range `start..end`. It panics
/// for a reversed range or one past the end, which `requires` rules out.
#[verifier::external_body]
fn rope_remove(r: &mut Rope, start: usize, end: usize)
    requires
        start <= end <= rope_chars(*old(r)).len(),
    ensures
        rope_chars(*final(r)) == rope_chars(*old(r)).take(start as int) + rope_chars(
            *old(r),
        ).skip(end as int),
{
    r.remove(start..end)
}

/// Calls `Rope`'s `Display` (through `to_string`), which writes each of its
/// chunks in order: its whole text.
#[verifier::external_body]
fn rope_to_string(r: &Rope) -> (s: String)
    ensures
        s@ == rope_chars(*r),
{
    r.to_string()
}

// ===== The storage =====

/// The length of the line break that `slice` ends with, or 0 if it ends
/// with none. Used to exclude the terminator from a line's reported content
/// and length, since `ropey`'s own lines include it.
pub fn terminator_len(slice: &[char]) -> (n: usize)
    ensures
        n == terminator_spec(slice@),
{
    let len = slice.len();
    if len == 0 {
        return 0;
    }
    let c = slice[len - 1];
    if c == '\n' {
        if len >= 2 && slice[len - 2] == '\r' {
            2
        } else {
            1
        }
    } else if c == '\r' || c == '\u{0B}' || c == '\u{0C}' || c == '\u{85}' || c == '\u{2028}' || c
        == '\u{2029}' {
        1
    } else {
        0
    }
}

/// [`TextStorage`] implementation backed by [`ropey::Rope`].
pub struct RopeyStorage {
    rope: Rope,
}

impl RopeyStorage {
    /// The text the rope holds.
    pub closed spec fn ropey_text(&self) -> Seq<char> {
        rope_chars(self.rope)
    }

    /// Creates an empty document: one line containing no text.
    pub fn new() -> (s: Self)
        ensures
            s.ropey_text() == Seq::<char>::empty(),
    {
        Self { rope: rope_new() }
    }

    /// The line at `index`, including its terminator if it has one (only
    /// the last line of the document may lack one).
    fn raw_line(&self, index: usize) -> (v: Vec<char>)
        requires
            index < ropey_line_count(self.ropey_text()),
        ensures
            v@ == raw_line(self.ropey_text(), index as int),
    {
        rope_line_chars(&self.rope, index)
    }

    /// The number of content characters (excluding any line terminator) on
    /// line `index`.
    fn line_len(&self, index: usize) -> (n: usize)
        requires
            index < ropey_line_count(self.ropey_text()),
        ensures
            n == ropey_lines(self.ropey_text())[index as int].len(),
    {
        let slice = self.raw_line(index);
        let count = rope_len_lines(&self.rope);
        let is_last = index + 1 == count;
        let terminator = if is_last {
            0
        } else {
            terminator_len(slice.as_slice())
        };
        slice.len() - terminator
    }

    /// Checks that `pos` refers to an existing line and a column that is
    /// within (or exactly at the end of) that line's content.
    fn validate_position(&self, pos: Position) -> (r: Result<(), BufferError>)
        ensures
            r is Ok <==> valid_pos(ropey_lines(self.ropey_text()), pos),
            r is Err ==> r == Err::<(), BufferError>(BufferError::InvalidPosition),
    {
        proof {
            lemma_lines_shape(self.ropey_text());
        }
        if pos.line >= rope_len_lines(&self.rope) {
            return Err(BufferError::InvalidPosition);
        }
        if pos.column > self.line_len(pos.line) {
            return Err(BufferError::InvalidPosition);
        }
        Ok(())
    }

    /// Converts a valid `pos` into a global character offset into the
    /// rope.
    fn char_offset(&self, pos: Position) -> (o: usize)
        requires
            self.ropey_text().len() < usize::MAX,
            valid_pos(ropey_lines(self.ropey_text()), pos),
        ensures
            o == ropey_line_start(self.ropey_text(), pos.line as int) + pos.column,
            o <= self.ropey_text().len(),
    {
        let ghost t = self.ropey_text();
        proof {
            lemma_offset_fits(t, pos);
        }
        let start = rope_line_to_char(&self.rope, pos.line);
        assert(start == ropey_line_start(t, pos.line as int));
        start + pos.column
    }
}

impl Default for RopeyStorage {
    /// Same as [`RopeyStorage::new`].
    fn default() -> (s: Self)
        ensures
            s.ropey_text() == Seq::<char>::empty(),
    {
        Self::new()
    }
}

impl TextStorage for RopeyStorage {
    open spec fn lines(&self) -> Seq<Seq<char>> {
        ropey_lines(self.ropey_text())
    }

    open spec fn text(&self) -> Seq<char> {
        self.ropey_text()
    }

    open spec fn inv(&self) -> bool {
        self.ropey_text().len() < usize::MAX
    }

    open spec fn splits_on_lf() -> bool {
        false
    }

    open spec fn offset_of(&self, pos: Position) -> int {
        ropey_line_start(self.ropey_text(), pos.line as int) + pos.column
    }

    open spec fn text_lines(t: Seq<char>) -> Seq<Seq<char>> {
        ropey_lines(t)
    }

    open spec fn text_offset(t: Seq<char>, pos: Position) -> int {
        ropey_line_start(t, pos.line as int) + pos.column
    }

    proof fn lemma_inv(&self) {
        let t = self.ropey_text();
        lemma_lines_shape(t);
        lemma_ropey_lines_lf_free(t);
        assert forall|p: Position| valid_pos(self.lines(), p) implies 0 <= #[trigger] self.offset_of(p)
            <= self.text().len() by {
            assert(0 <= ropey_line_start(t, p.line as int));
        }
        assert forall|i: int| 0 <= i < self.lines().len() implies #[trigger] self.lines()[i].len()
            <= self.text().len() by {
            assert(0 <= ropey_line_start(t, i));
        }
    }

    fn empty() -> (s: Self) {
        let s = Self::new();
        proof {
            let t = s.ropey_text();
            lemma_lines_shape(t);
            lemma_line_start(t, 0);
            lemma_line_start(t, 1);
            assert(raw_line(t, 0) == Seq::<char>::empty());
            assert(ropey_lines(t) =~= seq![Seq::<char>::empty()]);
        }
        s
    }

    fn line(&self, index: usize) -> (r: Option<String>) {
        if index >= rope_len_lines(&self.rope) {
            return None;
        }
        let content_len = self.line_len(index);
        let raw = self.raw_line(index);
        let ghost t = self.ropey_text();
        proof {
            assert(terminator_spec(raw@) <= raw@.len());
        }
        let content = slice_subrange(raw.as_slice(), 0, content_len);
        assert(content@ == line_content(t, index as int));
        Some(chars_to_string(content))
    }

    fn line_count(&self) -> (n: usize) {
        rope_len_lines(&self.rope)
    }

    fn len_chars(&self) -> (n: usize) {
        rope_len_chars(&self.rope)
    }

    fn to_text(&self) -> (s: String) {
        rope_to_string(&self.rope)
    }

    fn insert(&mut self, pos: Position, text: &str) -> (r: Result<(), BufferError>) {
        self.validate_position(pos)?;
        let offset = self.char_offset(pos);
        rope_insert(&mut self.rope, offset, text);
        Ok(())
    }

    fn delete(&mut self, range: Range) -> (r: Result<(), BufferError>) {
        self.validate_position(range.start)?;
        self.validate_position(range.end)?;
        // Callers may hand us a range built from an end-to-start drag, so
        // normalize direction before doing anything else.
        let range = range.normalized();
        proof {
            lemma_offset_order(self.ropey_text(), range.start, range.end);
        }
        let start = self.char_offset(range.start);
        let end = self.char_offset(range.end);
        rope_remove(&mut self.rope, start, end);
        Ok(())
    }
}

} // verus!
