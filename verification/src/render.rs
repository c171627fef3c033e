//! What the screen shows: each visible line clipped to the viewport with
//! tabs expanded, the status line, and where the terminal's cursor goes.
//! Drawing it is the front end's part.

use vstd::prelude::*;

use crate::buffer::Buffer;
use crate::position::Position;
use crate::storage::TextStorage;
use crate::text::{chars_to_string, skip_sat, str_chars, take_sat};
use crate::viewport::Viewport;

verus! {

/// How many columns a tab advances to (rounding up to the next stop),
/// matching common terminal defaults.
pub const TAB_WIDTH: usize = 4;

/// `n` spaces.
pub open spec fn spaces(n: int) -> Seq<char> {
    Seq::new(n as nat, |i: int| ' ')
}

/// `s` with each tab replaced by spaces out to the next multiple of `tw`,
/// counting columns from `col` for the first character of `s`.
pub open spec fn expand_from(s: Seq<char>, col: int, tw: int) -> Seq<char>
    decreases s.len(),
{
    if s.len() == 0 {
        Seq::<char>::empty()
    } else if s[0] == '\t' {
        let w = tw - col % tw;
        spaces(w) + expand_from(s.skip(1), col + w, tw)
    } else {
        seq![s[0]] + expand_from(s.skip(1), col + 1, tw)
    }
}

/// `line` with its tabs expanded to stops every `tw` columns, counted from
/// the start of the line.
pub open spec fn expand_spec(line: Seq<char>, tw: int) -> Seq<char> {
    expand_from(line, 0, tw)
}

/// The expansion of `s` from column `col` has at least one character per
/// character of `s` and at most `tw` per character.
pub proof fn lemma_expand_len(s: Seq<char>, col: int, tw: int)
    requires
        tw > 0,
        col >= 0,
    ensures
        s.len() <= expand_from(s, col, tw).len() <= s.len() * tw,
    decreases s.len(),
{
    if s.len() > 0 {
        lemma_expand_len(s.skip(1), col + if s[0] == '\t' {
            tw - col % tw
        } else {
            1
        }, tw);
        assert(s.len() * tw == (s.len() - 1) * tw + tw) by (nonlinear_arith)
            requires
                s.len() >= 1,
        ;
        assert(s.len() - 1 <= (s.len() - 1) * tw) by (nonlinear_arith)
            requires
                tw > 0,
                s.len() >= 1,
        ;
    }
}

/// Expanding a concatenation expands its second part from where the first
/// part's expansion ends.
pub proof fn lemma_expand_concat(a: Seq<char>, b: Seq<char>, col: int, tw: int)
    requires
        tw > 0,
    ensures
        expand_from(a + b, col, tw) == expand_from(a, col, tw) + expand_from(
            b,
            col + expand_from(a, col, tw).len(),
            tw,
        ),
    decreases a.len(),
{
    if a.len() == 0 {
        assert(a + b == b);
        assert(Seq::<char>::empty() + expand_from(b, col, tw) == expand_from(b, col, tw));
    } else {
        let w = if a[0] == '\t' {
            tw - col % tw
        } else {
            1
        };
        lemma_expand_concat(a.skip(1), b, col + w, tw);
        assert((a + b).skip(1) == a.skip(1) + b);
        assert((a + b)[0] == a[0]);
        assert(spaces(w).len() == w) by {
            if a[0] == '\t' {
                assert(col % tw < tw);
            }
        }
    }
}

/// Law: the character at column `c` of a line (not a tab) is drawn at the
/// display column [`display_column`] gives for `c`.
pub proof fn lemma_display_column_places_char(line: Seq<char>, c: int, tw: int)
    requires
        0 <= c < line.len(),
        line[c] != '\t',
        tw > 0,
    ensures
        expand_spec(line, tw)[expand_spec(line.take(c), tw).len() as int] == line[c],
{
    lemma_expand_concat(line.take(c), line.skip(c), 0, tw);
    assert(line.take(c) + line.skip(c) == line);
    assert(line.skip(c)[0] == line[c]);
}

/// Replaces each tab in `line` with spaces out to the next stop of
/// `tab_width`, so the result has one character per terminal column. Tab
/// stops count from the start of the line, as a terminal expands them.
pub fn expand_tabs(line: &str, tab_width: usize) -> (s: String)
    requires
        tab_width > 0,
        line@.len() * tab_width <= usize::MAX,
    ensures
        s@ == expand_spec(line@, tab_width as int),
{
    let chars = str_chars(line);
    let n = chars.len();
    let mut expanded: Vec<char> = Vec::new();
    let mut col: usize = 0;
    let mut i: usize = 0;
    proof {
        assert(chars@.skip(0) == chars@);
        assert(expanded@ + chars@ == chars@);
    }
    while i < n
        invariant
            n == chars@.len(),
            chars@ == line@,
            tab_width > 0,
            n * tab_width <= usize::MAX,
            i <= n,
            col == expanded@.len(),
            col <= i * tab_width,
            expanded@ + expand_from(chars@.skip(i as int), col as int, tab_width as int)
                == expand_spec(chars@, tab_width as int),
        decreases n - i,
    {
        let ghost rest = chars@.skip(i as int);
        let ghost before = expanded@;
        assert(rest.skip(1) == chars@.skip(i + 1));
        assert(rest[0] == chars@[i as int]);
        assert((i + 1) * tab_width == i * tab_width + tab_width) by (nonlinear_arith);
        assert((i + 1) * tab_width <= n * tab_width) by (nonlinear_arith)
            requires
                i + 1 <= n,
        ;
        if chars[i] == '\t' {
            let width = tab_width - (col % tab_width);
            let mut k: usize = 0;
            while k < width
                invariant
                    k <= width,
                    expanded@ == before + spaces(k as int),
                decreases width - k,
            {
                expanded.push(' ');
                assert(spaces(k + 1) =~= spaces(k as int).push(' '));
                k = k + 1;
            }
            col = col + width;
            assert(before + spaces(width as int) + expand_from(chars@.skip(i + 1), col as int, tab_width as int)
                =~= before + expand_from(rest, (col - width) as int, tab_width as int));
        } else {
            expanded.push(chars[i]);
            col = col + 1;
            assert(before.push(chars@[i as int]) + expand_from(chars@.skip(i + 1), col as int, tab_width as int)
                =~= before + expand_from(rest, (col - 1) as int, tab_width as int));
        }
        i = i + 1;
    }
    assert(chars@.skip(n as int) == Seq::<char>::empty());
    assert(expanded@ + Seq::<char>::empty() == expanded@);
    chars_to_string(expanded.as_slice())
}

/// The part of `line` visible in a window that starts `left` columns in
/// and is `width` columns wide, with tabs expanded (see [`expand_tabs`]).
pub open spec fn clip_spec(line: Seq<char>, left: int, width: int) -> Seq<char> {
    take_sat(skip_sat(expand_spec(line, TAB_WIDTH as int), left), width)
}

/// Returns the portion of `line` visible in a window that starts `left`
/// columns in and is `width` columns wide.
///
/// Tabs are expanded to spaces first so that one character of the result
/// always corresponds to exactly one terminal column.
pub fn clip(line: &str, left: usize, width: usize) -> (s: String)
    requires
        line@.len() * TAB_WIDTH <= usize::MAX,
    ensures
        s@ == clip_spec(line@, left as int, width as int),
{
    let expanded = expand_tabs(line, TAB_WIDTH);
    let chars = str_chars(expanded.as_str());
    let n = chars.len();
    let mut out: Vec<char> = Vec::new();
    if left < n {
        let mut j: usize = left;
        while j < n && out.len() < width
            invariant
                left <= j <= n,
                n == chars@.len(),
                out@ == chars@.subrange(left as int, j as int),
                out@.len() <= width,
            decreases n - j,
        {
            out.push(chars[j]);
            proof {
                assert(chars@.subrange(left as int, j + 1) == chars@.subrange(left as int, j as int).push(
                    chars@[j as int],
                ));
            }
            j = j + 1;
        }
        proof {
            let sk = chars@.skip(left as int);
            if width <= sk.len() {
                assert(out@ =~= sk.take(width as int));
            } else {
                assert(out@ =~= sk);
            }
        }
    }
    chars_to_string(out.as_slice())
}

/// The digit character for `d` (below 10).
pub open spec fn digit_char(d: nat) -> char {
    if d == 0 {
        '0'
    } else if d == 1 {
        '1'
    } else if d == 2 {
        '2'
    } else if d == 3 {
        '3'
    } else if d == 4 {
        '4'
    } else if d == 5 {
        '5'
    } else if d == 6 {
        '6'
    } else if d == 7 {
        '7'
    } else if d == 8 {
        '8'
    } else {
        '9'
    }
}

/// `n` written in decimal, most significant digit first (`"0"` for zero).
pub open spec fn decimal_spec(n: nat) -> Seq<char>
    decreases n,
{
    if n < 10 {
        seq![digit_char(n)]
    } else {
        decimal_spec(n / 10).push(digit_char(n % 10))
    }
}

/// 10 to the power `k`.
pub open spec fn pow10(k: nat) -> nat
    decreases k,
{
    if k == 0 {
        1
    } else {
        10 * pow10((k - 1) as nat)
    }
}

/// A number below 10 to the power `k` (`k` at least 1) has at most `k`
/// decimal digits.
proof fn lemma_decimal_len(n: nat, k: nat)
    requires
        k >= 1,
        n < pow10(k),
    ensures
        decimal_spec(n).len() <= k,
    decreases k,
{
    if n >= 10 {
        assert(k >= 2) by {
            if k == 1 {
                assert(pow10(1) == 10 * pow10(0));
            }
        }
        assert(pow10(k) == 10 * pow10((k - 1) as nat));
        lemma_decimal_len(n / 10, (k - 1) as nat);
    }
}

/// A `usize` has at most 20 decimal digits.
proof fn lemma_usize_digits(n: usize)
    ensures
        decimal_spec(n as nat).len() <= 20,
{
    assert(pow10(20) == 100000000000000000000nat) by {
        reveal_with_fuel(pow10, 21);
    }
    lemma_decimal_len(n as nat, 20);
}

/// The digit character for `d`.
fn digit(d: usize) -> (c: char)
    requires
        d < 10,
    ensures
        c == digit_char(d as nat),
{
    if d == 0 {
        '0'
    } else if d == 1 {
        '1'
    } else if d == 2 {
        '2'
    } else if d == 3 {
        '3'
    } else if d == 4 {
        '4'
    } else if d == 5 {
        '5'
    } else if d == 6 {
        '6'
    } else if d == 7 {
        '7'
    } else if d == 8 {
        '8'
    } else {
        '9'
    }
}

/// `n` written in decimal.
pub fn decimal(n: usize) -> (v: Vec<char>)
    ensures
        v@ == decimal_spec(n as nat),
    decreases n,
{
    if n < 10 {
        let mut v: Vec<char> = Vec::new();
        v.push(digit(n));
        v
    } else {
        let mut v = decimal(n / 10);
        v.push(digit(n % 10));
        v
    }
}

/// The default status line: the file name (or `[No Name]`), a `[+]`
/// marker when there are unsaved changes, and the 1-based cursor line and
/// column.
pub open spec fn status_spec(name: Option<Seq<char>>, dirty: bool, cursor: Position) -> Seq<char> {
    let n = match name {
        Some(s) => s,
        None => "[No Name]"@,
    };
    let d = if dirty {
        " [+]"@
    } else {
        Seq::<char>::empty()
    };
    n + d + "  Ln "@ + decimal_spec((cursor.line + 1) as nat) + ", Col "@ + decimal_spec(
        (cursor.column + 1) as nat,
    )
}

/// The status line, clipped to `width` columns: `message` where there is
/// one (e.g. "Saved" or an error), else the default status for a file
/// named `name` (if it has a name), dirty or not, with the cursor at
/// `cursor`.
pub fn status_text(
    message: Option<&str>,
    name: Option<&str>,
    dirty: bool,
    cursor: Position,
    width: usize,
) -> (s: String)
    requires
        cursor.line < usize::MAX,
        cursor.column < usize::MAX,
        message matches Some(m) ==> m@.len() * TAB_WIDTH <= usize::MAX,
        name matches Some(n) ==> (n@.len() + 64) * TAB_WIDTH <= usize::MAX,
    ensures
        s@ == clip_spec(
            match message {
                Some(m) => m@,
                None => status_spec(
                    match name {
                        Some(n) => Some(n@),
                        None => None,
                    },
                    dirty,
                    cursor,
                ),
            },
            0,
            width as int,
        ),
{
    match message {
        Some(m) => clip(m, 0, width),
        None => {
            let mut chars = match name {
                Some(n) => str_chars(n),
                None => str_chars("[No Name]"),
            };
            if dirty {
                chars.append(&mut str_chars(" [+]"));
            }
            chars.append(&mut str_chars("  Ln "));
            chars.append(&mut decimal(cursor.line + 1));
            chars.append(&mut str_chars(", Col "));
            chars.append(&mut decimal(cursor.column + 1));
            proof {
                reveal_strlit("[No Name]");
                reveal_strlit(" [+]");
                reveal_strlit("  Ln ");
                reveal_strlit(", Col ");
                lemma_usize_digits((cursor.line + 1) as usize);
                lemma_usize_digits((cursor.column + 1) as usize);
            }
            let status = chars_to_string(chars.as_slice());
            clip(status.as_str(), 0, width)
        },
    }
}

/// Converts a character index `column` within `line` into the display
/// column it lands on once tabs before it are expanded: e.g. column 1,
/// right after a leading tab, is display column 4.
pub fn display_column(line: &str, column: usize, tab_width: usize) -> (c: usize)
    requires
        tab_width > 0,
        line@.len() * tab_width <= usize::MAX,
    ensures
        c == expand_spec(take_sat(line@, column as int), tab_width as int).len(),
{
    let chars = str_chars(line);
    let n = if column <= chars.len() {
        column
    } else {
        chars.len()
    };
    let ghost t = chars@.take(n as int);
    assert(t == take_sat(line@, column as int));
    let mut col: usize = 0;
    let mut i: usize = 0;
    assert(t.skip(0) == t);
    while i < n
        invariant
            n <= chars@.len(),
            t == chars@.take(n as int),
            tab_width > 0,
            chars@.len() * tab_width <= usize::MAX,
            i <= n,
            col <= i * tab_width,
            col + expand_from(t.skip(i as int), col as int, tab_width as int).len() == expand_spec(
                t,
                tab_width as int,
            ).len(),
        decreases n - i,
    {
        let ghost rest = t.skip(i as int);
        assert(rest.skip(1) == t.skip(i + 1));
        assert(rest[0] == chars@[i as int]);
        assert((i + 1) * tab_width == i * tab_width + tab_width) by (nonlinear_arith);
        assert((i + 1) * tab_width <= chars@.len() * tab_width) by (nonlinear_arith)
            requires
                i + 1 <= chars@.len(),
        ;
        if chars[i] == '\t' {
            let w = tab_width - (col % tab_width);
            assert(spaces(w as int).len() == w);
            col = col + w;
        } else {
            col = col + 1;
        }
        i = i + 1;
    }
    col
}

/// The text of each visible row of the screen: the lines from the
/// viewport's top line on, one per row, each clipped to the viewport; it
/// stops early where the lines run out.
pub open spec fn visible_spec(ls: Seq<Seq<char>>, v: Viewport) -> Seq<Seq<char>> {
    let rows = if v.top >= ls.len() {
        0
    } else if ls.len() - v.top < v.height {
        ls.len() - v.top
    } else {
        v.height as int
    };
    Seq::new(rows as nat, |r: int| clip_spec(ls[v.top + r], v.left as int, v.width as int))
}

/// Whether every line of `ls` is short enough for its tabs to expand
/// within a `usize` count.
pub open spec fn lines_expandable(ls: Seq<Seq<char>>) -> bool {
    forall|i: int| 0 <= i < ls.len() ==> #[trigger] ls[i].len() * TAB_WIDTH <= usize::MAX
}

/// Each visible line of the buffer, clipped to the viewport's scroll
/// offset and size, top row first.
pub fn visible_lines<S: TextStorage>(buffer: &Buffer<S>, viewport: &Viewport) -> (rows: Vec<
    String,
>)
    requires
        buffer.inv(),
        lines_expandable(buffer.lines()),
    ensures
        rows@.len() == visible_spec(buffer.lines(), *viewport).len(),
        forall|r: int| 0 <= r < rows@.len() ==> #[trigger] rows@[r]@ == visible_spec(
            buffer.lines(),
            *viewport,
        )[r],
{
    let ghost ls = buffer.lines();
    let ghost want = visible_spec(ls, *viewport);
    proof {
        buffer.lemma_inv();
    }
    let mut rows: Vec<String> = Vec::new();
    let mut row: usize = 0;
    while row < viewport.height
        invariant
            ls.len() <= usize::MAX,
            buffer.inv(),
            ls == buffer.lines(),
            want == visible_spec(ls, *viewport),
            lines_expandable(ls),
            row <= viewport.height,
            rows@.len() == row,
            row <= want.len(),
            forall|r: int| 0 <= r < row ==> #[trigger] rows@[r]@ == want[r],
        ensures
            rows@.len() == want.len(),
            forall|r: int| 0 <= r < rows@.len() ==> #[trigger] rows@[r]@ == want[r],
        decreases viewport.height - row,
    {
        if viewport.top > usize::MAX - row {
            break;
        }
        let index = viewport.top + row;
        match buffer.line(index) {
            Some(line) => {
                assert(ls[index as int].len() * TAB_WIDTH <= usize::MAX);
                let text = clip(line.as_str(), viewport.left, viewport.width);
                rows.push(text);
            },
            None => {
                break;
            },
        }
        row = row + 1;
    }
    rows
}

/// The screen cell (column, row) where the terminal's cursor goes for the
/// editor cursor at `cursor`: its line's row within the viewport, and the
/// display column of its character (tabs before it expanded) within the
/// viewport. Coordinates are cut to 16 bits, as terminals take them.
pub fn cursor_cell<S: TextStorage>(buffer: &Buffer<S>, cursor: Position, viewport: &Viewport) -> (cell:
    (u16, u16))
    requires
        buffer.inv(),
        lines_expandable(buffer.lines()),
        cursor.line >= viewport.top,
        cursor.line < buffer.lines().len() ==> expand_spec(
            take_sat(buffer.lines()[cursor.line as int], cursor.column as int),
            TAB_WIDTH as int,
        ).len() >= viewport.left,
        cursor.line >= buffer.lines().len() ==> cursor.column >= viewport.left,
    ensures
        cell.1 == (cursor.line - viewport.top) as u16,
        cursor.line < buffer.lines().len() ==> cell.0 == (expand_spec(
            take_sat(buffer.lines()[cursor.line as int], cursor.column as int),
            TAB_WIDTH as int,
        ).len() - viewport.left) as u16,
        cursor.line >= buffer.lines().len() ==> cell.0 == (cursor.column - viewport.left) as u16,
{
    let column = match buffer.line(cursor.line) {
        Some(line) => {
            assert(buffer.lines()[cursor.line as int].len() * TAB_WIDTH <= usize::MAX);
            display_column(line.as_str(), cursor.column, TAB_WIDTH)
        },
        None => cursor.column,
    };
    let row = (cursor.line - viewport.top) as u16;
    let col = (column - viewport.left) as u16;
    (col, row)
}

} // verus!
