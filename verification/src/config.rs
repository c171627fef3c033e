//! User-configurable editor settings, parsed from a config file's text.
//!
//! The file uses a flat `key = value` syntax, one setting per line, with `#`
//! comments: a subset of TOML (no tables, no nesting). A config file is
//! entirely optional: every key defaults to something reasonable, and a
//! missing file counts exactly like an empty one. Example:
//!
//! ```toml
//! tab_width = 2
//! insert_spaces_for_tab = true
//! backend = "ropey"
//! ```

use vstd::prelude::*;

use crate::input::{char_is_whitespace, is_whitespace_spec};
use crate::text::{chars_to_string, split_chars, split_lines, str_chars};

verus! {

/// Which storage backend to run the editor with.
#[derive(Debug, Clone, Copy, PartialEq, Eq, Structural)]
pub enum Backend {
    /// One line per entry of a `Vec`: the simplest backend.
    Vec,
    /// A hand-rolled rope.
    Rope,
    /// A rope backed by the `ropey` crate.
    Ropey,
}

/// All user-configurable editor settings.
#[derive(Debug, Clone, Copy, PartialEq, Eq, Structural)]
pub struct Config {
    /// How many columns a tab advances to, and how many spaces replace it
    /// when `insert_spaces_for_tab` is set. Key: `tab_width`. Default: 4.
    pub tab_width: usize,
    /// Whether Tab inserts `tab_width` spaces instead of a tab character.
    /// Key: `insert_spaces_for_tab`. Default: `false`.
    pub insert_spaces_for_tab: bool,
    /// The backend to start with when none is given on the command line.
    /// Key: `backend`. Default: [`Backend::Ropey`].
    pub backend: Backend,
}

/// What went wrong loading or parsing a config file.
#[derive(Debug, Clone, PartialEq, Eq)]
pub enum ConfigError {
    /// Reading the config file failed for a reason other than it not
    /// existing; `message` says why.
    Io { path: String, message: String },
    /// The file couldn't be parsed: an unknown key, a malformed line, or a
    /// value of the wrong type. `line` counts from 1.
    Parse { path: String, line: usize, message: String },
}

/// The default settings.
pub open spec fn default_config() -> Config {
    Config { tab_width: 4, insert_spaces_for_tab: false, backend: Backend::Ropey }
}

impl Default for Config {
    fn default() -> (c: Self)
        ensures
            c == default_config(),
    {
        Self { tab_width: 4, insert_spaces_for_tab: false, backend: Backend::Ropey }
    }
}

/// The backend named `name`, if any.
pub open spec fn backend_spec(name: Seq<char>) -> Option<Backend> {
    if name == "vec"@ {
        Some(Backend::Vec)
    } else if name == "rope"@ {
        Some(Backend::Rope)
    } else if name == "ropey"@ {
        Some(Backend::Ropey)
    } else {
        None
    }
}

/// Whether `a` and `b` hold the same characters.
pub fn chars_eq(a: &[char], b: &[char]) -> (e: bool)
    ensures
        e == (a@ == b@),
{
    if a.len() != b.len() {
        return false;
    }
    let mut i: usize = 0;
    while i < a.len()
        invariant
            a@.len() == b@.len(),
            i <= a@.len(),
            forall|k: int| 0 <= k < i ==> a@[k] == b@[k],
        decreases a@.len() - i,
    {
        if a[i] != b[i] {
            return false;
        }
        i = i + 1;
    }
    assert(a@ =~= b@);
    true
}

/// Whether `a` holds the characters of the string `b`.
fn chars_eq_str(a: &[char], b: &str) -> (e: bool)
    ensures
        e == (a@ == b@),
{
    let bc = str_chars(b);
    chars_eq(a, bc.as_slice())
}

impl Backend {
    /// Parses a backend name as accepted in config files and on the
    /// command line: `"vec"`, `"rope"` or `"ropey"`.
    pub fn parse(name: &str) -> (b: Option<Self>)
        ensures
            b == backend_spec(name@),
    {
        let chars = str_chars(name);
        Self::parse_chars(chars.as_slice())
    }

    /// [`Self::parse`] for the characters of a name.
    fn parse_chars(name: &[char]) -> (b: Option<Self>)
        ensures
            b == backend_spec(name@),
    {
        if chars_eq_str(name, "vec") {
            Some(Backend::Vec)
        } else if chars_eq_str(name, "rope") {
            Some(Backend::Rope)
        } else if chars_eq_str(name, "ropey") {
            Some(Backend::Ropey)
        } else {
            None
        }
    }

    /// The name [`Self::parse`] reads back as this backend.
    pub fn name(&self) -> (s: &'static str)
        ensures
            backend_spec(s@) == Some(*self),
    {
        proof {
            reveal_strlit("vec");
            reveal_strlit("rope");
            reveal_strlit("ropey");
            assert("rope"@.len() != "vec"@.len());
            assert("ropey"@.len() != "vec"@.len());
            assert("ropey"@.len() != "rope"@.len());
        }
        match *self {
            Backend::Vec => "vec",
            Backend::Rope => "rope",
            Backend::Ropey => "ropey",
        }
    }
}

// ===== Text helpers =====

/// The lines of `s` as `str::lines` gives them: split at each `'\n'`, a
/// `'\r'` just before a `'\n'` dropped with it, and no empty line after a
/// final `'\n'` (so the empty text has no lines).
pub open spec fn lines_spec(s: Seq<char>) -> Seq<Seq<char>> {
    let parts = split_lines(s);
    let kept = if parts.last().len() == 0 {
        parts.drop_last()
    } else {
        parts
    };
    Seq::new(
        kept.len(),
        |i: int|
            if i + 1 < parts.len() && kept[i].len() > 0 && kept[i].last() == '\r' {
                kept[i].drop_last()
            } else {
                kept[i]
            },
    )
}

/// The index of the first character of `s` from `i` on that is not
/// whitespace, or `s.len()` if there is none.
pub open spec fn first_non_ws(s: Seq<char>, i: int) -> int
    decreases s.len() - i,
{
    if i >= s.len() {
        s.len() as int
    } else if is_whitespace_spec(s[i]) {
        first_non_ws(s, i + 1)
    } else {
        i
    }
}

/// One past the index of the last character of `s` before `j` that is not
/// whitespace, or 0 if there is none.
pub open spec fn last_non_ws(s: Seq<char>, j: int) -> int
    decreases j,
{
    if j <= 0 {
        0
    } else if is_whitespace_spec(s[j - 1]) {
        last_non_ws(s, j - 1)
    } else {
        j
    }
}

/// `s` with leading and trailing whitespace removed, as `str::trim` does.
pub open spec fn trim_spec(s: Seq<char>) -> Seq<char> {
    let a = first_non_ws(s, 0);
    if a >= s.len() {
        Seq::<char>::empty()
    } else {
        s.subrange(a, last_non_ws(s, s.len() as int))
    }
}

proof fn lemma_first_non_ws_bounds(s: Seq<char>, i: int)
    requires
        0 <= i <= s.len(),
    ensures
        i <= first_non_ws(s, i) <= s.len(),
        first_non_ws(s, i) < s.len() ==> !is_whitespace_spec(s[first_non_ws(s, i)]),
    decreases s.len() - i,
{
    if i < s.len() && is_whitespace_spec(s[i]) {
        lemma_first_non_ws_bounds(s, i + 1);
    }
}

proof fn lemma_last_non_ws_le(s: Seq<char>, j: int)
    ensures
        last_non_ws(s, j) <= j || j <= 0,
        last_non_ws(s, j) >= 0,
    decreases j,
{
    if j > 0 && is_whitespace_spec(s[j - 1]) {
        lemma_last_non_ws_le(s, j - 1);
    }
}

proof fn lemma_last_non_ws_bounds(s: Seq<char>, j: int, a: int)
    requires
        0 <= a < j <= s.len(),
        !is_whitespace_spec(s[a]),
    ensures
        a < last_non_ws(s, j) <= j,
    decreases j,
{
    if is_whitespace_spec(s[j - 1]) {
        lemma_last_non_ws_bounds(s, j - 1, a);
    }
}

/// `s` with leading and trailing whitespace removed.
pub fn trim_chars(s: &[char]) -> (t: Vec<char>)
    ensures
        t@ == trim_spec(s@),
{
    let n = s.len();
    let mut a: usize = 0;
    while a < n && char_is_whitespace(s[a])
        invariant
            a <= n == s@.len(),
            first_non_ws(s@, a as int) == first_non_ws(s@, 0),
        decreases n - a,
    {
        a = a + 1;
    }
    proof {
        lemma_first_non_ws_bounds(s@, 0);
    }
    if a >= n {
        return Vec::new();
    }
    let mut b: usize = n;
    while b > a && char_is_whitespace(s[b - 1])
        invariant
            a < n == s@.len(),
            a <= b <= n,
            a == first_non_ws(s@, 0),
            last_non_ws(s@, b as int) == last_non_ws(s@, n as int),
        decreases b,
    {
        b = b - 1;
    }
    proof {
        lemma_last_non_ws_bounds(s@, n as int, a as int);
        lemma_last_non_ws_le(s@, b as int);
    }
    let mut t: Vec<char> = Vec::new();
    let mut k: usize = a;
    while k < b
        invariant
            a <= k <= b <= n == s@.len(),
            t@ == s@.subrange(a as int, k as int),
        decreases b - k,
    {
        t.push(s[k]);
        proof {
            assert(s@.subrange(a as int, k + 1) == s@.subrange(a as int, k as int).push(s@[k as int]));
        }
        k = k + 1;
    }
    t
}

/// The index of the first `'='` in `s`, if any.
pub open spec fn find_eq(s: Seq<char>) -> Option<int> {
    if exists|i: int| 0 <= i < s.len() && s[i] == '=' {
        Some(choose|i: int| 0 <= i < s.len() && s[i] == '=' && forall|k: int| 0 <= k < i ==> s[k] != '=')
    } else {
        None
    }
}

/// The index of the first `'='` in `s`, if any.
fn find_eq_exec(s: &[char]) -> (r: Option<usize>)
    ensures
        r is None <==> !(exists|i: int| 0 <= i < s@.len() && s@[i] == '='),
        r matches Some(i) ==> i < s@.len() && s@[i as int] == '=' && forall|k: int|
            0 <= k < i ==> s@[k] != '=',
{
    let mut i: usize = 0;
    while i < s.len()
        invariant
            i <= s@.len(),
            forall|k: int| 0 <= k < i ==> s@[k] != '=',
        decreases s@.len() - i,
    {
        if s[i] == '=' {
            return Some(i);
        }
        i = i + 1;
    }
    None
}

/// `s` without one layer of matching double quotes, if it has them, so
/// `backend = "ropey"` and `backend = ropey` read the same.
pub open spec fn unquote_spec(s: Seq<char>) -> Seq<char> {
    if s.len() >= 2 && s[0] == '"' && s.last() == '"' {
        s.subrange(1, s.len() - 1)
    } else {
        s
    }
}

/// Strips one layer of matching double quotes from `value`, if present.
pub fn unquote(value: &[char]) -> (r: Vec<char>)
    ensures
        r@ == unquote_spec(value@),
{
    let n = value.len();
    let mut out: Vec<char> = Vec::new();
    if n >= 2 && value[0] == '"' && value[n - 1] == '"' {
        let mut k: usize = 1;
        while k < n - 1
            invariant
                1 <= k <= n - 1,
                n == value@.len(),
                out@ == value@.subrange(1, k as int),
            decreases n - 1 - k,
        {
            out.push(value[k]);
            proof {
                assert(value@.subrange(1, k + 1) == value@.subrange(1, k as int).push(value@[k as int]));
            }
            k = k + 1;
        }
    } else {
        let mut k: usize = 0;
        while k < n
            invariant
                k <= n == value@.len(),
                out@ == value@.take(k as int),
            decreases n - k,
        {
            out.push(value[k]);
            proof {
                assert(value@.take(k + 1) == value@.take(k as int).push(value@[k as int]));
            }
            k = k + 1;
        }
        assert(value@.take(n as int) == value@);
    }
    out
}

/// The number the ASCII digits `s` spell, most significant first.
pub open spec fn digits_value(s: Seq<char>) -> nat
    decreases s.len(),
{
    if s.len() == 0 {
        0
    } else {
        digits_value(s.drop_last()) * 10 + (s.last() as nat - '0' as nat) as nat
    }
}

/// Whether every character of `s` is an ASCII digit.
pub open spec fn all_digits(s: Seq<char>) -> bool {
    forall|i: int| 0 <= i < s.len() ==> '0' <= #[trigger] s[i] <= '9'
}

/// The `usize` that `s` spells as `usize::from_str` reads it: an optional
/// `+`, then one or more ASCII digits, the value fitting in a `usize`.
pub open spec fn parse_usize_spec(s: Seq<char>) -> Option<usize> {
    let d = if s.len() > 0 && s[0] == '+' {
        s.skip(1)
    } else {
        s
    };
    if d.len() > 0 && all_digits(d) && digits_value(d) <= usize::MAX {
        Some(digits_value(d) as usize)
    } else {
        None
    }
}

/// Parses `s` as `usize::from_str` does.
pub fn parse_usize(s: &[char]) -> (r: Option<usize>)
    ensures
        r == parse_usize_spec(s@),
{
    let start: usize = if s.len() > 0 && s[0] == '+' {
        1
    } else {
        0
    };
    let ghost d = s@.skip(start as int);
    assert(d == if s@.len() > 0 && s@[0] == '+' {
        s@.skip(1)
    } else {
        s@
    });
    if start >= s.len() {
        return None;
    }
    let mut value: usize = 0;
    let mut i: usize = start;
    while i < s.len()
        invariant
            start <= i <= s@.len(),
            d == s@.skip(start as int),
            d == if s@.len() > 0 && s@[0] == '+' {
                s@.skip(1)
            } else {
                s@
            },
            all_digits(s@.subrange(start as int, i as int)),
            value == digits_value(s@.subrange(start as int, i as int)),
        decreases s@.len() - i,
    {
        let c = s[i];
        let ghost pre = s@.subrange(start as int, i as int);
        assert(s@.subrange(start as int, i + 1) == pre.push(c));
        assert(s@.subrange(start as int, i + 1).drop_last() == pre);
        if !('0' <= c && c <= '9') {
            assert(!all_digits(d)) by {
                assert(d[i - start] == c);
            }
            return None;
        }
        let digit = (c as u32 - '0' as u32) as usize;
        if value > (usize::MAX - digit) / 10 {
            proof {
                lemma_digits_mono(d, (i - start + 1) as int);
                assert(d.take(i - start + 1) == s@.subrange(start as int, i + 1));
                assert(digits_value(s@.subrange(start as int, i + 1)) == value * 10 + digit);
                assert(value * 10 + digit > usize::MAX) by (nonlinear_arith)
                    requires
                        value > (usize::MAX - digit) / 10,
                        digit <= 9,
                ;
            }
            return None;
        }
        assert(value * 10 + digit <= usize::MAX) by (nonlinear_arith)
            requires
                value <= (usize::MAX - digit) / 10,
                digit <= 9,
        ;
        value = value * 10 + digit;
        i = i + 1;
    }
    assert(s@.subrange(start as int, s@.len() as int) == d);
    Some(value)
}

/// A longer prefix of digits never spells a smaller number.
proof fn lemma_digits_mono(d: Seq<char>, k: int)
    requires
        0 <= k <= d.len(),
    ensures
        all_digits(d) ==> digits_value(d.take(k)) <= digits_value(d),
    decreases d.len() - k,
{
    if k < d.len() {
        lemma_digits_mono(d, k + 1);
        assert(d.take(k + 1).drop_last() == d.take(k));
        if all_digits(d) {
            assert('0' <= d[k] <= '9');
        }
    } else {
        assert(d.take(k) == d);
    }
}

/// The `bool` that `s` spells as `bool::from_str` reads it: exactly
/// `true` or `false`.
pub open spec fn parse_bool_spec(s: Seq<char>) -> Option<bool> {
    if s == "true"@ {
        Some(true)
    } else if s == "false"@ {
        Some(false)
    } else {
        None
    }
}

/// Parses `s` as `bool::from_str` does.
pub fn parse_bool(s: &[char]) -> (r: Option<bool>)
    ensures
        r == parse_bool_spec(s@),
{
    if chars_eq_str(s, "true") {
        Some(true)
    } else if chars_eq_str(s, "false") {
        Some(false)
    } else {
        None
    }
}

/// The value a `key = value` line of a config file gives its key, with
/// the blanks around it and any quotes taken off; empty for any other line.
pub open spec fn line_value(raw: Seq<char>) -> Seq<char> {
    let line = trim_spec(raw);
    match find_eq(line) {
        Some(i) => unquote_spec(trim_spec(line.skip(i + 1))),
        None => Seq::<char>::empty(),
    }
}

/// Law: the words `true` and `false` read back as the booleans they spell,
/// and no other text reads as a boolean.
pub proof fn lemma_parse_bool_reads_back(b: bool, s: Seq<char>)
    ensures
        parse_bool_spec(if b { "true"@ } else { "false"@ }) == Some(b),
        parse_bool_spec(s) is Some <==> (s == "true"@ || s == "false"@),
{
    reveal_strlit("true");
    reveal_strlit("false");
    assert("true"@ != "false"@) by {
        assert("true"@[0] != "false"@[0]);
    }
}

/// Law: a line assigning `insert_spaces_for_tab` sets it to `false` where
/// its value is `false` and to `true` where its value is `true`, leaving
/// the other settings as they were; any other value is refused.
pub proof fn lemma_bool_setting(cfg: Config, raw: Seq<char>)
    requires
        line_key(raw) == Some("insert_spaces_for_tab"@),
    ensures
        line_value(raw) == "false"@ ==> step_spec(cfg, raw) == Ok::<Config, Seq<char>>(
            Config { insert_spaces_for_tab: false, ..cfg },
        ),
        line_value(raw) == "true"@ ==> step_spec(cfg, raw) == Ok::<Config, Seq<char>>(
            Config { insert_spaces_for_tab: true, ..cfg },
        ),
        step_spec(cfg, raw) is Ok <==> (line_value(raw) == "true"@ || line_value(raw) == "false"@),
{
    reveal_strlit("tab_width");
    reveal_strlit("insert_spaces_for_tab");
    assert("insert_spaces_for_tab"@ != "tab_width"@) by {
        assert("insert_spaces_for_tab"@.len() != "tab_width"@.len());
    }
    lemma_parse_bool_reads_back(true, line_value(raw));
    lemma_parse_bool_reads_back(false, line_value(raw));
}

/// Law: the backend names. `vec`, `rope` and `ropey` name the three
/// backends, and no other text names one.
pub proof fn lemma_backend_names(s: Seq<char>)
    ensures
        backend_spec("vec"@) == Some(Backend::Vec),
        backend_spec("rope"@) == Some(Backend::Rope),
        backend_spec("ropey"@) == Some(Backend::Ropey),
        backend_spec(s) is Some <==> (s == "vec"@ || s == "rope"@ || s == "ropey"@),
{
    reveal_strlit("vec");
    reveal_strlit("rope");
    reveal_strlit("ropey");
    assert("rope"@.len() != "vec"@.len());
    assert("ropey"@.len() != "vec"@.len());
    assert("ropey"@.len() != "rope"@.len());
}

/// Law: numbers are read in decimal. A single digit reads as its value;
/// one more digit after a number multiplies it by ten and adds the digit,
/// as long as the result fits in a `usize`; and a leading `+` changes
/// nothing.
pub proof fn lemma_parse_usize_decimal(d: Seq<char>, c: char)
    requires
        '0' <= c <= '9',
    ensures
        parse_usize_spec(seq![c]) == Some((c as nat - '0' as nat) as usize),
        parse_usize_spec(d) is Some && all_digits(d) && parse_usize_spec(d)->0 * 10 + (c as nat
            - '0' as nat) <= usize::MAX ==> parse_usize_spec(d.push(c)) == Some(
            (parse_usize_spec(d)->0 * 10 + (c as nat - '0' as nat)) as usize,
        ),
        all_digits(d) ==> parse_usize_spec(seq!['+'] + d) == parse_usize_spec(d),
{
    let one = seq![c];
    assert(one.drop_last() =~= Seq::<char>::empty());
    assert(one[0] == c && one.last() == c);
    assert(all_digits(one));
    assert(digits_value(one) == digits_value(Seq::<char>::empty()) * 10 + (c as nat - '0' as nat));
    assert(digits_value(one) == (c as nat - '0' as nat));
    if all_digits(d) {
        let e = d.push(c);
        assert(e.drop_last() == d);
        assert(all_digits(e));
        if d.len() > 0 {
            assert(d[0] != '+');
            assert(e[0] == d[0]);
        }
        assert((seq!['+'] + d).skip(1) =~= d);
    }
}

/// How `{:?}` renders a string: in double quotes, with special characters
/// escaped.
pub uninterp spec fn debug_str_spec(s: Seq<char>) -> Seq<char>;

/// Renders `s` as `{:?}` does, through `format!`. Its result is named,
/// not stated: std's `Debug` for `str` quotes it and escapes it with
/// `char::escape_debug`, a function of `s` alone.
#[verifier::external_body]
fn debug_str(s: &str) -> (r: String)
    ensures
        r@ == debug_str_spec(s@),
{
    format!("{s:?}")
}

/// [`debug_str`] of the characters `s`.
fn debug_chars(s: &[char]) -> (r: String)
    ensures
        r@ == debug_str_spec(s@),
{
    let text = chars_to_string(s);
    debug_str(text.as_str())
}

/// `a` followed by `b` as a `String`.
fn concat2(a: &str, b: &str) -> (s: String)
    ensures
        s@ == a@ + b@,
{
    let mut chars = str_chars(a);
    let mut more = str_chars(b);
    chars.append(&mut more);
    chars_to_string(chars.as_slice())
}

/// What one line of a config file does to the settings `cfg`: a blank or
/// comment line leaves them; a `key = value` line with a known key and a
/// good value sets that key; anything else is the error message returned.
pub open spec fn step_spec(cfg: Config, raw: Seq<char>) -> Result<Config, Seq<char>> {
    let line = trim_spec(raw);
    if line.len() == 0 || line[0] == '#' {
        Ok(cfg)
    } else {
        match find_eq(line) {
            None => Err("expected `key = value`, got "@ + debug_str_spec(raw)),
            Some(i) => {
                let key = trim_spec(line.take(i));
                let value = unquote_spec(trim_spec(line.skip(i + 1)));
                if key == "tab_width"@ {
                    match parse_usize_spec(value) {
                        None => Err(
                            "tab_width must be a positive integer, got "@ + debug_str_spec(value),
                        ),
                        Some(w) => if w == 0 {
                            Err("tab_width must be at least 1"@)
                        } else {
                            Ok(Config { tab_width: w, ..cfg })
                        },
                    }
                } else if key == "insert_spaces_for_tab"@ {
                    match parse_bool_spec(value) {
                        None => Err(
                            "insert_spaces_for_tab must be true or false, got "@ + debug_str_spec(
                                value,
                            ),
                        ),
                        Some(b) => Ok(Config { insert_spaces_for_tab: b, ..cfg }),
                    }
                } else if key == "backend"@ {
                    match backend_spec(value) {
                        None => Err(
                            "unknown backend "@ + debug_str_spec(value)
                                + " (expected vec, rope, or ropey)"@,
                        ),
                        Some(b) => Ok(Config { backend: b, ..cfg }),
                    }
                } else {
                    Err("unknown config key "@ + debug_str_spec(key))
                }
            },
        }
    }
}

/// The settings after the lines of `ls` from `i` on act on `cfg` in turn,
/// or the first error with its line number (counting from 1).
pub open spec fn parse_from(ls: Seq<Seq<char>>, i: int, cfg: Config) -> Result<Config, (int, Seq<char>)>
    decreases ls.len() - i,
{
    if i >= ls.len() || i < 0 {
        Ok(cfg)
    } else {
        match step_spec(cfg, ls[i]) {
            Ok(c) => parse_from(ls, i + 1, c),
            Err(m) => Err((i + 1, m)),
        }
    }
}

/// The settings a config file with text `text` gives.
pub open spec fn parse_spec(text: Seq<char>) -> Result<Config, (int, Seq<char>)> {
    parse_from(lines_spec(text), 0, default_config())
}

/// The key a line of a config file assigns, if it is a `key = value` line.
pub open spec fn line_key(raw: Seq<char>) -> Option<Seq<char>> {
    let line = trim_spec(raw);
    if line.len() == 0 || line[0] == '#' {
        None
    } else {
        match find_eq(line) {
            None => None,
            Some(i) => Some(trim_spec(line.take(i))),
        }
    }
}

/// The index of the last of the lines `ls[lo..hi]` that assigns `key`.
pub open spec fn last_assigning(ls: Seq<Seq<char>>, lo: int, hi: int, key: Seq<char>) -> Option<int>
    decreases hi - lo,
{
    if hi <= lo {
        None
    } else if line_key(ls[hi - 1]) == Some(key) {
        Some(hi - 1)
    } else {
        last_assigning(ls, lo, hi - 1, key)
    }
}

/// The settings a single line gives on its own, starting from the
/// defaults.
pub open spec fn line_settings(raw: Seq<char>) -> Config {
    match step_spec(default_config(), raw) {
        Ok(c) => c,
        Err(_) => default_config(),
    }
}

/// The last line assigning `key` in `ls[lo..hi]` is the one in
/// `ls[lo + 1..hi]`, or else line `lo` if it assigns `key`.
proof fn lemma_last_assigning_front(ls: Seq<Seq<char>>, lo: int, hi: int, key: Seq<char>)
    requires
        0 <= lo < hi <= ls.len(),
    ensures
        last_assigning(ls, lo, hi, key) == match last_assigning(ls, lo + 1, hi, key) {
            Some(j) => Some(j),
            None => if line_key(ls[lo]) == Some(key) {
                Some(lo)
            } else {
                None
            },
        },
    decreases hi - lo,
{
    if hi - 1 > lo {
        lemma_last_assigning_front(ls, lo, hi - 1, key);
        if line_key(ls[hi - 1]) != Some(key) {
            assert(last_assigning(ls, lo, hi, key) == last_assigning(ls, lo, hi - 1, key));
            assert(last_assigning(ls, lo + 1, hi, key) == last_assigning(ls, lo + 1, hi - 1, key));
        }
    } else {
        assert(last_assigning(ls, lo, lo, key) == None::<int>);
        assert(last_assigning(ls, lo + 1, hi, key) == None::<int>);
    }
}

/// What one line that parses does to each setting: it sets the one its key
/// names, to what that line gives on its own, and keeps the others.
#[verifier::rlimit(50)]
proof fn lemma_step_fields(cfg: Config, raw: Seq<char>)
    requires
        step_spec(cfg, raw) is Ok,
    ensures
        ({
            let c = step_spec(cfg, raw)->Ok_0;
            let d = line_settings(raw);
            &&& c.tab_width == if line_key(raw) == Some("tab_width"@) {
                d.tab_width
            } else {
                cfg.tab_width
            }
            &&& c.insert_spaces_for_tab == if line_key(raw) == Some("insert_spaces_for_tab"@) {
                d.insert_spaces_for_tab
            } else {
                cfg.insert_spaces_for_tab
            }
            &&& c.backend == if line_key(raw) == Some("backend"@) {
                d.backend
            } else {
                cfg.backend
            }
        }),
{
    reveal_strlit("tab_width");
    reveal_strlit("insert_spaces_for_tab");
    reveal_strlit("backend");
    assert("insert_spaces_for_tab"@.len() != "tab_width"@.len());
    assert("backend"@.len() != "tab_width"@.len());
    assert("backend"@.len() != "insert_spaces_for_tab"@.len());
}

/// Each field after the lines of `ls` from `i` on act on `cfg` is that of
/// the last line assigning its key, or `cfg`'s where none does.
proof fn lemma_parse_from_last(ls: Seq<Seq<char>>, i: int, cfg: Config)
    requires
        0 <= i <= ls.len(),
        parse_from(ls, i, cfg) is Ok,
    ensures
        ({
            let c = parse_from(ls, i, cfg)->Ok_0;
            let n = ls.len() as int;
            &&& c.tab_width == match last_assigning(ls, i, n, "tab_width"@) {
                Some(j) => line_settings(ls[j]).tab_width,
                None => cfg.tab_width,
            }
            &&& c.insert_spaces_for_tab == match last_assigning(
                ls,
                i,
                n,
                "insert_spaces_for_tab"@,
            ) {
                Some(j) => line_settings(ls[j]).insert_spaces_for_tab,
                None => cfg.insert_spaces_for_tab,
            }
            &&& c.backend == match last_assigning(ls, i, n, "backend"@) {
                Some(j) => line_settings(ls[j]).backend,
                None => cfg.backend,
            }
        }),
    decreases ls.len() - i,
{
    let n = ls.len() as int;
    if i < n {
        let next = step_spec(cfg, ls[i])->Ok_0;
        lemma_parse_from_last(ls, i + 1, next);
        lemma_last_assigning_front(ls, i, n, "tab_width"@);
        lemma_last_assigning_front(ls, i, n, "insert_spaces_for_tab"@);
        lemma_last_assigning_front(ls, i, n, "backend"@);
        lemma_step_fields(cfg, ls[i]);
    }
}

/// Law: where a config file's text parses, each setting is the one the
/// last line assigning its key gives, or the default where no line assigns
/// it. The path plays no part in the settings.
pub proof fn lemma_last_assignment_wins(text: Seq<char>)
    requires
        parse_spec(text) is Ok,
    ensures
        ({
            let c = parse_spec(text)->Ok_0;
            let ls = lines_spec(text);
            let n = ls.len() as int;
            &&& c.tab_width == match last_assigning(ls, 0, n, "tab_width"@) {
                Some(j) => line_settings(ls[j]).tab_width,
                None => 4,
            }
            &&& c.insert_spaces_for_tab == match last_assigning(
                ls,
                0,
                n,
                "insert_spaces_for_tab"@,
            ) {
                Some(j) => line_settings(ls[j]).insert_spaces_for_tab,
                None => false,
            }
            &&& c.backend == match last_assigning(ls, 0, n, "backend"@) {
                Some(j) => line_settings(ls[j]).backend,
                None => Backend::Ropey,
            }
        }),
{
    lemma_parse_from_last(lines_spec(text), 0, default_config());
}

/// Law: an empty config file gives the default settings, exactly as a
/// missing one does.
pub proof fn lemma_empty_file_is_default()
    ensures
        parse_spec(Seq::<char>::empty()) == Ok::<Config, (int, Seq<char>)>(default_config()),
{
    let parts = split_lines(Seq::<char>::empty());
    assert(parts == seq![Seq::<char>::empty()]);
    assert(lines_spec(Seq::<char>::empty()).len() == 0);
}

/// The lines of `text`, as `str::lines` gives them.
fn text_lines(text: &str) -> (ls: Vec<Vec<char>>)
    ensures
        ls@.len() == lines_spec(text@).len(),
        forall|i: int| 0 <= i < ls@.len() ==> #[trigger] ls@[i]@ == lines_spec(text@)[i],
{
    let chars = str_chars(text);
    let mut parts = split_chars(&chars);
    let ghost sp = split_lines(text@);
    let n = parts.len();
    let last_empty = parts[n - 1].len() == 0;
    if last_empty {
        parts.pop();
    }
    let ghost kept = if sp.last().len() == 0 {
        sp.drop_last()
    } else {
        sp
    };
    assert(parts@.len() == kept.len());
    let m = parts.len();
    let mut out: Vec<Vec<char>> = Vec::new();
    let mut i: usize = 0;
    while i < m
        invariant
            m == parts@.len(),
            n == sp.len(),
            i <= m,
            kept.len() == m,
            forall|k: int| i <= k < m ==> #[trigger] parts@[k]@ == kept[k],
            lines_spec(text@).len() == m,
            sp == split_lines(text@),
            kept == (if sp.last().len() == 0 {
                sp.drop_last()
            } else {
                sp
            }),
            out@.len() == i,
            forall|k: int| 0 <= k < i ==> #[trigger] out@[k]@ == lines_spec(text@)[k],
        decreases m - i,
    {
        let mut line: Vec<char> = Vec::new();
        std::mem::swap(&mut line, &mut parts[i]);
        assert(line@ == kept[i as int]);
        let len = line.len();
        if i + 1 < n && len > 0 && line[len - 1] == '\r' {
            line.pop();
        }
        out.push(line);
        i = i + 1;
    }
    out
}

/// The error for line `line` of the file `path` with message `message`.
fn parse_error(path: &str, line: usize, message: String) -> (e: ConfigError)
    ensures
        e matches ConfigError::Parse { path: p, line: l, message: m } && p@ == path@ && l == line
            && m@ == message@,
{
    ConfigError::Parse { path: path.to_owned(), line, message }
}

/// What one line does to the settings `cfg` (see [`step_spec`]).
fn step(cfg: Config, raw: &[char]) -> (r: Result<Config, String>)
    ensures
        match r {
            Ok(c) => step_spec(cfg, raw@) == Ok::<Config, Seq<char>>(c),
            Err(m) => step_spec(cfg, raw@) == Err::<Config, Seq<char>>(m@),
        },
{
    let line = trim_chars(raw);
    if line.len() == 0 || line[0] == '#' {
        return Ok(cfg);
    }
    let eq = match find_eq_exec(line.as_slice()) {
        Some(i) => i,
        None => {
            assert(find_eq(line@) is None);
            return Err(concat2("expected `key = value`, got ", debug_chars(raw).as_str()));
        },
    };
    proof {
        assert(exists|i: int| 0 <= i < line@.len() && line@[i] == '=');
        let j = choose|i: int|
            0 <= i < line@.len() && line@[i] == '=' && forall|k: int| 0 <= k < i ==> line@[k] != '=';
        assert(j == eq as int) by {
            if j < eq {
                assert(line@[j] != '=');
            } else if j > eq {
                assert(line@[eq as int] != '=');
            }
        }
    }
    let mut key_part: Vec<char> = Vec::new();
    let mut k: usize = 0;
    while k < eq
        invariant
            k <= eq < line@.len(),
            key_part@ == line@.take(k as int),
        decreases eq - k,
    {
        key_part.push(line[k]);
        proof {
            assert(line@.take(k + 1) == line@.take(k as int).push(line@[k as int]));
        }
        k = k + 1;
    }
    let mut value_part: Vec<char> = Vec::new();
    let mut k: usize = eq + 1;
    while k < line.len()
        invariant
            eq + 1 <= k <= line@.len(),
            value_part@ == line@.subrange(eq + 1, k as int),
        decreases line@.len() - k,
    {
        value_part.push(line[k]);
        proof {
            assert(line@.subrange(eq + 1, k + 1) == line@.subrange(eq + 1, k as int).push(
                line@[k as int],
            ));
        }
        k = k + 1;
    }
    assert(line@.subrange(eq + 1, line@.len() as int) == line@.skip(eq + 1));
    let key = trim_chars(key_part.as_slice());
    let value = unquote(trim_chars(value_part.as_slice()).as_slice());
    if chars_eq_str(key.as_slice(), "tab_width") {
        match parse_usize(value.as_slice()) {
            None => Err(
                concat2(
                    "tab_width must be a positive integer, got ",
                    debug_chars(value.as_slice()).as_str(),
                ),
            ),
            Some(w) => {
                if w == 0 {
                    Err("tab_width must be at least 1".to_owned())
                } else {
                    Ok(Config { tab_width: w, ..cfg })
                }
            },
        }
    } else if chars_eq_str(key.as_slice(), "insert_spaces_for_tab") {
        match parse_bool(value.as_slice()) {
            None => Err(
                concat2(
                    "insert_spaces_for_tab must be true or false, got ",
                    debug_chars(value.as_slice()).as_str(),
                ),
            ),
            Some(b) => Ok(Config { insert_spaces_for_tab: b, ..cfg }),
        }
    } else if chars_eq_str(key.as_slice(), "backend") {
        match Backend::parse_chars(value.as_slice()) {
            None => {
                let head = concat2("unknown backend ", debug_chars(value.as_slice()).as_str());
                Err(concat2(head.as_str(), " (expected vec, rope, or ropey)"))
            },
            Some(b) => Ok(Config { backend: b, ..cfg }),
        }
    } else {
        Err(concat2("unknown config key ", debug_chars(key.as_slice()).as_str()))
    }
}

impl Config {
    /// Parses `text` as a config file's contents. `path` only names the
    /// file in parse errors.
    ///
    /// Each line is trimmed; blank lines and lines starting with `#` are
    /// skipped; every other line must be `key = value` with a known key
    /// (`tab_width`, a `usize` of at least 1; `insert_spaces_for_tab`,
    /// `true` or `false`; `backend`, `vec`, `rope` or `ropey`, optionally
    /// in double quotes). The first bad line is the error. Keys not
    /// mentioned keep their defaults.
    pub fn parse(text: &str, path: &str) -> (r: Result<Config, ConfigError>)
        ensures
            match parse_spec(text@) {
                Ok(c) => r == Ok::<Config, ConfigError>(c),
                Err((line, message)) => r matches Err(
                    ConfigError::Parse { path: p, line: l, message: m },
                ) && p@ == path@ && l == line && m@ == message,
            },
    {
        let lines = text_lines(text);
        let ghost ls = lines_spec(text@);
        let mut config = Config::default();
        let mut index: usize = 0;
        while index < lines.len()
            invariant
                index <= lines@.len(),
                lines@.len() == ls.len(),
                forall|i: int| 0 <= i < lines@.len() ==> #[trigger] lines@[i]@ == ls[i],
                parse_from(ls, index as int, config) == parse_spec(text@),
            decreases lines@.len() - index,
        {
            assert(lines@[index as int]@ == ls[index as int]);
            match step(config, lines[index].as_slice()) {
                Ok(c) => {
                    config = c;
                },
                Err(message) => {
                    return Err(parse_error(path, index + 1, message));
                },
            }
            index = index + 1;
        }
        Ok(config)
    }

    /// The settings for a config file: [`Self::parse`] of its text when
    /// there is one, the defaults when there is no file (a missing file is
    /// no error).
    pub fn load(text: Option<&str>, path: &str) -> (r: Result<Config, ConfigError>)
        ensures
            text is None ==> r == Ok::<Config, ConfigError>(default_config()),
            text matches Some(t) ==> match parse_spec(t@) {
                Ok(c) => r == Ok::<Config, ConfigError>(c),
                Err((line, message)) => r matches Err(
                    ConfigError::Parse { path: p, line: l, message: m },
                ) && p@ == path@ && l == line && m@ == message,
            },
    {
        match text {
            Some(t) => Self::parse(t, path),
            None => Ok(Self::default()),
        }
    }
}

} // verus!
