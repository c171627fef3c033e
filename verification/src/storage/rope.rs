//! A [`TextStorage`] backend built on a rope: a binary tree of text chunks
//! rather than one contiguous allocation (or one sequence per line, as
//! [`super::vec_storage::VecStorage`] uses).
//!
//! Unlike `VecStorage`, the document's text, line breaks included, lives
//! in the tree itself; there is no separate per-line `Vec`. Each internal
//! node caches the character count and `'\n'` count of its left subtree,
//! which is enough to translate a `(line, column)` [`Position`] into a
//! global character offset, or a character range into text, in tree
//! descents rather than a full scan. Leaves are capped at
//! [`MAX_LEAF_LEN`] characters: an insert that would grow a leaf past the
//! cap rebuilds just that leaf into a small balanced subtree.

use vstd::prelude::*;
use vstd::slice::{slice_subrange, slice_to_vec};

use crate::error::BufferError;
use crate::position::{normalize, Position, Range};
use crate::storage::TextStorage;
use crate::text::{
    char_offset, chars_to_string, count_lf, delete_lines, insert_lines, lemma_count_lf_concat,
    lemma_count_lf_le, lemma_delete_text, lemma_delete_wf, lemma_insert_text, lemma_insert_wf,
    lemma_join_around, lemma_join_split, lemma_line_count_bound, lemma_line_span,
    lemma_line_start_after_lf, lemma_line_start_prefix, lemma_line_start_suffix, lemma_offset_bound,
    lemma_split_join, lemma_split_len, lemma_split_wf, line_start, split_lines, str_chars, valid_pos,
    };

verus! {

/// Leaves are split once their character count exceeds this. Keeps a
/// single edit's leaf-level work bounded, independent of document size.
pub const MAX_LEAF_LEN: usize = 1024;

/// Subtrees no larger than this are never rebalanced, however skewed:
/// at this size the depth a rebuild would buy back is negligible.
pub const REBALANCE_MIN_CHARS: usize = 2048;

/// How skewed a subtree may get before it is rebuilt: once its smaller
/// side holds less than one `IMBALANCE_DIVISOR`th (a quarter) of its
/// characters, it is rebuilt balanced.
pub const IMBALANCE_DIVISOR: usize = 4;

/// A node in the rope tree: either a chunk of text, or a fork joining two
/// subtrees end to end (left's text immediately followed by right's).
enum Node {
    Leaf(Vec<char>),
    Internal(Internal),
}

/// An internal rope node. `left_chars`/`left_newlines` cache the left
/// subtree's totals so navigation never has to walk it to learn its size.
struct Internal {
    left: Box<Node>,
    right: Box<Node>,
    /// Character count of the entire left subtree.
    left_chars: usize,
    /// Count of `'\n'` characters in the entire left subtree.
    left_newlines: usize,
    /// Character count of this entire subtree (left and right).
    chars: usize,
}

impl Node {
    /// The text this subtree holds.
    spec fn text(self) -> Seq<char>
        decreases self,
    {
        match self {
            Node::Leaf(s) => s@,
            Node::Internal(n) => (*n.left).text() + (*n.right).text(),
        }
    }

    /// Every leaf is within the cap, and every cached count is right.
    spec fn wf(self) -> bool
        decreases self,
    {
        match self {
            Node::Leaf(s) => s@.len() <= MAX_LEAF_LEN,
            Node::Internal(n) => {
                &&& (*n.left).wf()
                &&& (*n.right).wf()
                &&& n.left_chars == (*n.left).text().len()
                &&& n.left_newlines == count_lf((*n.left).text())
                &&& n.chars == (*n.left).text().len() + (*n.right).text().len()
            },
        }
    }

    /// Whether this is an internal node of more than
    /// [`REBALANCE_MIN_CHARS`] characters whose smaller side holds less than
    /// one [`IMBALANCE_DIVISOR`]th of them.
    spec fn skewed(self) -> bool {
        match self {
            Node::Leaf(_) => false,
            Node::Internal(n) => {
                let right = n.chars - n.left_chars;
                let smaller = if n.left_chars < right {
                    n.left_chars as int
                } else {
                    right
                };
                &&& n.chars > REBALANCE_MIN_CHARS
                &&& IMBALANCE_DIVISOR * smaller < n.chars
            },
        }
    }

    /// Whether this subtree has the shape a fresh build from its text gives:
    /// a leaf within the cap, or a node of more than [`MAX_LEAF_LEN`]
    /// characters split in half, with both halves built the same way.
    spec fn built(self) -> bool
        decreases self,
    {
        match self {
            Node::Leaf(s) => s@.len() <= MAX_LEAF_LEN,
            Node::Internal(n) => {
                &&& n.chars > MAX_LEAF_LEN
                &&& n.left_chars == n.chars / 2
                &&& (*n.left).built()
                &&& (*n.right).built()
            },
        }
    }

    /// The tree's height (a single leaf has depth 1).
    spec fn depth(self) -> nat
        decreases self,
    {
        match self {
            Node::Leaf(_) => 1,
            Node::Internal(n) => {
                let l = (*n.left).depth();
                let r = (*n.right).depth();
                1 + if l >= r {
                    l
                } else {
                    r
                }
            },
        }
    }
}

/// The number of `'\n'`s in `s`.
fn count_newlines(s: &[char]) -> (n: usize)
    ensures
        n == count_lf(s@),
{
    let mut n: usize = 0;
    let mut i: usize = 0;
    while i < s.len()
        invariant
            i <= s@.len(),
            n == count_lf(s@.take(i as int)),
            n <= i,
        decreases s@.len() - i,
    {
        proof {
            assert(s@.take(i + 1).drop_last() == s@.take(i as int));
        }
        if s[i] == '\n' {
            n = n + 1;
        }
        i = i + 1;
    }
    assert(s@.take(s@.len() as int) == s@);
    n
}

/// Appends `s[lo..hi]` to `buf`.
fn append_chars(buf: &mut Vec<char>, s: &[char], lo: usize, hi: usize)
    requires
        lo <= hi <= s@.len(),
    ensures
        final(buf)@ == old(buf)@ + s@.subrange(lo as int, hi as int),
{
    let mut k: usize = lo;
    while k < hi
        invariant
            lo <= k <= hi <= s@.len(),
            buf@ == old(buf)@ + s@.subrange(lo as int, k as int),
        decreases hi - k,
    {
        buf.push(s[k]);
        proof {
            assert(s@.subrange(lo as int, k + 1) == s@.subrange(lo as int, k as int).push(
                s@[k as int],
            ));
        }
        k = k + 1;
    }
}

/// How deleting `[start, end)` from a left text `lt` followed by a right
/// text `rt` splits into a delete on each side.
proof fn lemma_delete_join(
    lt: Seq<char>,
    rt: Seq<char>,
    start: int,
    end: int,
    l2t: Seq<char>,
    r2t: Seq<char>,
    ldc: int,
    rdc: int,
    ldn: int,
    rdn: int,
)
    requires
        0 <= start < end <= lt.len() + rt.len(),
        start < lt.len() ==> {
            let le = if end < lt.len() {
                end
            } else {
                lt.len() as int
            };
            &&& l2t == lt.take(start) + lt.skip(le)
            &&& ldc == le - start
            &&& ldn == count_lf(lt.subrange(start, le))
        },
        start >= lt.len() ==> l2t == lt && ldc == 0 && ldn == 0,
        end > lt.len() ==> {
            let rs = if start > lt.len() {
                start - lt.len()
            } else {
                0
            };
            &&& r2t == rt.take(rs) + rt.skip(end - lt.len())
            &&& rdc == end - lt.len() - rs
            &&& rdn == count_lf(rt.subrange(rs, end - lt.len()))
        },
        end <= lt.len() ==> r2t == rt && rdc == 0 && rdn == 0,
    ensures
        l2t + r2t == (lt + rt).take(start) + (lt + rt).skip(end),
        ldc + rdc == end - start,
        ldn + rdn == count_lf((lt + rt).subrange(start, end)),
        l2t.len() == lt.len() - ldc,
        count_lf(l2t) == count_lf(lt) - ldn,
{
    let t = lt + rt;
    let lc = lt.len() as int;
    let le = if end < lc {
        end
    } else {
        lc
    };
    let rs = if start > lc {
        start - lc
    } else {
        0
    };
    let re = if end > lc {
        end - lc
    } else {
        0
    };
    let lpart = if start < le {
        lt.subrange(start, le)
    } else {
        Seq::<char>::empty()
    };
    let rpart = if rs < re {
        rt.subrange(rs, re)
    } else {
        Seq::<char>::empty()
    };
    assert(t.subrange(start, end) == lpart + rpart);
    lemma_count_lf_concat(lpart, rpart);
    if start < lc {
        assert(lt == lt.take(start) + lpart + lt.skip(le));
        lemma_count_lf_concat(lt.take(start), lpart);
        lemma_count_lf_concat(lt.take(start) + lpart, lt.skip(le));
        lemma_count_lf_concat(lt.take(start), lt.skip(le));
    }
    if end <= lc {
        assert(l2t + r2t == t.take(start) + t.skip(end));
    } else if start >= lc {
        assert(l2t + r2t == t.take(start) + t.skip(end));
    } else {
        assert(l2t + r2t == t.take(start) + t.skip(end));
    }
}

impl Node {
    /// Builds a roughly balanced subtree holding `text`, by bisecting until
    /// every leaf is within [`MAX_LEAF_LEN`].
    fn from_chars(text: &[char]) -> (n: Node)
        ensures
            n.wf(),
            n.built(),
            n.text() == text@,
        decreases text@.len(),
    {
        let total = text.len();
        if total <= MAX_LEAF_LEN {
            return Node::Leaf(slice_to_vec(text));
        }
        let mid = total / 2;
        let left_text = slice_subrange(text, 0, mid);
        let right_text = slice_subrange(text, mid, total);
        let left = Node::from_chars(left_text);
        let right = Node::from_chars(right_text);
        let left_newlines = count_newlines(left_text);
        assert(left_text@ + right_text@ == text@);
        Node::Internal(
            Internal { left: Box::new(left), right: Box::new(right), left_chars: mid, left_newlines, chars: total },
        )
    }

    /// Appends every leaf's text, in order, to `buf`.
    fn flatten(&self, buf: &mut Vec<char>)
        ensures
            final(buf)@ == old(buf)@ + self.text(),
        decreases self,
    {
        match self {
            Node::Leaf(s) => {
                append_chars(buf, s.as_slice(), 0, s.len());
                assert(s@.subrange(0, s@.len() as int) == s@);
            },
            Node::Internal(n) => {
                n.left.flatten(buf);
                n.right.flatten(buf);
            },
        }
    }

    /// Whether this node is a large enough internal node whose smaller
    /// side holds less than a quarter of its characters.
    fn is_skewed(&self) -> (b: bool)
        requires
            self.wf(),
        ensures
            b == self.skewed(),
    {
        match self {
            Node::Leaf(_) => false,
            Node::Internal(n) => {
                let total = n.chars;
                if total <= REBALANCE_MIN_CHARS {
                    return false;
                }
                let right_chars = total - n.left_chars;
                let smaller = if n.left_chars < right_chars {
                    n.left_chars
                } else {
                    right_chars
                };
                // smaller < total / 4, in exact arithmetic.
                let quarter = total / IMBALANCE_DIVISOR;
                smaller < quarter || (smaller == quarter && total % IMBALANCE_DIVISOR != 0)
            },
        }
    }

    /// After an edit changed this subtree's shape, rebuilds it balanced if
    /// it has become skewed; the text is kept either way.
    fn rebalance_if_needed(self) -> (r: Node)
        requires
            self.wf(),
        ensures
            r.wf(),
            r.text() == self.text(),
            self.skewed() ==> r.built(),
            !self.skewed() ==> r == self,
    {
        if self.is_skewed() {
            let mut buf: Vec<char> = Vec::new();
            self.flatten(&mut buf);
            assert(buf@ == self.text());
            Node::from_chars(buf.as_slice())
        } else {
            self
        }
    }

    /// Inserts `text` at character offset `at` (relative to this node).
    /// Returns the new subtree and the `(chars_added, newlines_added)`
    /// delta, so callers on the way back up can adjust cached counts.
    fn insert(self, at: usize, text: &[char]) -> (r: (Node, usize, usize))
        requires
            self.wf(),
            at <= self.text().len(),
            self.text().len() + text@.len() <= usize::MAX,
        ensures
            r.0.wf(),
            r.0.text() == self.text().take(at as int) + text@ + self.text().skip(at as int),
            r.1 == text@.len(),
            r.2 == count_lf(text@),
        decreases self,
    {
        match self {
            Node::Leaf(s) => {
                let mut v: Vec<char> = Vec::new();
                append_chars(&mut v, s.as_slice(), 0, at);
                append_chars(&mut v, text, 0, text.len());
                append_chars(&mut v, s.as_slice(), at, s.len());
                proof {
                    assert(s@.subrange(0, at as int) == s@.take(at as int));
                    assert(text@.subrange(0, text@.len() as int) == text@);
                    assert(s@.subrange(at as int, s@.len() as int) == s@.skip(at as int));
                }
                let node = if v.len() > MAX_LEAF_LEN {
                    Node::from_chars(v.as_slice())
                } else {
                    Node::Leaf(v)
                };
                (node, text.len(), count_newlines(text))
            },
            Node::Internal(n) => {
                let Internal { left, right, left_chars, left_newlines, chars } = n;
                let ghost lt = (*left).text();
                let ghost rt = (*right).text();
                if at <= left_chars {
                    let (l2, dc, dn) = (*left).insert(at, text);
                    proof {
                        let nl = lt.take(at as int) + text@ + lt.skip(at as int);
                        assert(lt == lt.take(at as int) + lt.skip(at as int));
                        lemma_count_lf_concat(lt.take(at as int), lt.skip(at as int));
                        lemma_count_lf_concat(lt.take(at as int), text@);
                        lemma_count_lf_concat(lt.take(at as int) + text@, lt.skip(at as int));
                        lemma_count_lf_le(nl);
                        assert((lt + rt).take(at as int) == lt.take(at as int));
                        assert((lt + rt).skip(at as int) == lt.skip(at as int) + rt);
                        assert(nl + rt == (lt + rt).take(at as int) + text@ + (lt + rt).skip(
                            at as int,
                        ));
                    }
                    let node = Node::Internal(
                        Internal {
                            left: Box::new(l2),
                            right,
                            left_chars: left_chars + dc,
                            left_newlines: left_newlines + dn,
                            chars: chars + dc,
                        },
                    );
                    (node.rebalance_if_needed(), dc, dn)
                } else {
                    let (r2, dc, dn) = (*right).insert(at - left_chars, text);
                    proof {
                        let k = at - left_chars;
                        assert((lt + rt).take(at as int) == lt + rt.take(k));
                        assert((lt + rt).skip(at as int) == rt.skip(k));
                        assert(lt + (rt.take(k) + text@ + rt.skip(k)) == (lt + rt).take(at as int)
                            + text@ + (lt + rt).skip(at as int));
                    }
                    let node = Node::Internal(
                        Internal {
                            left,
                            right: Box::new(r2),
                            left_chars,
                            left_newlines,
                            chars: chars + dc,
                        },
                    );
                    (node.rebalance_if_needed(), dc, dn)
                }
            },
        }
    }

    /// Removes the character range `[start, end)` (relative to this node;
    /// nothing when `start >= end`). Returns the new subtree and the
    /// `(chars_removed, newlines_removed)` delta.
    fn delete(self, start: usize, end: usize) -> (r: (Node, usize, usize))
        requires
            self.wf(),
            start <= self.text().len(),
            end <= self.text().len(),
        ensures
            r.0.wf(),
            start >= end ==> r.0.text() == self.text() && r.1 == 0 && r.2 == 0,
            start < end ==> r.0.text() == self.text().take(start as int) + self.text().skip(
                end as int,
            ),
            start < end ==> r.1 == end - start,
            start < end ==> r.2 == count_lf(self.text().subrange(start as int, end as int)),
        decreases self,
    {
        if start >= end {
            return (self, 0, 0);
        }
        match self {
            Node::Leaf(s) => {
                let removed_newlines = count_newlines(slice_subrange(s.as_slice(), start, end));
                let mut v: Vec<char> = Vec::new();
                append_chars(&mut v, s.as_slice(), 0, start);
                append_chars(&mut v, s.as_slice(), end, s.len());
                proof {
                    assert(s@.subrange(0, start as int) == s@.take(start as int));
                    assert(s@.subrange(end as int, s@.len() as int) == s@.skip(end as int));
                }
                (Node::Leaf(v), end - start, removed_newlines)
            },
            Node::Internal(n) => {
                let Internal { left, right, left_chars, left_newlines, chars } = n;
                let ghost lt = (*left).text();
                let ghost rt = (*right).text();
                let ghost t = lt + rt;
                let lc = left_chars;
                let left_end = if end < lc {
                    end
                } else {
                    lc
                };
                let right_start: usize = if start > lc {
                    start - lc
                } else {
                    0
                };
                let right_end: usize = if end > lc {
                    end - lc
                } else {
                    0
                };
                let (l2, ldc, ldn) = if start < lc {
                    (*left).delete(start, left_end)
                } else {
                    (*left, 0, 0)
                };
                let (r2, rdc, rdn) = if end > lc {
                    (*right).delete(right_start, right_end)
                } else {
                    (*right, 0, 0)
                };
                proof {
                    lemma_delete_join(
                        lt,
                        rt,
                        start as int,
                        end as int,
                        l2.text(),
                        r2.text(),
                        ldc as int,
                        rdc as int,
                        ldn as int,
                        rdn as int,
                    );
                    lemma_count_lf_le((lt + rt).subrange(start as int, end as int));
                }
                let node = Node::Internal(
                    Internal {
                        left: Box::new(l2),
                        right: Box::new(r2),
                        left_chars: left_chars - ldc,
                        left_newlines: left_newlines - ldn,
                        chars: chars - ldc - rdc,
                    },
                );
                (node.rebalance_if_needed(), ldc + rdc, ldn + rdn)
            },
        }
    }

    /// Character offset (relative to this node) where line `line` begins.
    /// The line that straddles a left/right split is addressed from the
    /// left side, since that's where its text starts.
    fn line_to_char(&self, line: usize) -> (r: usize)
        requires
            self.wf(),
            line <= count_lf(self.text()),
            self.text().len() <= usize::MAX,
        ensures
            r == line_start(split_lines(self.text()), line as int),
        decreases self,
    {
        match self {
            Node::Leaf(s) => {
                if line == 0 {
                    return 0;
                }
                let mut seen: usize = 0;
                let mut i: usize = 0;
                while i < s.len()
                    invariant
                        i <= s@.len(),
                        seen == count_lf(s@.take(i as int)),
                        seen < line <= count_lf(s@),
                        self.text() == s@,
                    decreases s@.len() - i,
                {
                    proof {
                        assert(s@.take(i + 1).drop_last() == s@.take(i as int));
                    }
                    if s[i] == '\n' {
                        seen = seen + 1;
                        if seen == line {
                            proof {
                                let a = s@.take(i + 1);
                                let b = s@.skip(i + 1);
                                assert(s@ == a + b);
                                assert(a.last() == '\n');
                                assert(a.drop_last() == s@.take(i as int));
                                assert(count_lf(a) == line);
                                lemma_line_start_prefix(a, b, line as int);
                                lemma_line_start_after_lf(a);
                                assert(line_start(split_lines(s@), line as int) == i + 1);
                            }
                            return i + 1;
                        }
                    }
                    i = i + 1;
                }
                assert(s@.take(s@.len() as int) == s@);
                s.len()
            },
            Node::Internal(n) => {
                proof {
                    lemma_count_lf_concat((*n.left).text(), (*n.right).text());
                }
                if line <= n.left_newlines {
                    let r = n.left.line_to_char(line);
                    proof {
                        lemma_line_start_prefix((*n.left).text(), (*n.right).text(), line as int);
                    }
                    r
                } else {
                    let k = line - n.left_newlines;
                    let r = n.right.line_to_char(k);
                    proof {
                        let rt = (*n.right).text();
                        lemma_line_start_suffix((*n.left).text(), rt, line as int);
                        lemma_split_len(rt);
                        lemma_offset_bound(split_lines(rt), Position { line: k, column: 0 });
                        lemma_join_split(rt);
                    }
                    n.left_chars + r
                }
            },
        }
    }

    /// Appends the characters in `[start, end)` (relative to this node) to
    /// `buf`.
    fn append_range(&self, start: usize, end: usize, buf: &mut Vec<char>)
        requires
            self.wf(),
            start <= end <= self.text().len(),
        ensures
            final(buf)@ == old(buf)@ + self.text().subrange(start as int, end as int),
        decreases self,
    {
        if start >= end {
            assert(self.text().subrange(start as int, end as int) == Seq::<char>::empty());
            return;
        }
        match self {
            Node::Leaf(s) => {
                append_chars(buf, s.as_slice(), start, end);
            },
            Node::Internal(n) => {
                let ghost lt = (*n.left).text();
                let ghost rt = (*n.right).text();
                let ghost before = buf@;
                let lc = n.left_chars;
                if start < lc {
                    let left_end = if end < lc {
                        end
                    } else {
                        lc
                    };
                    n.left.append_range(start, left_end, buf);
                }
                let ghost mid = buf@;
                if end > lc {
                    let right_start: usize = if start > lc {
                        start - lc
                    } else {
                        0
                    };
                    n.right.append_range(right_start, end - lc, buf);
                }
                proof {
                    let t = lt + rt;
                    if end <= lc {
                        assert(t.subrange(start as int, end as int) == lt.subrange(
                            start as int,
                            end as int,
                        ));
                    } else if start >= lc {
                        assert(t.subrange(start as int, end as int) == rt.subrange(
                            start - lc,
                            end - lc,
                        ));
                    } else {
                        assert(t.subrange(start as int, end as int) == lt.subrange(
                            start as int,
                            lc as int,
                        ) + rt.subrange(0, end - lc));
                    }
                }
            },
        }
    }

    /// The tree's height, saturating at `usize::MAX`.
    fn depth_exec(&self) -> (d: usize)
        ensures
            d == if self.depth() <= usize::MAX {
                self.depth()
            } else {
                usize::MAX as nat
            },
        decreases self,
    {
        match self {
            Node::Leaf(_) => 1,
            Node::Internal(n) => {
                let l = n.left.depth_exec();
                let r = n.right.depth_exec();
                let m = if l >= r {
                    l
                } else {
                    r
                };
                m.saturating_add(1)
            },
        }
    }
}

/// [`TextStorage`] implementation backed by a rope.
///
/// `total_chars`/`total_lines` are maintained incrementally from the deltas
/// that node inserts and deletes report, so [`TextStorage::len_chars`] and
/// [`TextStorage::line_count`] need no walk of the tree.
pub struct RopeStorage {
    root: Node,
    total_chars: usize,
    total_lines: usize,
}

impl RopeStorage {
    /// The text the rope holds.
    pub closed spec fn rope_text(&self) -> Seq<char> {
        self.root.text()
    }

    /// The height of the rope's tree (a single leaf has depth 1).
    pub closed spec fn tree_depth(&self) -> nat {
        self.root.depth()
    }

    /// The storage's invariant: the tree is consistent, the totals match
    /// its text, and the line count fits in a `usize`.
    pub closed spec fn well_formed(&self) -> bool {
        &&& self.root.wf()
        &&& self.total_chars == self.root.text().len()
        &&& self.total_lines == count_lf(self.root.text()) + 1
        &&& self.root.text().len() < usize::MAX
    }

    /// Creates an empty document: one line containing no text.
    pub fn new() -> (s: Self)
        ensures
            s.well_formed(),
            s.rope_text() == Seq::<char>::empty(),
    {
        let s = Self { root: Node::Leaf(Vec::new()), total_chars: 0, total_lines: 1 };
        assert(s.root.text() == Seq::<char>::empty());
        s
    }

    /// The tree's height (a single leaf has depth 1), saturating at
    /// `usize::MAX`: a measure of how balanced the rope is kept.
    pub fn depth(&self) -> (d: usize)
        ensures
            d == if self.tree_depth() <= usize::MAX {
                self.tree_depth()
            } else {
                usize::MAX as nat
            },
    {
        self.root.depth_exec()
    }

    /// The `[start, end)` character range spanning line `index`'s content,
    /// with any terminating `'\n'` excluded.
    fn line_range(&self, index: usize) -> (r: (usize, usize))
        requires
            self.well_formed(),
            index < self.total_lines,
        ensures
            r.0 == line_start(split_lines(self.rope_text()), index as int),
            r.1 == r.0 + split_lines(self.rope_text())[index as int].len(),
            r.1 <= self.rope_text().len(),
            self.rope_text().subrange(r.0 as int, r.1 as int) == split_lines(
                self.rope_text(),
            )[index as int],
    {
        let ghost t = self.root.text();
        let ghost ls = split_lines(t);
        proof {
            lemma_split_len(t);
            lemma_join_split(t);
            lemma_line_span(ls, index as int);
        }
        let start = self.root.line_to_char(index);
        let end = if index + 1 < self.total_lines {
            let next = self.root.line_to_char(index + 1);
            next - 1
        } else {
            self.total_chars
        };
        (start, end)
    }

    /// Checks that `pos` refers to an existing line and a column that is
    /// within (or exactly at the end of) that line's character count.
    fn validate_position(&self, pos: Position) -> (r: Result<(), BufferError>)
        requires
            self.well_formed(),
        ensures
            r is Ok <==> valid_pos(split_lines(self.rope_text()), pos),
            r is Err ==> r == Err::<(), BufferError>(BufferError::InvalidPosition),
    {
        proof {
            lemma_split_len(self.root.text());
        }
        if pos.line >= self.total_lines {
            return Err(BufferError::InvalidPosition);
        }
        let (start, end) = self.line_range(pos.line);
        if pos.column > end - start {
            return Err(BufferError::InvalidPosition);
        }
        Ok(())
    }

    /// Converts a valid `pos` into a global character offset into the
    /// rope.
    fn char_offset(&self, pos: Position) -> (o: usize)
        requires
            self.well_formed(),
            valid_pos(split_lines(self.rope_text()), pos),
        ensures
            o == char_offset(split_lines(self.rope_text()), pos),
    {
        proof {
            let t = self.root.text();
            lemma_split_len(t);
            lemma_join_split(t);
            lemma_offset_bound(split_lines(t), pos);
        }
        self.root.line_to_char(pos.line) + pos.column
    }
}

impl Default for RopeStorage {
    /// Same as [`RopeStorage::new`].
    fn default() -> (s: Self)
        ensures
            s.well_formed(),
            s.rope_text() == Seq::<char>::empty(),
    {
        Self::new()
    }
}

impl TextStorage for RopeStorage {
    open spec fn lines(&self) -> Seq<Seq<char>> {
        split_lines(self.rope_text())
    }

    open spec fn text(&self) -> Seq<char> {
        self.rope_text()
    }

    open spec fn inv(&self) -> bool {
        self.well_formed()
    }

    open spec fn splits_on_lf() -> bool {
        true
    }

    open spec fn offset_of(&self, pos: Position) -> int {
        char_offset(split_lines(self.rope_text()), pos)
    }

    open spec fn text_lines(t: Seq<char>) -> Seq<Seq<char>> {
        split_lines(t)
    }

    open spec fn text_offset(t: Seq<char>, pos: Position) -> int {
        char_offset(split_lines(t), pos)
    }

    proof fn lemma_inv(&self) {
        let t = self.rope_text();
        let ls = split_lines(t);
        lemma_split_wf(t);
        lemma_join_split(t);
        lemma_split_len(t);
        lemma_count_lf_le(t);
        assert forall|p: Position| valid_pos(ls, p) implies 0 <= #[trigger] self.offset_of(p)
            <= self.text().len() by {
            lemma_offset_bound(ls, p);
        }
        lemma_line_count_bound(ls);
        assert forall|i: int| 0 <= i < ls.len() implies #[trigger] ls[i].len() <= t.len() by {
            lemma_join_around(ls, i);
        }
    }

    fn empty() -> (s: Self) {
        let s = Self::new();
        assert(split_lines(Seq::<char>::empty()) == seq![Seq::<char>::empty()]);
        s
    }

    fn line(&self, index: usize) -> (r: Option<String>) {
        proof {
            lemma_split_len(self.root.text());
        }
        if index >= self.total_lines {
            return None;
        }
        let (start, end) = self.line_range(index);
        let mut buf: Vec<char> = Vec::new();
        self.root.append_range(start, end, &mut buf);
        Some(chars_to_string(buf.as_slice()))
    }

    fn line_count(&self) -> (n: usize) {
        proof {
            lemma_split_len(self.root.text());
        }
        self.total_lines
    }

    fn len_chars(&self) -> (n: usize) {
        self.total_chars
    }

    fn to_text(&self) -> (s: String) {
        let mut buf: Vec<char> = Vec::new();
        self.root.flatten(&mut buf);
        assert(buf@ == self.root.text());
        chars_to_string(buf.as_slice())
    }

    fn insert(&mut self, pos: Position, text: &str) -> (r: Result<(), BufferError>) {
        self.validate_position(pos)?;
        let ghost t = self.root.text();
        let ghost ls = split_lines(t);
        let offset = self.char_offset(pos);
        let chars = str_chars(text);
        proof {
            lemma_split_wf(t);
            lemma_join_split(t);
            lemma_offset_bound(ls, pos);
        }
        let mut root = Node::Leaf(Vec::new());
        std::mem::swap(&mut root, &mut self.root);
        let (new_root, chars_added, newlines_added) = root.insert(offset, chars.as_slice());
        proof {
            let nt = new_root.text();
            assert(t == t.take(offset as int) + t.skip(offset as int));
            lemma_count_lf_concat(t.take(offset as int), t.skip(offset as int));
            lemma_count_lf_concat(t.take(offset as int), chars@);
            lemma_count_lf_concat(t.take(offset as int) + chars@, t.skip(offset as int));
            lemma_count_lf_le(nt);
            lemma_insert_wf(ls, pos, chars@);
            lemma_insert_text(ls, pos, chars@);
            lemma_split_join(insert_lines(ls, pos, chars@));
        }
        self.root = new_root;
        self.total_chars = self.total_chars + chars_added;
        self.total_lines = self.total_lines + newlines_added;
        Ok(())
    }

    fn delete(&mut self, range: Range) -> (r: Result<(), BufferError>) {
        self.validate_position(range.start)?;
        self.validate_position(range.end)?;
        // Callers may hand us a range built from an end-to-start drag, so
        // normalize direction before doing anything else.
        let range = range.normalized();
        let ghost t = self.root.text();
        let ghost ls = split_lines(t);
        let a = range.start;
        let b = range.end;
        proof {
            lemma_split_wf(t);
            lemma_join_split(t);
            lemma_delete_text(ls, a, b);
            lemma_offset_bound(ls, b);
        }
        let start = self.char_offset(a);
        let end = self.char_offset(b);
        let mut root = Node::Leaf(Vec::new());
        std::mem::swap(&mut root, &mut self.root);
        let (new_root, chars_removed, newlines_removed) = root.delete(start, end);
        proof {
            let mid = t.subrange(start as int, end as int);
            if start < end {
                assert(t == t.take(start as int) + mid + t.skip(end as int));
                lemma_count_lf_concat(t.take(start as int), mid);
                lemma_count_lf_concat(t.take(start as int) + mid, t.skip(end as int));
                lemma_count_lf_concat(t.take(start as int), t.skip(end as int));
            } else {
                assert(t.take(start as int) + t.skip(end as int) == t);
            }
            lemma_delete_wf(ls, a, b);
            lemma_split_join(delete_lines(ls, a, b));
        }
        self.root = new_root;
        self.total_chars = self.total_chars - chars_removed;
        self.total_lines = self.total_lines - newlines_removed;
        Ok(())
    }
}

} // verus!
