//! [`Viewport`]: which region of the document is visible, scrolled to keep
//! the cursor on screen.

use vstd::prelude::*;

use crate::position::Position;

verus! {

/// The visible region of a document: `height` lines from line `top`, and
/// `width` columns from column `left`.
#[derive(Debug, Copy, Clone, PartialEq, Eq, Structural)]
pub struct Viewport {
    pub top: usize,
    pub left: usize,
    pub width: usize,
    pub height: usize,
}

/// The first line or column a window starting at `start` and `size` wide
/// scrolls to so that `target` is inside it: unchanged where `target`
/// already is, else just far enough that `target` is its first (when
/// before the window) or last (when after it) line or column.
pub open spec fn scroll_axis(start: int, size: int, target: int) -> int {
    if target < start {
        target
    } else if size > 0 && target >= start + size {
        target + 1 - size
    } else {
        start
    }
}

impl Viewport {
    /// A viewport of the given size, scrolled to the top left.
    pub fn new(width: usize, height: usize) -> (v: Self)
        ensures
            v == (Viewport { top: 0, left: 0, width, height }),
    {
        Self { top: 0, left: 0, width, height }
    }

    /// Changes the viewport's size, keeping its scroll offsets.
    pub fn resize(&mut self, width: usize, height: usize)
        ensures
            *final(self) == (Viewport { top: old(self).top, left: old(self).left, width, height }),
    {
        self.width = width;
        self.height = height;
    }

    /// Scrolls just far enough to bring `cursor` into view.
    pub fn scroll_to(&mut self, cursor: Position)
        requires
            old(self).height > 0 && cursor.line >= old(self).top ==> old(self).top + old(self).height <= usize::MAX,
            old(self).width > 0 && cursor.column >= old(self).left ==> old(self).left + old(self).width <= usize::MAX,
        ensures
            final(self).top == scroll_axis(old(self).top as int, old(self).height as int, cursor.line as int),
            final(self).left == scroll_axis(old(self).left as int, old(self).width as int, cursor.column as int),
            final(self).width == old(self).width,
            final(self).height == old(self).height,
            final(self).height > 0 ==> final(self).top <= cursor.line < final(self).top + final(self).height,
            final(self).width > 0 ==> final(self).left <= cursor.column < final(self).left + final(self).width,
    {
        if cursor.line < self.top {
            self.top = cursor.line;
        } else if self.height > 0 && cursor.line >= self.top + self.height {
            self.top = cursor.line - self.height + 1;
        }
        if cursor.column < self.left {
            self.left = cursor.column;
        } else if self.width > 0 && cursor.column >= self.left + self.width {
            self.left = cursor.column - self.width + 1;
        }
    }
}

} // verus!
