//! Cursor controllers for text screens of any size: they decide where each
//! character goes and hand the cells to print back to the caller, which owns
//! the device.
use vstd::prelude::*;
use vstd::string::StringSliceAdditionalSpecFns;
use crate::console::{ConsoleColor, CONSOLE_COLS, CONSOLE_ROWS};

verus! {

/// Why a controller request was refused.
#[derive(Clone, Copy, Debug, PartialEq, Eq, Structural)]
pub enum KError {
    /// The position lies outside the screen.
    OutBounds,
}

/// The larger of two sizes.
pub open spec fn at_least(a: int, b: int) -> int {
    if a >= b {
        a
    } else {
        b
    }
}

/// A command for the text screen device.
#[derive(Clone, Copy, Debug, PartialEq, Eq, Structural)]
pub enum ScreenCmd {
    /// Print a byte at column, row in text and background colors.
    Print(usize, usize, ConsoleColor, ConsoleColor, u8),
    /// Move the hardware cursor to column, row.
    SetCursor(usize, usize),
}

/// The abstract state of a screen console: its size, its cursor and its colors.
pub struct ScreenView {
    pub cols: int,
    pub rows: int,
    pub x: int,
    pub y: int,
    pub text: ConsoleColor,
    pub bg: ConsoleColor,
}

impl ScreenView {
    /// The size leaves room for every cursor the console can reach, and the
    /// cursor, on the screen or off it, leaves room for its own arithmetic.
    pub open spec fn wf(self) -> bool {
        &&& self.size_fits()
        &&& 0 <= self.x < usize::MAX
        &&& 0 <= self.y < usize::MAX
        &&& self.cols * (self.y + 1) + self.x <= usize::MAX
    }

    /// Every cursor on the screen or on the 80 by 25 screen, one row further
    /// down, still fits a machine word.
    pub open spec fn size_fits(self) -> bool {
        &&& 0 <= self.cols && 0 <= self.rows <= usize::MAX
        &&& self.cols * (at_least(self.rows, CONSOLE_ROWS as int) + 1) + CONSOLE_COLS <= usize::MAX
    }

    /// The cursor after one character: next column, wrapping to the next row,
    /// and back to the top past the last row.
    pub open spec fn advance(self) -> ScreenView {
        let x1 = self.x + 1;
        let (x2, y2) = if x1 >= self.cols {
            (0, self.y + 1)
        } else {
            (x1, self.y)
        };
        let y3 = if y2 >= self.rows {
            0
        } else {
            y2
        };
        ScreenView { x: x2, y: y3, ..self }
    }

    /// The cursor after a line break: start of the next row, or the top left
    /// once that row is past the screen.
    pub open spec fn next_line(self) -> ScreenView {
        if self.cols == 0 || self.y + 1 >= self.rows {
            ScreenView { x: 0, y: 0, ..self }
        } else {
            ScreenView { x: 0, y: self.y + 1, ..self }
        }
    }
}

/// A cursor no further out than the screen's last column and row, or than
/// the 80 by 25 screen's, keeps the console well formed.
pub proof fn lemma_cursor_fits(v: ScreenView, x: int, y: int)
    requires
        v.size_fits(),
        0 <= x <= at_least(v.cols, CONSOLE_COLS as int),
        0 <= y < at_least(v.rows, CONSOLE_ROWS as int),
    ensures
        (ScreenView { x, y, ..v }).wf(),
{
    let r = at_least(v.rows, CONSOLE_ROWS as int);
    assert(v.cols * (y + 1) + x <= v.cols * (r + 1) + CONSOLE_COLS) by (nonlinear_arith)
        requires
            0 <= v.cols,
            0 <= y < r,
            0 <= x <= at_least(v.cols, CONSOLE_COLS as int),
            at_least(v.cols, CONSOLE_COLS as int) <= v.cols + CONSOLE_COLS,
    ;
    if v.cols > 0 {
        assert(x + 1 <= v.cols * (r + 1) + CONSOLE_COLS) by (nonlinear_arith)
            requires
                1 <= v.cols,
                r >= 1,
                0 <= x <= at_least(v.cols, CONSOLE_COLS as int),
                at_least(v.cols, CONSOLE_COLS as int) <= v.cols + CONSOLE_COLS,
        ;
    }
    assert(usize::MAX > CONSOLE_COLS);
}

/// Where a device query failed, the console starts from the origin.
pub open spec fn or_origin(o: Option<(usize, usize)>) -> (usize, usize) {
    match o {
        Some(p) => p,
        None => (0, 0),
    }
}

/// The commands that place the cursor at column `x`, row `y` of the 80 by 25
/// screen: a blank in the console's colors under it, then the cursor move.
pub open spec fn place_cursor(v: ScreenView, x: usize, y: usize) -> Seq<ScreenCmd> {
    seq![ScreenCmd::Print(x, y, v.text, v.bg, 32u8), ScreenCmd::SetCursor(x, y)]
}

/// The state after the bytes of `s`, and the prints issued for them.
pub open spec fn screen_write(v: ScreenView, s: Seq<u8>) -> (ScreenView, Seq<ScreenCmd>)
    decreases s.len(),
{
    if s.len() == 0 {
        (v, Seq::empty())
    } else {
        let (w, out) = screen_write(v, s.drop_last());
        if s.last() == 10 {
            (w.next_line(), out)
        } else {
            (
                w.advance(),
                out.push(ScreenCmd::Print(w.x as usize, w.y as usize, w.text, w.bg, s.last())),
            )
        }
    }
}

/// What writing `s` does in all: the prints, then, where the cursor ends on
/// the 80 by 25 screen, the commands that place it there.
pub open spec fn screen_write_all(v: ScreenView, s: Seq<u8>) -> (ScreenView, Seq<ScreenCmd>) {
    let (w, out) = screen_write(v, s);
    if w.x < CONSOLE_COLS && w.y < CONSOLE_ROWS {
        (w, out + place_cursor(w, w.x as usize, w.y as usize))
    } else {
        (w, out)
    }
}

/// A console over a text screen of `cols` by `rows` cells.
pub struct ScreenConsole {
    cols: usize,
    rows: usize,
    x: usize,
    y: usize,
    text_color: ConsoleColor,
    bg_color: ConsoleColor,
}

impl View for ScreenConsole {
    type V = ScreenView;

    closed spec fn view(&self) -> ScreenView {
        ScreenView {
            cols: self.cols as int,
            rows: self.rows as int,
            x: self.x as int,
            y: self.y as int,
            text: self.text_color,
            bg: self.bg_color,
        }
    }
}

impl ScreenConsole {
    pub open spec fn wf(&self) -> bool {
        self@.wf()
    }

    /// A console over a screen of `size` (columns, rows) whose cursor is at
    /// `cursor` (column, row), as the device reported them; a query that failed
    /// (`None`) counts as (0, 0).
    pub fn new(
        text_color: ConsoleColor,
        bg_color: ConsoleColor,
        size: Option<(usize, usize)>,
        cursor: Option<(usize, usize)>,
    ) -> (r: ScreenConsole)
        requires
            (ScreenView {
                cols: or_origin(size).0 as int,
                rows: or_origin(size).1 as int,
                x: or_origin(cursor).0 as int,
                y: or_origin(cursor).1 as int,
                text: text_color,
                bg: bg_color,
            }).wf(),
        ensures
            r.wf(),
            r@ == (ScreenView {
                cols: or_origin(size).0 as int,
                rows: or_origin(size).1 as int,
                x: or_origin(cursor).0 as int,
                y: or_origin(cursor).1 as int,
                text: text_color,
                bg: bg_color,
            }),
    {
        let (cols, rows) = match size {
            Some(s) => s,
            None => (0, 0),
        };
        let (x, y) = match cursor {
            Some(c) => c,
            None => (0, 0),
        };
        ScreenConsole { cols, rows, x, y, text_color, bg_color }
    }

    /// The text and background colors.
    pub fn get_colors(&self) -> (r: (ConsoleColor, ConsoleColor))
        ensures
            r == (self@.text, self@.bg),
    {
        (self.text_color, self.bg_color)
    }

    /// The cell under the cursor, counted row by row.
    pub fn pos(&self) -> (r: usize)
        requires
            self.wf(),
        ensures
            r == self@.cols * self@.y + self@.x,
    {
        proof {
            assert(self@.cols * self@.y <= self@.cols * (self@.y + 1)) by (nonlinear_arith)
                requires
                    0 <= self@.cols,
            ;
        }
        self.cols * self.y + self.x
    }

    /// Moves the cursor one cell on.
    pub fn inc_pos(&mut self)
        requires
            old(self).wf(),
        ensures
            final(self).wf(),
            final(self)@ == old(self)@.advance(),
    {
        let ghost pre = self@;
        self.x = self.x + 1;
        if self.x >= self.cols {
            self.x = 0;
            self.y = self.y + 1;
        }
        if self.y >= self.rows {
            self.y = 0;
        }
        proof {
            lemma_cursor_fits(pre, self@.x, self@.y);
        }
    }

    /// Moves the cursor to the start of the next row, or to the top left past
    /// the last row.
    pub fn line_break(&mut self)
        requires
            old(self).wf(),
        ensures
            final(self).wf(),
            final(self)@ == old(self)@.next_line(),
    {
        let ghost pre = self@;
        proof {
            let r = at_least(pre.rows, CONSOLE_ROWS as int);
            assert(pre.cols * pre.rows <= pre.cols * (r + 1)) by (nonlinear_arith)
                requires
                    0 <= pre.cols,
                    0 <= pre.rows <= r,
            ;
            assert((pre.cols * (pre.y + 1) >= pre.cols * pre.rows) == (pre.cols == 0 || pre.y + 1
                >= pre.rows)) by (nonlinear_arith)
                requires
                    0 <= pre.cols,
                    0 <= pre.y,
                    0 <= pre.rows,
            ;
        }
        self.y = self.y + 1;
        self.x = 0;
        if self.cols * self.y + self.x >= self.cols * self.rows {
            self.x = 0;
            self.y = 0;
        }
        proof {
            lemma_cursor_fits(pre, self@.x, self@.y);
        }
    }

    /// The cursor's column and row.
    pub fn get_xy(&self) -> (r: (usize, usize))
        ensures
            r == (self@.x as usize, self@.y as usize),
    {
        (self.x, self.y)
    }

    /// Moves the cursor to column `x` of row `y` of the 80 by 25 screen.
    /// Returns the device commands that go with it: a blank in the console's
    /// colors under the new cursor, then the hardware cursor move.
    pub fn set_xy(&mut self, x: usize, y: usize) -> (r: Result<Vec<ScreenCmd>, KError>)
        requires
            old(self).wf(),
        ensures
            final(self).wf(),
            x < CONSOLE_COLS && y < CONSOLE_ROWS ==> r is Ok && r->Ok_0@ == place_cursor(
                old(self)@,
                x,
                y,
            ) && final(self)@ == (ScreenView { x: x as int, y: y as int, ..old(self)@ }),
            !(x < CONSOLE_COLS && y < CONSOLE_ROWS) ==> r is Err && r->Err_0 == KError::OutBounds
                && final(self)@ == old(self)@,
    {
        if x < CONSOLE_COLS && y < CONSOLE_ROWS {
            proof {
                lemma_cursor_fits(self@, x as int, y as int);
            }
            self.x = x;
            self.y = y;
            let mut cmds: Vec<ScreenCmd> = Vec::new();
            cmds.push(ScreenCmd::Print(x, y, self.text_color, self.bg_color, 32u8));
            cmds.push(ScreenCmd::SetCursor(x, y));
            proof {
                assert(cmds@ =~= place_cursor(old(self)@, x, y));
            }
            Ok(cmds)
        } else {
            Err(KError::OutBounds)
        }
    }

    /// The screen's columns and rows.
    pub fn get_size(&self) -> (r: (usize, usize))
        ensures
            r == (self@.cols as usize, self@.rows as usize),
    {
        (self.cols, self.rows)
    }

    /// Writes the bytes of `s`: a line feed breaks the line, any other byte is
    /// printed at the cursor, which then advances; at the end the cursor is
    /// placed where it stands. Returns the device commands, in order.
    pub fn write_str(&mut self, s: &str) -> (r: Vec<ScreenCmd>)
        requires
            old(self).wf(),
        ensures
            final(self).wf(),
            (final(self)@, r@) == screen_write_all(old(self)@, s.spec_bytes()),
    {
        let bytes = s.as_bytes();
        let n = bytes.len();
        let mut out: Vec<ScreenCmd> = Vec::new();
        let mut i: usize = 0;
        while i < n
            invariant
                i <= n,
                n == bytes@.len(),
                bytes@ == s.spec_bytes(),
                self.wf(),
                (self@, out@) == screen_write(old(self)@, bytes@.subrange(0, i as int)),
            decreases n - i,
        {
            proof {
                assert(bytes@.subrange(0, i + 1).drop_last() =~= bytes@.subrange(0, i as int));
            }
            let ch = bytes[i];
            if ch == 10u8 {
                self.line_break();
            } else {
                out.push(ScreenCmd::Print(self.x, self.y, self.text_color, self.bg_color, ch));
                self.inc_pos();
            }
            i = i + 1;
        }
        proof {
            assert(bytes@.subrange(0, n as int) =~= bytes@);
        }
        let ghost printed = out@;
        if let Ok(cmds) = self.set_xy(self.x, self.y) {
            let mut k: usize = 0;
            while k < cmds.len()
                invariant
                    k <= cmds@.len(),
                    out@ =~= printed + cmds@.subrange(0, k as int),
                decreases cmds@.len() - k,
            {
                out.push(cmds[k]);
                k = k + 1;
            }
            proof {
                assert(cmds@.subrange(0, cmds@.len() as int) =~= cmds@);
            }
        }
        out
    }
}

} // verus!
