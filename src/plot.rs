//! A text controller that keeps the screen's cells itself, scrolls at the
//! bottom, and expands tabs.
use vstd::prelude::*;
use vstd::string::StringSliceAdditionalSpecFns;
use crate::console::ConsoleColor;
use crate::screen::KError;

verus! {

/// A screen cell: character, text color, background color.
pub type Cell = (u8, ConsoleColor, ConsoleColor);

/// The abstract state of a plot text controller.
pub struct PlotView {
    pub cols: int,
    pub rows: int,
    pub x: int,
    pub y: int,
    pub text: ConsoleColor,
    pub bg: ConsoleColor,
    /// The cells, row by row.
    pub cells: Seq<Cell>,
}

impl PlotView {
    /// The cells fill the grid, and sizes leave room for the cursor arithmetic.
    /// The cursor may stand off the screen.
    pub open spec fn wf(self) -> bool {
        &&& 0 <= self.cols && 0 <= self.rows
        &&& 0 <= self.x <= usize::MAX && 0 <= self.y <= usize::MAX
        &&& self.cols + 4 <= usize::MAX
        &&& self.rows + 4 <= usize::MAX
        &&& self.cols * self.rows + 4 <= usize::MAX
        &&& self.cells.len() == self.cols * self.rows
    }

    /// The cursor is on a cell.
    pub open spec fn on_screen(self) -> bool {
        self.x < self.cols && self.y < self.rows
    }

    /// Index of the cell at column `x`, row `y`.
    pub open spec fn at(self, x: int, y: int) -> int {
        self.cols * y + x
    }

    /// The cursor after one character: past the last column to the start of
    /// the next row, and past the last row back to the top.
    pub open spec fn advance(self) -> PlotView {
        let (x1, y1) = if self.x + 1 >= self.cols {
            (0, self.y + 1)
        } else {
            (self.x + 1, self.y)
        };
        PlotView {
            x: x1,
            y: if y1 >= self.rows {
                0
            } else {
                y1
            },
            ..self
        }
    }

    /// Every row moves one up; the last row is blanked in the controller's colors.
    pub open spec fn scrolled(self) -> Seq<Cell> {
        Seq::new(
            self.cells.len(),
            |i: int|
                if i < self.cols * (self.rows - 1) {
                    self.cells[i + self.cols]
                } else {
                    (0u8, self.text, self.bg)
                },
        )
    }

    /// A line break: the next row, or a scroll from the last one.
    pub open spec fn line_break(self) -> PlotView {
        if self.y + 1 >= self.rows {
            PlotView { cells: self.scrolled(), x: 0, ..self }
        } else {
            PlotView { x: 0, y: self.y + 1, ..self }
        }
    }

    /// A tab: the next multiple of four, held at the last column.
    pub open spec fn tab(self) -> PlotView {
        let nx = (self.x / 4 + 1) * 4;
        PlotView {
            x: if nx >= self.cols {
                self.cols - 1
            } else {
                nx
            },
            ..self
        }
    }

    /// The state after one byte, and whether it could be done: a byte to print
    /// fails when the cursor is off the screen, and then changes nothing.
    pub open spec fn put(self, ch: u8) -> (PlotView, bool) {
        if ch == 10 {
            (self.line_break(), true)
        } else if ch == 9 {
            (self.tab(), true)
        } else if self.on_screen() {
            (
                PlotView {
                    cells: self.cells.update(self.at(self.x, self.y), (ch, self.text, self.bg)),
                    ..self
                }.advance(),
                true,
            )
        } else {
            (self, false)
        }
    }

    /// A cell under the cursor with black on black takes the controller's colors.
    pub open spec fn settle(self) -> PlotView {
        let c = self.cells[self.at(self.x, self.y)];
        if c.1 == ConsoleColor::Black && c.2 == ConsoleColor::Black {
            PlotView { cells: self.cells.update(self.at(self.x, self.y), (c.0, self.text, self.bg)), ..self }
        } else {
            self
        }
    }
}

/// The state after a sequence of bytes, and whether every byte could be done;
/// the bytes after the first that fails are not looked at.
pub open spec fn plot_write(v: PlotView, s: Seq<u8>) -> (PlotView, bool)
    decreases s.len(),
{
    if s.len() == 0 {
        (v, true)
    } else {
        let (w, ok) = plot_write(v, s.drop_last());
        if ok {
            w.put(s.last())
        } else {
            (w, false)
        }
    }
}

/// What writing `s` does in all: the bytes, then the cursor is placed where it
/// stands. Succeeds when every byte could be done and the cursor ends on the
/// screen.
pub open spec fn plot_write_all(v: PlotView, s: Seq<u8>) -> (PlotView, bool) {
    let (w, ok) = plot_write(v, s);
    if ok && w.on_screen() {
        (w.settle(), true)
    } else {
        (w, false)
    }
}

proof fn lemma_cell_index(cols: int, rows: int, x: int, y: int)
    requires
        0 <= x < cols,
        0 <= y < rows,
    ensures
        0 <= cols * y + x < cols * rows,
{
    assert(0 <= cols * y + x < cols * rows) by (nonlinear_arith)
        requires
            0 <= x < cols,
            0 <= y < rows,
    ;
}

/// A text controller over a screen of `cols` by `rows` cells.
pub struct PlotTextController {
    cols: usize,
    rows: usize,
    x: usize,
    y: usize,
    text_color: ConsoleColor,
    bg_color: ConsoleColor,
    cells: Vec<Cell>,
}

impl View for PlotTextController {
    type V = PlotView;

    closed spec fn view(&self) -> PlotView {
        PlotView {
            cols: self.cols as int,
            rows: self.rows as int,
            x: self.x as int,
            y: self.y as int,
            text: self.text_color,
            bg: self.bg_color,
            cells: self.cells@,
        }
    }
}

impl PlotTextController {
    pub open spec fn wf(&self) -> bool {
        self@.wf()
    }

    /// A controller over a blank screen of `size` (columns, rows) with its
    /// cursor at `cursor` (column, row).
    pub fn new(
        text_color: ConsoleColor,
        bg_color: ConsoleColor,
        size: (usize, usize),
        cursor: (usize, usize),
    ) -> (r: PlotTextController)
        requires
            size.0 + 4 <= usize::MAX,
            size.1 + 4 <= usize::MAX,
            size.0 * size.1 + 4 <= usize::MAX,
        ensures
            r.wf(),
            r@ == (PlotView {
                cols: size.0 as int,
                rows: size.1 as int,
                x: cursor.0 as int,
                y: cursor.1 as int,
                text: text_color,
                bg: bg_color,
                cells: Seq::new(
                    (size.0 * size.1) as nat,
                    |i: int| (0u8, ConsoleColor::Black, ConsoleColor::Black),
                ),
            }),
    {
        let n = size.0 * size.1;
        let mut cells: Vec<Cell> = Vec::new();
        let mut i: usize = 0;
        while i < n
            invariant
                i <= n,
                cells@ =~= Seq::new(i as nat, |j: int| (0u8, ConsoleColor::Black, ConsoleColor::Black)),
            decreases n - i,
        {
            cells.push((0u8, ConsoleColor::Black, ConsoleColor::Black));
            i = i + 1;
        }
        PlotTextController {
            cols: size.0,
            rows: size.1,
            x: cursor.0,
            y: cursor.1,
            text_color,
            bg_color,
            cells,
        }
    }

    /// The cursor's column and row.
    pub fn get_xy(&self) -> (r: (usize, usize))
        ensures
            r == (self@.x as usize, self@.y as usize),
    {
        (self.x, self.y)
    }

    /// The screen's columns and rows.
    pub fn get_size(&self) -> (r: (usize, usize))
        ensures
            r == (self@.cols as usize, self@.rows as usize),
    {
        (self.cols, self.rows)
    }

    /// The cell at column `x`, row `y`.
    pub fn read(&self, x: usize, y: usize) -> (r: Result<Cell, KError>)
        requires
            self.wf(),
        ensures
            x < self@.cols && y < self@.rows ==> r == Ok::<Cell, KError>(
                self@.cells[self@.at(x as int, y as int)],
            ),
            !(x < self@.cols && y < self@.rows) ==> r == Err::<Cell, KError>(KError::OutBounds),
    {
        if x < self.cols && y < self.rows {
            proof {
                lemma_cell_index(self@.cols, self@.rows, x as int, y as int);
            }
            Ok(self.cells[self.cols * y + x])
        } else {
            Err(KError::OutBounds)
        }
    }

    /// Gives the cell under the cursor the controller's colors if it has
    /// black on black.
    fn settle(&mut self)
        requires
            old(self).wf(),
            old(self)@.on_screen(),
        ensures
            final(self).wf(),
            final(self)@ == old(self)@.settle(),
    {
        proof {
            lemma_cell_index(self@.cols, self@.rows, self@.x, self@.y);
        }
        let i = self.cols * self.y + self.x;
        let c = self.cells[i];
        if c.1 == ConsoleColor::Black && c.2 == ConsoleColor::Black {
            self.cells.set(i, (c.0, self.text_color, self.bg_color));
        }
    }

    /// Moves the cursor to column `x`, row `y`, on the screen or not. On the
    /// screen, a cell there with black on black takes the controller's colors;
    /// off it, the cursor stays moved and the result is `OutBounds`.
    pub fn set_xy(&mut self, x: usize, y: usize) -> (r: Result<(), KError>)
        requires
            old(self).wf(),
        ensures
            final(self).wf(),
            final(self)@.x == x && final(self)@.y == y,
            x < old(self)@.cols && y < old(self)@.rows ==> r is Ok && final(self)@ == (PlotView {
                x: x as int,
                y: y as int,
                ..old(self)@
            }).settle(),
            !(x < old(self)@.cols && y < old(self)@.rows) ==> r == Err::<(), KError>(
                KError::OutBounds,
            ) && final(self)@ == (PlotView { x: x as int, y: y as int, ..old(self)@ }),
    {
        self.x = x;
        self.y = y;
        if x < self.cols && y < self.rows {
            self.settle();
            Ok(())
        } else {
            Err(KError::OutBounds)
        }
    }

    /// Moves the cursor one cell on.
    pub fn inc_pos(&mut self)
        requires
            old(self).wf(),
            old(self)@.x < usize::MAX,
            old(self)@.y < usize::MAX,
        ensures
            final(self).wf(),
            final(self)@ == old(self)@.advance(),
    {
        self.x = self.x + 1;
        if self.x >= self.cols {
            self.x = 0;
            self.y = self.y + 1;
        }
        if self.y >= self.rows {
            self.y = 0;
        }
    }

    /// Moves every row one up and blanks the last one.
    pub fn scroll_up(&mut self)
        requires
            old(self).wf(),
        ensures
            final(self).wf(),
            final(self)@ == (PlotView { cells: old(self)@.scrolled(), ..old(self)@ }),
    {
        let ghost pre = self@;
        if self.rows == 0 {
            proof {
                assert(pre.cols * pre.rows == 0) by (nonlinear_arith)
                    requires
                        pre.rows == 0,
                ;
                assert(self@.cells =~= pre.scrolled());
            }
            return;
        }
        let cols = self.cols;
        proof {
            assert(cols * (self.rows - 1) <= cols * self.rows) by (nonlinear_arith)
                requires
                    self.rows > 0,
                    cols >= 0,
            ;
        }
        let top = cols * (self.rows - 1);
        proof {
            assert(top + cols == cols * self.rows) by (nonlinear_arith)
                requires
                    top == cols * (self.rows - 1),
            ;
        }
        let mut i: usize = 0;
        while i < top
            invariant
                i <= top,
                top + cols == pre.cells.len(),
                top + cols <= usize::MAX,
                cols == pre.cols,
                self@ == (PlotView { cells: self@.cells, ..pre }),
                self@.cells.len() == pre.cells.len(),
                forall|j: int| 0 <= j < i ==> #[trigger] self@.cells[j] == pre.cells[j + cols],
                forall|j: int| i <= j < pre.cells.len() ==> #[trigger] self@.cells[j] == pre.cells[j],
            decreases top - i,
        {
            let c = self.cells[i + cols];
            self.cells.set(i, c);
            i = i + 1;
        }
        let n = top + cols;
        while i < n
            invariant
                top <= i <= n,
                n == pre.cells.len(),
                n == top + cols,
                top == pre.cols * (pre.rows - 1),
                cols == pre.cols,
                self@ == (PlotView { cells: self@.cells, ..pre }),
                self@.cells.len() == pre.cells.len(),
                forall|j: int| 0 <= j < top ==> #[trigger] self@.cells[j] == pre.cells[j + cols],
                forall|j: int| top <= j < i ==> #[trigger] self@.cells[j] == (0u8, pre.text, pre.bg),
            decreases n - i,
        {
            self.cells.set(i, (0u8, self.text_color, self.bg_color));
            i = i + 1;
        }
        proof {
            assert(self@.cells =~= pre.scrolled());
        }
    }

    /// Moves the cursor to the start of the next row, scrolling from the last.
    pub fn line_break(&mut self)
        requires
            old(self).wf(),
            old(self)@.y < usize::MAX,
        ensures
            final(self).wf(),
            final(self)@ == old(self)@.line_break(),
    {
        if self.y + 1 >= self.rows {
            self.scroll_up();
            self.x = 0;
        } else {
            self.y = self.y + 1;
            self.x = 0;
        }
    }

    /// Writes the bytes of `s`: a line feed breaks the line, a tab moves to
    /// the next multiple of four, any other byte is put at the cursor, which
    /// then advances; a byte to put with the cursor off the screen stops the
    /// write with `OutBounds`. At the end the cursor is placed where it stands,
    /// as by `set_xy`.
    pub fn write_str(&mut self, s: &str) -> (r: Result<(), KError>)
        requires
            old(self).wf(),
            old(self)@.x + 4 <= usize::MAX,
            old(self)@.y < usize::MAX,
            old(self)@.cols == 0 ==> !s.spec_bytes().contains(9u8),
        ensures
            final(self).wf(),
            final(self)@ == plot_write_all(old(self)@, s.spec_bytes()).0,
            plot_write_all(old(self)@, s.spec_bytes()).1 ==> r is Ok,
            !plot_write_all(old(self)@, s.spec_bytes()).1 ==> r == Err::<(), KError>(KError::OutBounds),
    {
        let bytes = s.as_bytes();
        let n = bytes.len();
        let mut i: usize = 0;
        while i < n
            invariant
                i <= n,
                n == bytes@.len(),
                bytes@ == s.spec_bytes(),
                self.wf(),
                self@.x + 4 <= usize::MAX,
                self@.y < usize::MAX,
                self@.cols == old(self)@.cols,
                old(self)@.cols == 0 ==> !bytes@.contains(9u8),
                plot_write(old(self)@, bytes@.subrange(0, i as int)) == (self@, true),
            decreases n - i,
        {
            proof {
                assert(bytes@.subrange(0, i + 1).drop_last() =~= bytes@.subrange(0, i as int));
                assert(bytes@.subrange(0, i + 1).last() == bytes@[i as int]);
            }
            let ch = bytes[i];
            if ch == 10u8 {
                self.line_break();
            } else if ch == 9u8 {
                proof {
                    assert(bytes@[i as int] == 9u8);
                    assert(self@.cols > 0);
                    assert((self@.x / 4 + 1) * 4 <= self@.x + 4);
                }
                let nx = (self.x / 4 + 1) * 4;
                if nx >= self.cols {
                    self.x = self.cols - 1;
                } else {
                    self.x = nx;
                }
            } else if self.x < self.cols && self.y < self.rows {
                proof {
                    lemma_cell_index(self@.cols, self@.rows, self@.x, self@.y);
                }
                let at = self.cols * self.y + self.x;
                self.cells.set(at, (ch, self.text_color, self.bg_color));
                self.inc_pos();
            } else {
                proof {
                    lemma_write_stops(old(self)@, bytes@, i as int);
                }
                return Err(KError::OutBounds);
            }
            i = i + 1;
        }
        proof {
            assert(bytes@.subrange(0, n as int) =~= bytes@);
        }
        self.set_xy(self.x, self.y)
    }
}

/// Once a byte fails, the bytes after it change nothing.
proof fn lemma_write_stops(v: PlotView, s: Seq<u8>, i: int)
    requires
        0 <= i < s.len(),
        plot_write(v, s.subrange(0, i + 1)).1 == false,
    ensures
        plot_write(v, s) == plot_write(v, s.subrange(0, i + 1)),
    decreases s.len() - i,
{
    if i + 1 < s.len() {
        assert(s.subrange(0, i + 2).drop_last() =~= s.subrange(0, i + 1));
        lemma_write_stops(v, s, i + 1);
    } else {
        assert(s.subrange(0, i + 1) =~= s);
    }
}

} // verus!
