//! A text console of 80 by 25 cells, each a character byte and a color byte,
//! and a writer that keeps a cursor on it.
use vstd::prelude::*;
use vstd::string::StringSliceAdditionalSpecFns;

verus! {

/// Columns of the text console.
pub const CONSOLE_COLS: usize = 80;

/// Rows of the text console.
pub const CONSOLE_ROWS: usize = 25;

/// Cells of the text console.
pub const CONSOLE_CELLS: usize = 2000;

/// One of the sixteen text-mode colors.
#[derive(Clone, Copy, Debug, PartialEq, Eq, Structural)]
pub enum ConsoleColor {
    Black,
    Blue,
    Green,
    Cyan,
    Red,
    Purple,
    Brown,
    Gray,
    DarkGray,
    LightBlue,
    LightGreen,
    LightCyan,
    LightRed,
    LightPurple,
    Yellow,
    White,
}

/// The four-bit code of a color.
pub open spec fn color_code(c: ConsoleColor) -> u8 {
    match c {
        ConsoleColor::Black => 0,
        ConsoleColor::Blue => 1,
        ConsoleColor::Green => 2,
        ConsoleColor::Cyan => 3,
        ConsoleColor::Red => 4,
        ConsoleColor::Purple => 5,
        ConsoleColor::Brown => 6,
        ConsoleColor::Gray => 7,
        ConsoleColor::DarkGray => 8,
        ConsoleColor::LightBlue => 9,
        ConsoleColor::LightGreen => 10,
        ConsoleColor::LightCyan => 11,
        ConsoleColor::LightRed => 12,
        ConsoleColor::LightPurple => 13,
        ConsoleColor::Yellow => 14,
        ConsoleColor::White => 15,
    }
}

/// The color whose code is the low four bits of `v`.
pub open spec fn color_of(v: u8) -> ConsoleColor {
    let n = v % 16;
    if n == 0 {
        ConsoleColor::Black
    } else if n == 1 {
        ConsoleColor::Blue
    } else if n == 2 {
        ConsoleColor::Green
    } else if n == 3 {
        ConsoleColor::Cyan
    } else if n == 4 {
        ConsoleColor::Red
    } else if n == 5 {
        ConsoleColor::Purple
    } else if n == 6 {
        ConsoleColor::Brown
    } else if n == 7 {
        ConsoleColor::Gray
    } else if n == 8 {
        ConsoleColor::DarkGray
    } else if n == 9 {
        ConsoleColor::LightBlue
    } else if n == 10 {
        ConsoleColor::LightGreen
    } else if n == 11 {
        ConsoleColor::LightCyan
    } else if n == 12 {
        ConsoleColor::LightRed
    } else if n == 13 {
        ConsoleColor::LightPurple
    } else if n == 14 {
        ConsoleColor::Yellow
    } else {
        ConsoleColor::White
    }
}

impl ConsoleColor {
    /// The color's four-bit code.
    pub fn code(self) -> (r: u8)
        ensures
            r == color_code(self),
            r < 16,
    {
        match self {
            ConsoleColor::Black => 0,
            ConsoleColor::Blue => 1,
            ConsoleColor::Green => 2,
            ConsoleColor::Cyan => 3,
            ConsoleColor::Red => 4,
            ConsoleColor::Purple => 5,
            ConsoleColor::Brown => 6,
            ConsoleColor::Gray => 7,
            ConsoleColor::DarkGray => 8,
            ConsoleColor::LightBlue => 9,
            ConsoleColor::LightGreen => 10,
            ConsoleColor::LightCyan => 11,
            ConsoleColor::LightRed => 12,
            ConsoleColor::LightPurple => 13,
            ConsoleColor::Yellow => 14,
            ConsoleColor::White => 15,
        }
    }
}

impl From<u8> for ConsoleColor {
    /// Only the low four bits of `value` count.
    fn from(value: u8) -> (r: ConsoleColor) {
        let n: u8 = value & 0xF;
        proof {
            assert(value & 0xF == value % 16) by (bit_vector);
        }
        match n {
            0 => ConsoleColor::Black,
            1 => ConsoleColor::Blue,
            2 => ConsoleColor::Green,
            3 => ConsoleColor::Cyan,
            4 => ConsoleColor::Red,
            5 => ConsoleColor::Purple,
            6 => ConsoleColor::Brown,
            7 => ConsoleColor::Gray,
            8 => ConsoleColor::DarkGray,
            9 => ConsoleColor::LightBlue,
            10 => ConsoleColor::LightGreen,
            11 => ConsoleColor::LightCyan,
            12 => ConsoleColor::LightRed,
            13 => ConsoleColor::LightPurple,
            14 => ConsoleColor::Yellow,
            _ => ConsoleColor::White,
        }
    }
}

impl vstd::std_specs::convert::FromSpecImpl<u8> for ConsoleColor {
    open spec fn obeys_from_spec() -> bool {
        true
    }

    open spec fn from_spec(v: u8) -> ConsoleColor {
        color_of(v)
    }
}

/// A foreground and a background color.
#[derive(Clone, Copy, Debug, PartialEq, Eq, Structural)]
pub struct ColorScheme {
    foreground: ConsoleColor,
    background: ConsoleColor,
}

impl View for ColorScheme {
    /// Foreground, then background.
    type V = (ConsoleColor, ConsoleColor);

    closed spec fn view(&self) -> (ConsoleColor, ConsoleColor) {
        (self.foreground, self.background)
    }
}

/// The attribute byte of a color scheme: background in the high four bits,
/// foreground in the low four.
pub open spec fn attribute(s: (ConsoleColor, ConsoleColor)) -> u8 {
    (color_code(s.1) * 16 + color_code(s.0)) as u8
}

impl ColorScheme {
    pub fn new(foreground: ConsoleColor, background: ConsoleColor) -> (r: ColorScheme)
        ensures
            r@ == (foreground, background),
    {
        ColorScheme { foreground, background }
    }

    pub fn fg(&self) -> (r: ConsoleColor)
        ensures
            r == self@.0,
    {
        self.foreground
    }

    pub fn bg(&self) -> (r: ConsoleColor)
        ensures
            r == self@.1,
    {
        self.background
    }

    /// The attribute byte of this scheme.
    pub fn attribute(&self) -> (r: u8)
        ensures
            r == attribute(self@),
    {
        let f = self.foreground.code();
        let b = self.background.code();
        proof {
            assert((b << 4u8) | f == b * 16 + f) by (bit_vector)
                requires
                    f < 16,
                    b < 16,
            ;
        }
        (b << 4u8) | f
    }
}

impl Default for ColorScheme {
    /// Gray on black.
    fn default() -> (r: ColorScheme)
        ensures
            r@ == (ConsoleColor::Gray, ConsoleColor::Black),
    {
        ColorScheme { foreground: ConsoleColor::Gray, background: ConsoleColor::Black }
    }
}

/// A character with its colors.
pub struct ConsoleChar {
    character: u8,
    color: ColorScheme,
}

impl View for ConsoleChar {
    /// The character byte, then the attribute byte.
    type V = (u8, u8);

    closed spec fn view(&self) -> (u8, u8) {
        (self.character, attribute(self.color@))
    }
}

impl ConsoleChar {
    pub fn new(character: u8, color: ColorScheme) -> (r: ConsoleChar)
        ensures
            r@ == (character, attribute(color@)),
    {
        ConsoleChar { character, color }
    }

    pub fn get_char(&self) -> (r: u8)
        ensures
            r == self@.0,
    {
        self.character
    }

    /// The attribute byte: background in the high four bits, foreground in the
    /// low four.
    pub fn get_color(&self) -> (r: u8)
        ensures
            r == self@.1,
    {
        self.color.attribute()
    }
}


/// One byte of a cell, by column and row.
#[derive(Clone, Copy, Debug, PartialEq, Eq, Structural)]
pub enum ConIndex {
    /// The character byte of the cell at column, row.
    Cha(usize, usize),
    /// The attribute byte of the cell at column, row.
    Col(usize, usize),
}

/// The byte that an index names in the cell buffer, if it is on the screen.
pub open spec fn index_offset(i: ConIndex) -> Option<int> {
    match i {
        ConIndex::Cha(x, y) => if CONSOLE_COLS * y + x < CONSOLE_CELLS {
            Some(2 * (CONSOLE_COLS * y + x))
        } else {
            None
        },
        ConIndex::Col(x, y) => if CONSOLE_COLS * y + x < CONSOLE_CELLS {
            Some(2 * (CONSOLE_COLS * y + x) + 1)
        } else {
            None
        },
    }
}

/// The cell buffer after putting character `c` with attribute `a` at cell `pos`.
pub open spec fn put_cell(cells: Seq<u8>, pos: int, c: u8, a: u8) -> Seq<u8> {
    cells.update(2 * pos, c).update(2 * pos + 1, a)
}

/// The cell buffer after writing `msg` from cell `pos` on: bytes that would
/// fall past the last cell are dropped.
pub open spec fn put_text(cells: Seq<u8>, pos: int, msg: Seq<u8>, a: u8) -> Seq<u8>
    decreases msg.len(),
{
    if msg.len() == 0 {
        cells
    } else {
        let before = put_text(cells, pos, msg.drop_last(), a);
        let at = pos + msg.len() - 1;
        if at < CONSOLE_CELLS {
            put_cell(before, at, msg.last(), a)
        } else {
            before
        }
    }
}

/// A text console: a buffer of cells, two bytes each (character, then
/// attribute), and the colors it writes with.
pub struct Console {
    color: ColorScheme,
    cells: Vec<u8>,
}

impl Console {
    /// The colors that characters are written with.
    pub closed spec fn scheme(&self) -> (ConsoleColor, ConsoleColor) {
        self.color@
    }

    /// The cell buffer.
    pub closed spec fn cells(&self) -> Seq<u8> {
        self.cells@
    }

    pub open spec fn wf(&self) -> bool {
        self.cells().len() == 2 * CONSOLE_CELLS
    }

    /// A blank console writing in the given colors.
    pub fn new(color: ColorScheme) -> (r: Console)
        ensures
            r.wf(),
            r.scheme() == color@,
            r.cells() == Seq::new((2 * CONSOLE_CELLS) as nat, |i: int| 0u8),
    {
        let mut cells: Vec<u8> = Vec::new();
        let mut i: usize = 0;
        while i < 2 * CONSOLE_CELLS
            invariant
                i <= 2 * CONSOLE_CELLS,
                cells@ =~= Seq::new(i as nat, |j: int| 0u8),
            decreases 2 * CONSOLE_CELLS - i,
        {
            cells.push(0);
            i = i + 1;
        }
        Console { color, cells }
    }

    /// The number of cells.
    pub fn len(&self) -> (r: usize)
        ensures
            r == CONSOLE_CELLS,
    {
        CONSOLE_CELLS
    }

    /// The cell buffer, two bytes per cell.
    pub fn buffer(&self) -> (r: &Vec<u8>)
        ensures
            r@ == self.cells(),
    {
        &self.cells
    }

    /// Puts `character` at cell `pos` in the console's colors.
    pub fn set_char(&mut self, pos: usize, character: u8) -> (r: Result<(), &'static str>)
        requires
            old(self).wf(),
        ensures
            final(self).wf(),
            final(self).scheme() == old(self).scheme(),
            pos < CONSOLE_CELLS ==> r is Ok && final(self).cells() == put_cell(
                old(self).cells(),
                pos as int,
                character,
                attribute(old(self).scheme()),
            ),
            pos >= CONSOLE_CELLS ==> r == Err::<(), &'static str>("Position out of bounds")
                && final(self).cells() == old(self).cells(),
    {
        let c = ConsoleChar::new(character, self.color);
        self.set_console_char(pos, c)
    }

    /// Puts a character with its own colors at cell `pos`.
    pub fn set_console_char(&mut self, pos: usize, character: ConsoleChar) -> (r: Result<
        (),
        &'static str,
    >)
        requires
            old(self).wf(),
        ensures
            final(self).wf(),
            final(self).scheme() == old(self).scheme(),
            pos < CONSOLE_CELLS ==> r is Ok && final(self).cells() == put_cell(
                old(self).cells(),
                pos as int,
                character@.0,
                character@.1,
            ),
            pos >= CONSOLE_CELLS ==> r == Err::<(), &'static str>("Position out of bounds")
                && final(self).cells() == old(self).cells(),
    {
        if pos < self.len() {
            self.cells.set(2 * pos, character.get_char());
            self.cells.set(2 * pos + 1, character.get_color());
            Ok(())
        } else {
            Err("Position out of bounds")
        }
    }

    /// The byte that `index` names.
    pub fn get(&self, index: ConIndex) -> (r: u8)
        requires
            self.wf(),
            index_offset(index) is Some,
        ensures
            r == self.cells()[index_offset(index)->Some_0],
    {
        match index {
            ConIndex::Cha(x, y) => self.cells[2 * (CONSOLE_COLS * y + x)],
            ConIndex::Col(x, y) => self.cells[2 * (CONSOLE_COLS * y + x) + 1],
        }
    }

    /// Sets the byte that `index` names.
    pub fn set(&mut self, index: ConIndex, value: u8)
        requires
            old(self).wf(),
            index_offset(index) is Some,
        ensures
            final(self).wf(),
            final(self).scheme() == old(self).scheme(),
            final(self).cells() == old(self).cells().update(index_offset(index)->Some_0, value),
    {
        match index {
            ConIndex::Cha(x, y) => self.cells.set(2 * (CONSOLE_COLS * y + x), value),
            ConIndex::Col(x, y) => self.cells.set(2 * (CONSOLE_COLS * y + x) + 1, value),
        }
    }

    /// Writes `msg` from column `x` of row `y` on, in the console's colors,
    /// running on into the following rows; a position off the screen writes
    /// nothing.
    pub fn write_at(&mut self, x: usize, y: usize, msg: &[u8])
        requires
            old(self).wf(),
        ensures
            final(self).wf(),
            final(self).scheme() == old(self).scheme(),
            x < CONSOLE_COLS && y < CONSOLE_ROWS ==> final(self).cells() == put_text(
                old(self).cells(),
                CONSOLE_COLS * y + x,
                msg@,
                attribute(old(self).scheme()),
            ),
            !(x < CONSOLE_COLS && y < CONSOLE_ROWS) ==> final(self).cells() == old(self).cells(),
    {
        if x < CONSOLE_COLS && y < CONSOLE_ROWS {
            let pos = CONSOLE_COLS * y + x;
            let n = msg.len();
            let mut i: usize = 0;
            while i < n
                invariant
                    i <= n,
                    n == msg@.len(),
                    pos < CONSOLE_CELLS,
                    self.wf(),
                    self.scheme() == old(self).scheme(),
                    self.cells() == put_text(
                        old(self).cells(),
                        pos as int,
                        msg@.subrange(0, i as int),
                        attribute(old(self).scheme()),
                    ),
                decreases n - i,
            {
                proof {
                    assert(msg@.subrange(0, i + 1).drop_last() =~= msg@.subrange(0, i as int));
                }
                if i < CONSOLE_CELLS - pos {
                    let _ = self.set_char(pos + i, msg[i]);
                }
                i = i + 1;
            }
            proof {
                assert(msg@.subrange(0, n as int) =~= msg@);
            }
        }
    }
}

impl Default for Console {
    /// A blank console in the default colors.
    fn default() -> (r: Console)
        ensures
            r.wf(),
            r.scheme() == (ConsoleColor::Gray, ConsoleColor::Black),
            r.cells() == Seq::new((2 * CONSOLE_CELLS) as nat, |i: int| 0u8),
    {
        Console::new(ColorScheme::default())
    }
}

/// Where a writer's cursor goes after one character is put.
pub open spec fn advance(x: int, y: int) -> (int, int) {
    if x + 1 >= CONSOLE_COLS {
        if y + 1 >= CONSOLE_ROWS {
            (0, 0)
        } else {
            (0, y + 1)
        }
    } else {
        (x + 1, y)
    }
}

/// Where a writer's cursor goes on a line break: the start of the next row,
/// or back to the top from the last one.
pub open spec fn next_line(y: int) -> (int, int) {
    if y + 1 >= CONSOLE_ROWS {
        (0, 0)
    } else {
        (0, y + 1)
    }
}

/// The abstract state of a writer: its cells and its cursor.
pub struct WriterView {
    pub cells: Seq<u8>,
    pub x: int,
    pub y: int,
}

/// The writer's state after one byte: a line feed breaks the line, any other
/// byte is put at the cursor, which then advances.
pub open spec fn write_byte(w: WriterView, ch: u8, a: u8) -> WriterView {
    if ch == 10 {
        WriterView { cells: w.cells, x: next_line(w.y).0, y: next_line(w.y).1 }
    } else {
        WriterView {
            cells: put_cell(w.cells, CONSOLE_COLS * w.y + w.x, ch, a),
            x: advance(w.x, w.y).0,
            y: advance(w.x, w.y).1,
        }
    }
}

/// The writer's state after a sequence of bytes.
pub open spec fn write_bytes(w: WriterView, s: Seq<u8>, a: u8) -> WriterView
    decreases s.len(),
{
    if s.len() == 0 {
        w
    } else {
        write_byte(write_bytes(w, s.drop_last(), a), s.last(), a)
    }
}

/// A console with a cursor that wraps at the end of a row and scrolls back
/// to the top at the end of the screen.
pub struct ConsoleWriter {
    console: Console,
    x: usize,
    y: usize,
}

impl View for ConsoleWriter {
    type V = WriterView;

    closed spec fn view(&self) -> WriterView {
        WriterView { cells: self.console.cells(), x: self.x as int, y: self.y as int }
    }
}

impl ConsoleWriter {
    /// The buffer holds every cell and the cursor is on the screen.
    pub open spec fn wf(&self) -> bool {
        &&& self@.cells.len() == 2 * CONSOLE_CELLS
        &&& 0 <= self@.x < CONSOLE_COLS
        &&& 0 <= self@.y < CONSOLE_ROWS
    }

    /// The colors the writer writes with.
    pub closed spec fn scheme(&self) -> (ConsoleColor, ConsoleColor) {
        self.console.scheme()
    }

    /// A writer over `console` with its cursor at the top left.
    pub fn new(console: Console) -> (r: ConsoleWriter)
        requires
            console.wf(),
        ensures
            r.wf(),
            r@ == (WriterView { cells: console.cells(), x: 0, y: 0 }),
            r.scheme() == console.scheme(),
    {
        ConsoleWriter { console, x: 0, y: 0 }
    }

    /// The cell under the cursor.
    pub fn pos(&self) -> (r: usize)
        requires
            self.wf(),
        ensures
            r == CONSOLE_COLS * self@.y + self@.x,
            r < CONSOLE_CELLS,
    {
        CONSOLE_COLS * self.y + self.x
    }

    /// The cursor's column and row.
    pub fn get_xy(&self) -> (r: (usize, usize))
        ensures
            r.0 == self@.x,
            r.1 == self@.y,
    {
        (self.x, self.y)
    }

    /// Moves the cursor one cell on.
    pub fn inc_pos(&mut self)
        requires
            old(self).wf(),
        ensures
            final(self).wf(),
            final(self).scheme() == old(self).scheme(),
            final(self)@ == (WriterView {
                cells: old(self)@.cells,
                x: advance(old(self)@.x, old(self)@.y).0,
                y: advance(old(self)@.x, old(self)@.y).1,
            }),
    {
        self.x = self.x + 1;
        if self.x >= CONSOLE_COLS {
            self.x = 0;
            self.y = self.y + 1;
        }
        if self.y >= CONSOLE_ROWS {
            self.y = 0;
        }
    }

    /// Moves the cursor to the start of the next row.
    pub fn line_break(&mut self)
        requires
            old(self).wf(),
        ensures
            final(self).wf(),
            final(self).scheme() == old(self).scheme(),
            final(self)@ == (WriterView {
                cells: old(self)@.cells,
                x: next_line(old(self)@.y).0,
                y: next_line(old(self)@.y).1,
            }),
    {
        self.y = self.y + 1;
        self.x = 0;
        if CONSOLE_COLS * self.y + self.x >= CONSOLE_COLS * CONSOLE_ROWS {
            self.x = 0;
            self.y = 0;
        }
    }

    /// The console written on.
    pub fn console(&self) -> (r: &Console)
        ensures
            r.cells() == self@.cells,
            r.scheme() == self.scheme(),
    {
        &self.console
    }

    /// Writes the bytes of `s`, breaking lines at line feeds.
    pub fn write_str(&mut self, s: &str)
        requires
            old(self).wf(),
        ensures
            final(self).wf(),
            final(self).scheme() == old(self).scheme(),
            final(self)@ == write_bytes(old(self)@, s.spec_bytes(), attribute(old(self).scheme())),
    {
        let bytes = s.as_bytes();
        let n = bytes.len();
        let mut i: usize = 0;
        while i < n
            invariant
                i <= n,
                n == bytes@.len(),
                bytes@ == s.spec_bytes(),
                self.wf(),
                self.scheme() == old(self).scheme(),
                self@ == write_bytes(
                    old(self)@,
                    bytes@.subrange(0, i as int),
                    attribute(old(self).scheme()),
                ),
            decreases n - i,
        {
            proof {
                assert(bytes@.subrange(0, i + 1).drop_last() =~= bytes@.subrange(0, i as int));
            }
            let ch = bytes[i];
            if ch == 10u8 {
                self.line_break();
            } else {
                let p = self.pos();
                let _ = self.console.set_char(p, ch);
                self.inc_pos();
            }
            i = i + 1;
        }
        proof {
            assert(bytes@.subrange(0, n as int) =~= bytes@);
        }
    }
}

} // verus!
