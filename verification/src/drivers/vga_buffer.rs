//! The VGA text screen: colours, character cells, and a writer that fills
//! the bottom line and scrolls. The writer keeps the screen as plain
//! values; putting it on the display is left to the caller.

use vstd::prelude::*;
use vstd::string::StringSliceAdditionalSpecFns;

verus! {

/// The sixteen colours of the VGA text mode.
#[allow(dead_code)]
#[derive(Debug, Clone, Copy, PartialEq, Eq)]
pub enum Color {
    Black,
    Blue,
    Green,
    Cyan,
    Red,
    Magenta,
    Brown,
    LightGray,
    DarkGray,
    LightBlue,
    LightGreen,
    LightCyan,
    LightRed,
    Pink,
    Yellow,
    White,
}

impl Color {
    /// The number of the colour in the VGA palette.
    pub open spec fn spec_code(self) -> u8 {
        match self {
            Color::Black => 0,
            Color::Blue => 1,
            Color::Green => 2,
            Color::Cyan => 3,
            Color::Red => 4,
            Color::Magenta => 5,
            Color::Brown => 6,
            Color::LightGray => 7,
            Color::DarkGray => 8,
            Color::LightBlue => 9,
            Color::LightGreen => 10,
            Color::LightCyan => 11,
            Color::LightRed => 12,
            Color::Pink => 13,
            Color::Yellow => 14,
            Color::White => 15,
        }
    }

    /// The number of the colour in the VGA palette.
    pub fn code(self) -> (r: u8)
        ensures
            r == self.spec_code(),
            r < 16,
    {
        match self {
            Color::Black => 0,
            Color::Blue => 1,
            Color::Green => 2,
            Color::Cyan => 3,
            Color::Red => 4,
            Color::Magenta => 5,
            Color::Brown => 6,
            Color::LightGray => 7,
            Color::DarkGray => 8,
            Color::LightBlue => 9,
            Color::LightGreen => 10,
            Color::LightCyan => 11,
            Color::LightRed => 12,
            Color::Pink => 13,
            Color::Yellow => 14,
            Color::White => 15,
        }
    }
}

/// A foreground and a background colour in one attribute byte: the
/// background in the high four bits, the foreground in the low four.
#[derive(Debug, Clone, Copy, PartialEq, Eq)]
pub struct ColorCode(pub u8);

impl ColorCode {
    /// The attribute byte for `foreground` on `background`.
    pub fn new(foreground: Color, background: Color) -> (r: ColorCode)
        ensures
            r.0 == background.spec_code() * 16 + foreground.spec_code(),
    {
        let bg: u8 = background.code();
        let fg: u8 = foreground.code();
        assert((bg << 4 | fg) == bg * 16 + fg) by (bit_vector)
            requires
                bg < 16,
                fg < 16,
        ;
        ColorCode(bg << 4 | fg)
    }
}

/// A character cell of the screen.
#[derive(Debug, Clone, Copy, PartialEq, Eq)]
pub struct ScreenChar {
    /// The character, in code page 437.
    pub ascii_character: u8,
    /// Its colours.
    pub color_code: ColorCode,
}

/// Lines of the screen.
pub const BUFFER_HEIGHT: usize = 25;

/// Character cells in a line.
pub const BUFFER_WIDTH: usize = 80;

/// The byte shown in place of one that cannot be printed.
pub const UNPRINTABLE: u8 = 0xfe;

/// The cell that fills a fresh line: no character, black on black.
pub open spec fn blank_cell() -> ScreenChar {
    ScreenChar { ascii_character: 0, color_code: ColorCode(0) }
}

/// Abstract state of a writer.
pub struct WriterView {
    /// Column of the next character in the bottom line.
    pub column: int,
    /// Colours of the characters written.
    pub color_code: ColorCode,
    /// The cells of the screen, line by line from the top.
    pub cells: Seq<Seq<ScreenChar>>,
}

impl WriterView {
    /// The screen has its full size and the column is on it or just behind it.
    pub open spec fn wf(self) -> bool {
        &&& 0 <= self.column <= BUFFER_WIDTH
        &&& self.cells.len() == BUFFER_HEIGHT
        &&& forall|r: int| 0 <= r < BUFFER_HEIGHT ==> (#[trigger] self.cells[r]).len() == BUFFER_WIDTH
    }

    /// The state after a line break: every line moved up by one, the bottom
    /// line is blank, and the column is 0.
    pub open spec fn new_line(self) -> WriterView {
        WriterView {
            column: 0,
            color_code: self.color_code,
            cells: Seq::new(
                BUFFER_HEIGHT as nat,
                |r: int|
                    if r + 1 < BUFFER_HEIGHT {
                        self.cells[r + 1]
                    } else {
                        Seq::new(BUFFER_WIDTH as nat, |c: int| blank_cell())
                    },
            ),
        }
    }

    /// The state after `byte` was written: a line break for a newline; else
    /// the byte is put at the column in the bottom line, after a line break
    /// where the line is full, and the column moves on.
    pub open spec fn write_byte(self, byte: u8) -> WriterView {
        if byte == 0x0a {
            self.new_line()
        } else {
            let v = if self.column >= BUFFER_WIDTH {
                self.new_line()
            } else {
                self
            };
            WriterView {
                column: v.column + 1,
                color_code: v.color_code,
                cells: v.cells.update(
                    BUFFER_HEIGHT - 1,
                    v.cells[BUFFER_HEIGHT - 1].update(
                        v.column,
                        ScreenChar { ascii_character: byte, color_code: v.color_code },
                    ),
                ),
            }
        }
    }

    /// The state after the first `n` of `bytes` were written, each byte that
    /// is neither printable ASCII nor a newline as `UNPRINTABLE`.
    pub open spec fn write_bytes(self, bytes: Seq<u8>, n: nat) -> WriterView
        decreases n,
    {
        if n == 0 {
            self
        } else {
            self.write_bytes(bytes, (n - 1) as nat).write_byte(shown(bytes[n - 1]))
        }
    }
}

/// The byte that is written for `byte`: itself where it is printable ASCII
/// or a newline, else `UNPRINTABLE`.
pub open spec fn shown(byte: u8) -> u8 {
    if (0x20 <= byte <= 0x7e) || byte == 0x0a {
        byte
    } else {
        UNPRINTABLE
    }
}

/// A writer to the text screen. Characters go to the bottom line; a full
/// line or a newline moves every line up by one.
pub struct Writer {
    column_position: usize,
    color_code: ColorCode,
    buffer: Vec<Vec<ScreenChar>>,
}

impl Writer {
    /// The abstract state.
    pub closed spec fn view(&self) -> WriterView {
        WriterView {
            column: self.column_position as int,
            color_code: self.color_code,
            cells: Seq::new(self.buffer@.len(), |r: int| self.buffer@[r]@),
        }
    }

    /// The writer is consistent.
    pub open spec fn wf(&self) -> bool {
        self@.wf()
    }

    /// A writer in column 0 of a blank screen.
    pub fn new(color_code: ColorCode) -> (r: Self)
        ensures
            r.wf(),
            r@.column == 0,
            r@.color_code == color_code,
            forall|row: int, col: int|
                0 <= row < BUFFER_HEIGHT && 0 <= col < BUFFER_WIDTH ==> (
                #[trigger] r@.cells[row][col]) == blank_cell(),
    {
        let mut buffer: Vec<Vec<ScreenChar>> = Vec::new();
        let mut row: usize = 0;
        while row < BUFFER_HEIGHT
            invariant
                row <= BUFFER_HEIGHT,
                buffer@.len() == row,
                forall|r: int| 0 <= r < row ==> (#[trigger] buffer@[r])@ =~= Seq::new(
                    BUFFER_WIDTH as nat,
                    |c: int| blank_cell(),
                ),
            decreases BUFFER_HEIGHT - row,
        {
            buffer.push(Self::blank_line());
            row += 1;
        }
        Writer { column_position: 0, color_code, buffer }
    }

    /// A line of blank cells.
    fn blank_line() -> (line: Vec<ScreenChar>)
        ensures
            line@ =~= Seq::new(BUFFER_WIDTH as nat, |c: int| blank_cell()),
    {
        let mut line: Vec<ScreenChar> = Vec::new();
        let mut col: usize = 0;
        while col < BUFFER_WIDTH
            invariant
                col <= BUFFER_WIDTH,
                line@.len() == col,
                forall|c: int| 0 <= c < col ==> (#[trigger] line@[c]) == blank_cell(),
            decreases BUFFER_WIDTH - col,
        {
            line.push(ScreenChar { ascii_character: 0, color_code: ColorCode(0) });
            col += 1;
        }
        line
    }

    /// Breaks the line: every line moves up by one and the bottom line is blank.
    pub fn new_line(&mut self)
        requires
            old(self).wf(),
        ensures
            final(self).wf(),
            final(self)@ == old(self)@.new_line(),
    {
        proof {
            self.lemma_rows();
        }
        let mut row: usize = 0;
        while row < BUFFER_HEIGHT - 1
            invariant
                row <= BUFFER_HEIGHT - 1,
                old(self).buffer@.len() == BUFFER_HEIGHT,
                forall|r: int| 0 <= r < BUFFER_HEIGHT ==> (#[trigger] old(self).buffer@[r])@.len()
                    == BUFFER_WIDTH,
                self.buffer@.len() == BUFFER_HEIGHT,
                self.color_code == old(self).color_code,
                forall|r: int| 0 <= r < BUFFER_HEIGHT ==> (#[trigger] self.buffer@[r])@.len()
                    == BUFFER_WIDTH,
                forall|r: int| 0 <= r < row ==> (#[trigger] self.buffer@[r])@ == old(
                    self,
                ).buffer@[r + 1]@,
                forall|r: int| row <= r < BUFFER_HEIGHT ==> (#[trigger] self.buffer@[r])@ == old(
                    self,
                ).buffer@[r]@,
            decreases BUFFER_HEIGHT - 1 - row,
        {
            let mut col: usize = 0;
            while col < BUFFER_WIDTH
                invariant
                    row < BUFFER_HEIGHT - 1,
                    col <= BUFFER_WIDTH,
                    old(self).buffer@.len() == BUFFER_HEIGHT,
                    forall|r: int|
                        0 <= r < BUFFER_HEIGHT ==> (#[trigger] old(self).buffer@[r])@.len()
                            == BUFFER_WIDTH,
                    self.buffer@.len() == BUFFER_HEIGHT,
                    self.color_code == old(self).color_code,
                    forall|r: int| 0 <= r < BUFFER_HEIGHT ==> (#[trigger] self.buffer@[r])@.len()
                        == BUFFER_WIDTH,
                    forall|r: int| 0 <= r < row ==> (#[trigger] self.buffer@[r])@ == old(
                        self,
                    ).buffer@[r + 1]@,
                    forall|r: int|
                        row < r < BUFFER_HEIGHT ==> (#[trigger] self.buffer@[r])@ == old(
                            self,
                        ).buffer@[r]@,
                    forall|c: int|
                        0 <= c < col ==> (#[trigger] self.buffer@[row as int]@[c]) == old(
                            self,
                        ).buffer@[row + 1]@[c],
                decreases BUFFER_WIDTH - col,
            {
                let temp_char: ScreenChar = self.buffer[row + 1][col];
                self.buffer[row][col] = temp_char;
                col += 1;
            }
            proof {
                assert(self.buffer@[row as int]@ =~= old(self).buffer@[row + 1]@);
            }
            row += 1;
        }
        let mut col: usize = 0;
        while col < BUFFER_WIDTH
            invariant
                col <= BUFFER_WIDTH,
                old(self).buffer@.len() == BUFFER_HEIGHT,
                self.buffer@.len() == BUFFER_HEIGHT,
                self.color_code == old(self).color_code,
                forall|r: int| 0 <= r < BUFFER_HEIGHT ==> (#[trigger] self.buffer@[r])@.len()
                    == BUFFER_WIDTH,
                forall|r: int| 0 <= r < BUFFER_HEIGHT - 1 ==> (#[trigger] self.buffer@[r])@ == old(
                    self,
                ).buffer@[r + 1]@,
                forall|c: int|
                    0 <= c < col ==> (#[trigger] self.buffer@[BUFFER_HEIGHT - 1]@[c])
                        == blank_cell(),
            decreases BUFFER_WIDTH - col,
        {
            self.buffer[BUFFER_HEIGHT - 1][col] = ScreenChar {
                ascii_character: 0,
                color_code: ColorCode::new(Color::Black, Color::Black),
            };
            col += 1;
        }
        self.column_position = 0;
        proof {
            let v = old(self)@.new_line();
            assert forall|r: int| 0 <= r < BUFFER_HEIGHT implies #[trigger] self@.cells[r]
                =~= v.cells[r] by {
                if r + 1 < BUFFER_HEIGHT {
                    assert(self.buffer@[r]@ == old(self).buffer@[r + 1]@);
                }
            }
            assert(self@.cells =~= v.cells);
        }
    }

    /// Writes `byte` at the column in the bottom line and moves on; breaks
    /// the line first where it is full, and only breaks it for a newline.
    pub fn write_byte(&mut self, byte: u8)
        requires
            old(self).wf(),
        ensures
            final(self).wf(),
            final(self)@ == old(self)@.write_byte(byte),
    {
        if byte == 0x0a {
            self.new_line();
        } else {
            if self.column_position >= BUFFER_WIDTH {
                self.new_line();
            }
            let ghost v = self@;
            proof {
                self.lemma_rows();
            }
            let row: usize = BUFFER_HEIGHT - 1;
            let col: usize = self.column_position;
            let schar = ScreenChar { ascii_character: byte, color_code: self.color_code };
            self.buffer[row][col] = schar;
            self.column_position += 1;
            proof {
                let v1 = WriterView {
                    column: v.column + 1,
                    color_code: v.color_code,
                    cells: v.cells.update(
                        BUFFER_HEIGHT - 1,
                        v.cells[BUFFER_HEIGHT - 1].update(v.column, schar),
                    ),
                };
                assert forall|r: int| 0 <= r < BUFFER_HEIGHT implies #[trigger] self@.cells[r]
                    =~= v1.cells[r] by {}
                assert(self@.cells =~= v1.cells);
            }
        }
    }

    /// Writes the bytes of `s`, each byte that is neither printable ASCII
    /// nor a newline as `UNPRINTABLE`.
    pub fn write_string(&mut self, s: &str)
        requires
            old(self).wf(),
        ensures
            final(self).wf(),
            final(self)@ == old(self)@.write_bytes(s.spec_bytes(), s.spec_bytes().len()),
    {
        let bytes: &[u8] = s.as_bytes();
        let mut i: usize = 0;
        while i < bytes.len()
            invariant
                i <= bytes@.len(),
                bytes@ == s.spec_bytes(),
                self.wf(),
                self@ == old(self)@.write_bytes(bytes@, i as nat),
            decreases bytes@.len() - i,
        {
            let byte: u8 = bytes[i];
            if (0x20 <= byte && byte <= 0x7e) || byte == 0x0a {
                self.write_byte(byte);
            } else {
                self.write_byte(UNPRINTABLE);
            }
            i += 1;
        }
    }

    /// The lines of a consistent writer have their full length.
    proof fn lemma_rows(&self)
        requires
            self.wf(),
        ensures
            self.buffer@.len() == BUFFER_HEIGHT,
            self.column_position <= BUFFER_WIDTH,
            forall|r: int| 0 <= r < BUFFER_HEIGHT ==> (#[trigger] self.buffer@[r])@.len()
                == BUFFER_WIDTH,
            forall|r: int| 0 <= r < BUFFER_HEIGHT ==> (#[trigger] self.buffer@[r])@ == self@.cells[r],
    {
        assert(self@.cells.len() == self.buffer@.len());
        assert forall|r: int| 0 <= r < BUFFER_HEIGHT implies (#[trigger] self.buffer@[r])@.len()
            == BUFFER_WIDTH by {
            assert(self@.cells[r] == self.buffer@[r]@);
        }
    }

    /// Column of the next character in the bottom line.
    pub fn column(&self) -> (c: usize)
        ensures
            c == self@.column,
    {
        self.column_position
    }

    /// The cell in line `row` and column `col`.
    pub fn cell(&self, row: usize, col: usize) -> (c: ScreenChar)
        requires
            self.wf(),
            row < BUFFER_HEIGHT,
            col < BUFFER_WIDTH,
        ensures
            c == self@.cells[row as int][col as int],
    {
        proof {
            self.lemma_rows();
        }
        self.buffer[row][col]
    }
}

} // verus!
