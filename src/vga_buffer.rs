//! The VGA text mode: colours, attribute bytes, and a writer that keeps
//! the screen's characters and scrolls when a line is full.
use vstd::prelude::*;
use vstd::string::StringSliceAdditionalSpecFns;

verus! {

/// The sixteen colours of the VGA text mode.
#[derive(Clone, Copy, Debug, PartialEq, Eq, Structural)]
pub enum Color {
    Black,
    Blue,
    Green,
    Cyan,
    Red,
    Magenta,
    Brown,
    LightGray,
    DarkGray,
    LightBlue,
    LightGreen,
    LightCyan,
    LightRed,
    Pink,
    Yellow,
    White,
}

impl Color {
    /// The colour's number in the VGA palette.
    pub open spec fn spec_value(self) -> u8 {
        match self {
            Color::Black => 0,
            Color::Blue => 1,
            Color::Green => 2,
            Color::Cyan => 3,
            Color::Red => 4,
            Color::Magenta => 5,
            Color::Brown => 6,
            Color::LightGray => 7,
            Color::DarkGray => 8,
            Color::LightBlue => 9,
            Color::LightGreen => 10,
            Color::LightCyan => 11,
            Color::LightRed => 12,
            Color::Pink => 13,
            Color::Yellow => 14,
            Color::White => 15,
        }
    }

    pub fn value(self) -> (r: u8)
        ensures
            r == self.spec_value(),
            r < 16,
    {
        match self {
            Color::Black => 0,
            Color::Blue => 1,
            Color::Green => 2,
            Color::Cyan => 3,
            Color::Red => 4,
            Color::Magenta => 5,
            Color::Brown => 6,
            Color::LightGray => 7,
            Color::DarkGray => 8,
            Color::LightBlue => 9,
            Color::LightGreen => 10,
            Color::LightCyan => 11,
            Color::LightRed => 12,
            Color::Pink => 13,
            Color::Yellow => 14,
            Color::White => 15,
        }
    }
}

/// A character's attribute byte: background colour in the high four bits,
/// foreground colour in the low four.
#[derive(Clone, Copy, Debug, PartialEq, Eq, Structural)]
pub struct ColorCode(pub u8);

impl ColorCode {
    pub fn new(foreground: Color, background: Color) -> (r: ColorCode)
        ensures
            r.0 == background.spec_value() * 16 + foreground.spec_value(),
    {
        let f = foreground.value();
        let b = background.value();
        assert((b << 4u8) | f == b * 16 + f) by (bit_vector)
            requires
                b < 16,
                f < 16,
        ;
        ColorCode((b << 4u8) | f)
    }
}

/// Rows of the text screen.
pub const BUFFER_HEIGHT: usize = 25;

/// Columns of the text screen.
pub const BUFFER_WIDTH: usize = 80;

/// Cells of the text screen.
pub const BUFFER_SIZE: usize = 2000;

/// A cell of the screen: a character and its colours.
#[derive(Clone, Copy, Debug, PartialEq, Eq, Structural)]
pub struct ScreenChar {
    pub ascii_character: u8,
    pub color_code: ColorCode,
}

/// An empty cell in the given colours.
pub open spec fn blank(color_code: ColorCode) -> ScreenChar {
    ScreenChar { ascii_character: 0x20, color_code }
}

/// The screen after every row moves up by one and the bottom row is blank.
pub open spec fn scrolled(chars: Seq<ScreenChar>, color_code: ColorCode) -> Seq<ScreenChar> {
    Seq::new(
        BUFFER_SIZE as nat,
        |i: int|
            if i < BUFFER_SIZE - BUFFER_WIDTH {
                chars[i + BUFFER_WIDTH]
            } else {
                blank(color_code)
            },
    )
}

/// The state of a writer: the screen's cells, row by row from the top, and
/// the column where the bottom row's next character goes.
pub struct WriterView {
    pub chars: Seq<ScreenChar>,
    pub column: int,
    pub color_code: ColorCode,
}

/// The state after a line break: the screen scrolls and the column returns
/// to the start.
pub open spec fn new_line_spec(v: WriterView) -> WriterView {
    WriterView { chars: scrolled(v.chars, v.color_code), column: 0, ..v }
}

/// The state after writing `byte`: a newline breaks the line; any other byte
/// goes to the bottom row, after a line break if that row is full.
pub open spec fn write_byte_spec(v: WriterView, byte: u8) -> WriterView {
    if byte == 0x0a {
        new_line_spec(v)
    } else {
        let w = if v.column >= BUFFER_WIDTH { new_line_spec(v) } else { v };
        WriterView {
            chars: w.chars.update(
                (BUFFER_SIZE - BUFFER_WIDTH) + w.column,
                ScreenChar { ascii_character: byte, color_code: w.color_code },
            ),
            column: w.column + 1,
            ..w
        }
    }
}

/// The byte shown for `byte`: printable ASCII and newline as they are,
/// anything else as a filled square.
pub open spec fn shown(byte: u8) -> u8 {
    if (0x20 <= byte && byte <= 0x7e) || byte == 0x0a {
        byte
    } else {
        0xfe
    }
}

/// The state after writing each of `bytes` in turn.
pub open spec fn write_bytes_spec(v: WriterView, bytes: Seq<u8>) -> WriterView
    decreases bytes.len(),
{
    if bytes.len() == 0 {
        v
    } else {
        write_byte_spec(write_bytes_spec(v, bytes.drop_last()), shown(bytes.last()))
    }
}

/// Writes text to the bottom row of the screen, scrolling up as lines fill.
pub struct Writer {
    column_position: usize,
    color_code: ColorCode,
    chars: Vec<ScreenChar>,
}

impl Writer {
    pub closed spec fn view(&self) -> WriterView {
        WriterView {
            chars: self.chars@,
            column: self.column_position as int,
            color_code: self.color_code,
        }
    }

    pub open spec fn wf(&self) -> bool {
        &&& self@.chars.len() == BUFFER_SIZE
        &&& 0 <= self@.column <= BUFFER_WIDTH
    }

    /// A writer in the given colours over a blank screen.
    pub fn new(color_code: ColorCode) -> (r: Writer)
        ensures
            r.wf(),
            r@.column == 0,
            r@.color_code == color_code,
            r@.chars == Seq::new(BUFFER_SIZE as nat, |i: int| blank(color_code)),
    {
        let mut chars: Vec<ScreenChar> = Vec::new();
        let mut i: usize = 0;
        while i < BUFFER_SIZE
            invariant
                i <= BUFFER_SIZE,
                chars@ == Seq::new(i as nat, |j: int| blank(color_code)),
            decreases BUFFER_SIZE - i,
        {
            chars.push(ScreenChar { ascii_character: 0x20, color_code });
            i = i + 1;
            assert(chars@ =~= Seq::new(i as nat, |j: int| blank(color_code)));
        }
        Writer { column_position: 0, color_code, chars }
    }

    /// The cell at `row`, `col`.
    pub fn char_at(&self, row: usize, col: usize) -> (r: ScreenChar)
        requires
            self.wf(),
            row < BUFFER_HEIGHT,
            col < BUFFER_WIDTH,
        ensures
            r == self@.chars[row * BUFFER_WIDTH + col],
    {
        assert(row * BUFFER_WIDTH + col < BUFFER_SIZE) by (nonlinear_arith)
            requires
                row < BUFFER_HEIGHT,
                col < BUFFER_WIDTH,
        ;
        self.chars[row * BUFFER_WIDTH + col]
    }

    /// The column where the next character goes.
    pub fn column_position(&self) -> (r: usize)
        ensures
            r == self@.column,
    {
        self.column_position
    }

    /// Writes one byte.
    pub fn write_byte(&mut self, byte: u8)
        requires
            old(self).wf(),
        ensures
            final(self).wf(),
            final(self)@ == write_byte_spec(old(self)@, byte),
    {
        if byte == 0x0a {
            self.new_line();
        } else {
            if self.column_position >= BUFFER_WIDTH {
                self.new_line();
            }
            let row = BUFFER_HEIGHT - 1;
            let col = self.column_position;
            let color_code = self.color_code;
            self.chars.set(row * BUFFER_WIDTH + col, ScreenChar { ascii_character: byte, color_code });
            self.column_position = self.column_position + 1;
        }
    }

    /// Writes each byte of `s`, showing bytes that the screen cannot print
    /// as a filled square.
    pub fn write_string(&mut self, s: &str)
        requires
            old(self).wf(),
        ensures
            final(self).wf(),
            final(self)@ == write_bytes_spec(old(self)@, s.spec_bytes()),
    {
        let bytes = s.as_bytes();
        let ghost v = self@;
        let mut i: usize = 0;
        while i < bytes.len()
            invariant
                self.wf(),
                i <= bytes@.len(),
                bytes@ == s.spec_bytes(),
                self@ == write_bytes_spec(v, bytes@.take(i as int)),
            decreases bytes@.len() - i,
        {
            let byte = bytes[i];
            proof {
                assert(bytes@.take(i + 1).drop_last() =~= bytes@.take(i as int));
                assert(bytes@.take(i + 1).last() == byte);
            }
            if (0x20 <= byte && byte <= 0x7e) || byte == 0x0a {
                self.write_byte(byte);
            } else {
                self.write_byte(0xfe);
            }
            i = i + 1;
        }
        proof {
            assert(bytes@.take(bytes@.len() as int) =~= bytes@);
        }
    }

    /// Moves every row up by one, clears the bottom row, and returns to its
    /// start.
    fn new_line(&mut self)
        requires
            old(self).wf(),
        ensures
            final(self).wf(),
            final(self)@ == new_line_spec(old(self)@),
    {
        let ghost old_chars = self.chars@;
        let mut i: usize = 0;
        while i < BUFFER_SIZE - BUFFER_WIDTH
            invariant
                i <= BUFFER_SIZE - BUFFER_WIDTH,
                self.chars@.len() == BUFFER_SIZE,
                old_chars.len() == BUFFER_SIZE,
                self.color_code == old(self).color_code,
                self.column_position == old(self).column_position,
                old_chars == old(self).chars@,
                forall|j: int| 0 <= j < i ==> self.chars@[j] == old_chars[j + BUFFER_WIDTH],
                forall|j: int| i <= j < BUFFER_SIZE ==> self.chars@[j] == old_chars[j],
            decreases BUFFER_SIZE - BUFFER_WIDTH - i,
        {
            let character = self.chars[i + BUFFER_WIDTH];
            self.chars.set(i, character);
            i = i + 1;
        }
        self.clear_row(BUFFER_HEIGHT - 1);
        self.column_position = 0;
        assert(self.chars@ =~= scrolled(old_chars, self.color_code));
    }

    /// Fills `row` with blanks in the writer's colours.
    fn clear_row(&mut self, row: usize)
        requires
            old(self).wf(),
            row < BUFFER_HEIGHT,
        ensures
            final(self).wf(),
            final(self).color_code == old(self).color_code,
            final(self).column_position == old(self).column_position,
            forall|j: int|
                0 <= j < BUFFER_SIZE ==> final(self).chars@[j] == if row * BUFFER_WIDTH <= j < (row
                    + 1) * BUFFER_WIDTH {
                    blank(old(self).color_code)
                } else {
                    old(self).chars@[j]
                },
    {
        let blank = ScreenChar { ascii_character: 0x20, color_code: self.color_code };
        let start = row * BUFFER_WIDTH;
        let mut col: usize = 0;
        while col < BUFFER_WIDTH
            invariant
                col <= BUFFER_WIDTH,
                start == row * BUFFER_WIDTH,
                row < BUFFER_HEIGHT,
                self.chars@.len() == BUFFER_SIZE,
                self.color_code == old(self).color_code,
                self.column_position == old(self).column_position,
                blank == (ScreenChar { ascii_character: 0x20, color_code: self.color_code }),
                forall|j: int|
                    0 <= j < BUFFER_SIZE ==> self.chars@[j] == if start <= j < start + col {
                        blank
                    } else {
                        old(self).chars@[j]
                    },
            decreases BUFFER_WIDTH - col,
        {
            self.chars.set(start + col, blank);
            col = col + 1;
        }
    }
}

} // verus!
