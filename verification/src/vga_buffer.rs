use vstd::prelude::*;

verus! {

/// The sixteen colours of the text-mode screen.
#[derive(Debug, Clone, Copy, PartialEq, Eq, Structural)]
pub enum Color {
    Black,
    Blue,
    Green,
    Cyan,
    Red,
    Magenta,
    Brown,
    LightGray,
    DarkGray,
    LightBlue,
    LightGreen,
    LightCyan,
    LightRed,
    Pink,
    Yellow,
    White,
}

/// The hardware number of a colour.
pub open spec fn color_number(c: Color) -> u8 {
    match c {
        Color::Black => 0,
        Color::Blue => 1,
        Color::Green => 2,
        Color::Cyan => 3,
        Color::Red => 4,
        Color::Magenta => 5,
        Color::Brown => 6,
        Color::LightGray => 7,
        Color::DarkGray => 8,
        Color::LightBlue => 9,
        Color::LightGreen => 10,
        Color::LightCyan => 11,
        Color::LightRed => 12,
        Color::Pink => 13,
        Color::Yellow => 14,
        Color::White => 15,
    }
}

impl Color {
    /// The hardware number of the colour.
    pub fn number(self) -> (n: u8)
        ensures
            n == color_number(self),
    {
        match self {
            Color::Black => 0,
            Color::Blue => 1,
            Color::Green => 2,
            Color::Cyan => 3,
            Color::Red => 4,
            Color::Magenta => 5,
            Color::Brown => 6,
            Color::LightGray => 7,
            Color::DarkGray => 8,
            Color::LightBlue => 9,
            Color::LightGreen => 10,
            Color::LightCyan => 11,
            Color::LightRed => 12,
            Color::Pink => 13,
            Color::Yellow => 14,
            Color::White => 15,
        }
    }
}

/// A foreground and a background colour packed in a byte: background in the high nibble.
#[derive(Debug, Clone, Copy, PartialEq, Eq, Structural)]
pub struct ColorCode(pub u8);

impl ColorCode {
    pub fn new(foreground: Color, background: Color) -> (c: ColorCode)
        ensures
            c.0 == color_number(background) * 16 + color_number(foreground),
    {
        let f = foreground.number();
        let b = background.number();
        let v = b << 4u8 | f;
        proof {
            assert(b < 16 && f < 16 ==> (b << 4u8 | f) == b * 16 + f) by (bit_vector);
        }
        ColorCode(v)
    }
}

/// A character cell of the text-mode screen.
#[derive(Debug, Clone, Copy, PartialEq, Eq, Structural)]
pub struct ScreenChar {
    pub ascii_character: u8,
    pub color_code: ColorCode,
}

pub const BUFFER_HEIGHT: usize = 25;
pub const BUFFER_WIDTH: usize = 80;

/// The code page 437 byte of a Unicode code point above ASCII, where it has one.
pub open spec fn cp437_of_code(cp: u32) -> Option<u8> {
    match cp {
        0x00A0 => Some(0xFFu8),
        0x00A1 => Some(0xADu8),
        0x00A2 => Some(0x9Bu8),
        0x00A3 => Some(0x9Cu8),
        0x00A5 => Some(0x9Du8),
        0x00AA => Some(0xA6u8),
        0x00AB => Some(0xAEu8),
        0x00AC => Some(0xAAu8),
        0x00B0 => Some(0xF8u8),
        0x00B1 => Some(0xF1u8),
        0x00B2 => Some(0xFDu8),
        0x00B5 => Some(0xE6u8),
        0x00B7 => Some(0xFAu8),
        0x00BA => Some(0xA7u8),
        0x00BB => Some(0xAFu8),
        0x00BC => Some(0xACu8),
        0x00BD => Some(0xABu8),
        0x00BF => Some(0xA8u8),
        0x00C4 => Some(0x8Eu8),
        0x00C5 => Some(0x8Fu8),
        0x00C6 => Some(0x92u8),
        0x00C7 => Some(0x80u8),
        0x00C9 => Some(0x90u8),
        0x00D1 => Some(0xA5u8),
        0x00D6 => Some(0x99u8),
        0x00DC => Some(0x9Au8),
        0x00DF => Some(0xE1u8),
        0x00E0 => Some(0x85u8),
        0x00E1 => Some(0xA0u8),
        0x00E2 => Some(0x83u8),
        0x00E4 => Some(0x84u8),
        0x00E5 => Some(0x86u8),
        0x00E6 => Some(0x91u8),
        0x00E7 => Some(0x87u8),
        0x00E8 => Some(0x8Au8),
        0x00E9 => Some(0x82u8),
        0x00EA => Some(0x88u8),
        0x00EB => Some(0x89u8),
        0x00EC => Some(0x8Du8),
        0x00ED => Some(0xA1u8),
        0x00EE => Some(0x8Cu8),
        0x00EF => Some(0x8Bu8),
        0x00F1 => Some(0xA4u8),
        0x00F2 => Some(0x95u8),
        0x00F3 => Some(0xA2u8),
        0x00F4 => Some(0x93u8),
        0x00F6 => Some(0x94u8),
        0x00F7 => Some(0xF6u8),
        0x00F9 => Some(0x97u8),
        0x00FA => Some(0xA3u8),
        0x00FB => Some(0x96u8),
        0x00FC => Some(0x81u8),
        0x00FF => Some(0x98u8),
        0x0192 => Some(0x9Fu8),
        0x0393 => Some(0xE2u8),
        0x0398 => Some(0xE9u8),
        0x03A3 => Some(0xE4u8),
        0x03A6 => Some(0xE8u8),
        0x03A9 => Some(0xEAu8),
        0x03B1 => Some(0xE0u8),
        0x03B4 => Some(0xEBu8),
        0x03B5 => Some(0xEEu8),
        0x03C0 => Some(0xE3u8),
        0x03C3 => Some(0xE5u8),
        0x03C4 => Some(0xE7u8),
        0x03C6 => Some(0xEDu8),
        0x207F => Some(0xFCu8),
        0x20A7 => Some(0x9Eu8),
        0x2219 => Some(0xF9u8),
        0x221A => Some(0xFBu8),
        0x221E => Some(0xECu8),
        0x2229 => Some(0xEFu8),
        0x2248 => Some(0xF7u8),
        0x2261 => Some(0xF0u8),
        0x2264 => Some(0xF3u8),
        0x2265 => Some(0xF2u8),
        0x2310 => Some(0xA9u8),
        0x2320 => Some(0xF4u8),
        0x2321 => Some(0xF5u8),
        0x2500 => Some(0xC4u8),
        0x2502 => Some(0xB3u8),
        0x250C => Some(0xDAu8),
        0x2510 => Some(0xBFu8),
        0x2514 => Some(0xC0u8),
        0x2518 => Some(0xD9u8),
        0x251C => Some(0xC3u8),
        0x2524 => Some(0xB4u8),
        0x252C => Some(0xC2u8),
        0x2534 => Some(0xC1u8),
        0x253C => Some(0xC5u8),
        0x2550 => Some(0xCDu8),
        0x2551 => Some(0xBAu8),
        0x2552 => Some(0xD5u8),
        0x2553 => Some(0xD6u8),
        0x2554 => Some(0xC9u8),
        0x2555 => Some(0xB8u8),
        0x2556 => Some(0xB7u8),
        0x2557 => Some(0xBBu8),
        0x2558 => Some(0xD4u8),
        0x2559 => Some(0xD3u8),
        0x255A => Some(0xC8u8),
        0x255B => Some(0xBEu8),
        0x255C => Some(0xBDu8),
        0x255D => Some(0xBCu8),
        0x255E => Some(0xC6u8),
        0x255F => Some(0xC7u8),
        0x2560 => Some(0xCCu8),
        0x2561 => Some(0xB5u8),
        0x2562 => Some(0xB6u8),
        0x2563 => Some(0xB9u8),
        0x2564 => Some(0xD1u8),
        0x2565 => Some(0xD2u8),
        0x2566 => Some(0xCBu8),
        0x2567 => Some(0xCFu8),
        0x2568 => Some(0xD0u8),
        0x2569 => Some(0xCAu8),
        0x256A => Some(0xD8u8),
        0x256B => Some(0xD7u8),
        0x256C => Some(0xCEu8),
        0x2580 => Some(0xDFu8),
        0x2584 => Some(0xDCu8),
        0x2588 => Some(0xDBu8),
        0x258C => Some(0xDDu8),
        0x2590 => Some(0xDEu8),
        0x2591 => Some(0xB0u8),
        0x2592 => Some(0xB1u8),
        0x2593 => Some(0xB2u8),
        0x25A0 => Some(0xFEu8),
        _ => None,
    }
}

fn cp437_lookup(cp: u32) -> (r: Option<u8>)
    ensures
        r == cp437_of_code(cp),
{
    match cp {
        0x00A0 => Some(0xFFu8),
        0x00A1 => Some(0xADu8),
        0x00A2 => Some(0x9Bu8),
        0x00A3 => Some(0x9Cu8),
        0x00A5 => Some(0x9Du8),
        0x00AA => Some(0xA6u8),
        0x00AB => Some(0xAEu8),
        0x00AC => Some(0xAAu8),
        0x00B0 => Some(0xF8u8),
        0x00B1 => Some(0xF1u8),
        0x00B2 => Some(0xFDu8),
        0x00B5 => Some(0xE6u8),
        0x00B7 => Some(0xFAu8),
        0x00BA => Some(0xA7u8),
        0x00BB => Some(0xAFu8),
        0x00BC => Some(0xACu8),
        0x00BD => Some(0xABu8),
        0x00BF => Some(0xA8u8),
        0x00C4 => Some(0x8Eu8),
        0x00C5 => Some(0x8Fu8),
        0x00C6 => Some(0x92u8),
        0x00C7 => Some(0x80u8),
        0x00C9 => Some(0x90u8),
        0x00D1 => Some(0xA5u8),
        0x00D6 => Some(0x99u8),
        0x00DC => Some(0x9Au8),
        0x00DF => Some(0xE1u8),
        0x00E0 => Some(0x85u8),
        0x00E1 => Some(0xA0u8),
        0x00E2 => Some(0x83u8),
        0x00E4 => Some(0x84u8),
        0x00E5 => Some(0x86u8),
        0x00E6 => Some(0x91u8),
        0x00E7 => Some(0x87u8),
        0x00E8 => Some(0x8Au8),
        0x00E9 => Some(0x82u8),
        0x00EA => Some(0x88u8),
        0x00EB => Some(0x89u8),
        0x00EC => Some(0x8Du8),
        0x00ED => Some(0xA1u8),
        0x00EE => Some(0x8Cu8),
        0x00EF => Some(0x8Bu8),
        0x00F1 => Some(0xA4u8),
        0x00F2 => Some(0x95u8),
        0x00F3 => Some(0xA2u8),
        0x00F4 => Some(0x93u8),
        0x00F6 => Some(0x94u8),
        0x00F7 => Some(0xF6u8),
        0x00F9 => Some(0x97u8),
        0x00FA => Some(0xA3u8),
        0x00FB => Some(0x96u8),
        0x00FC => Some(0x81u8),
        0x00FF => Some(0x98u8),
        0x0192 => Some(0x9Fu8),
        0x0393 => Some(0xE2u8),
        0x0398 => Some(0xE9u8),
        0x03A3 => Some(0xE4u8),
        0x03A6 => Some(0xE8u8),
        0x03A9 => Some(0xEAu8),
        0x03B1 => Some(0xE0u8),
        0x03B4 => Some(0xEBu8),
        0x03B5 => Some(0xEEu8),
        0x03C0 => Some(0xE3u8),
        0x03C3 => Some(0xE5u8),
        0x03C4 => Some(0xE7u8),
        0x03C6 => Some(0xEDu8),
        0x207F => Some(0xFCu8),
        0x20A7 => Some(0x9Eu8),
        0x2219 => Some(0xF9u8),
        0x221A => Some(0xFBu8),
        0x221E => Some(0xECu8),
        0x2229 => Some(0xEFu8),
        0x2248 => Some(0xF7u8),
        0x2261 => Some(0xF0u8),
        0x2264 => Some(0xF3u8),
        0x2265 => Some(0xF2u8),
        0x2310 => Some(0xA9u8),
        0x2320 => Some(0xF4u8),
        0x2321 => Some(0xF5u8),
        0x2500 => Some(0xC4u8),
        0x2502 => Some(0xB3u8),
        0x250C => Some(0xDAu8),
        0x2510 => Some(0xBFu8),
        0x2514 => Some(0xC0u8),
        0x2518 => Some(0xD9u8),
        0x251C => Some(0xC3u8),
        0x2524 => Some(0xB4u8),
        0x252C => Some(0xC2u8),
        0x2534 => Some(0xC1u8),
        0x253C => Some(0xC5u8),
        0x2550 => Some(0xCDu8),
        0x2551 => Some(0xBAu8),
        0x2552 => Some(0xD5u8),
        0x2553 => Some(0xD6u8),
        0x2554 => Some(0xC9u8),
        0x2555 => Some(0xB8u8),
        0x2556 => Some(0xB7u8),
        0x2557 => Some(0xBBu8),
        0x2558 => Some(0xD4u8),
        0x2559 => Some(0xD3u8),
        0x255A => Some(0xC8u8),
        0x255B => Some(0xBEu8),
        0x255C => Some(0xBDu8),
        0x255D => Some(0xBCu8),
        0x255E => Some(0xC6u8),
        0x255F => Some(0xC7u8),
        0x2560 => Some(0xCCu8),
        0x2561 => Some(0xB5u8),
        0x2562 => Some(0xB6u8),
        0x2563 => Some(0xB9u8),
        0x2564 => Some(0xD1u8),
        0x2565 => Some(0xD2u8),
        0x2566 => Some(0xCBu8),
        0x2567 => Some(0xCFu8),
        0x2568 => Some(0xD0u8),
        0x2569 => Some(0xCAu8),
        0x256A => Some(0xD8u8),
        0x256B => Some(0xD7u8),
        0x256C => Some(0xCEu8),
        0x2580 => Some(0xDFu8),
        0x2584 => Some(0xDCu8),
        0x2588 => Some(0xDBu8),
        0x258C => Some(0xDDu8),
        0x2590 => Some(0xDEu8),
        0x2591 => Some(0xB0u8),
        0x2592 => Some(0xB1u8),
        0x2593 => Some(0xB2u8),
        0x25A0 => Some(0xFEu8),
        _ => None,
    }
}

/// The code page 437 byte that shows character `c`: ASCII stands for itself.
pub open spec fn cp437_of(c: char) -> Option<u8> {
    if (c as u32) < 0x80 {
        Some(c as u8)
    } else if (c as u32) <= 0xffff {
        cp437_of_code(c as u32)
    } else {
        None
    }
}

/// The code page 437 byte that shows character `c`, if there is one.
pub fn unicode_to_cp437(c: char) -> (r: Option<u8>)
    ensures
        r == cp437_of(c),
{
    let cp = c as u32;
    if cp < 0x80 {
        return Some(cp as u8);
    }
    if cp > 0xffff {
        return None;
    }
    cp437_lookup(cp)
}

/// The text-mode screen: 25 rows of 80 cells, written at the bottom row and scrolled up.
pub struct Writer {
    column_position: usize,
    color_code: ColorCode,
    buffer: Vec<ScreenChar>,
}

/// The cell of row `row`, column `col` in a row-major screen.
pub open spec fn cell(row: int, col: int) -> int {
    row * BUFFER_WIDTH + col
}

impl Writer {
    pub closed spec fn screen(&self) -> Seq<ScreenChar> {
        self.buffer@
    }

    pub closed spec fn column(&self) -> usize {
        self.column_position
    }

    pub closed spec fn colors(&self) -> ColorCode {
        self.color_code
    }

    pub open spec fn wf(&self) -> bool {
        &&& self.screen().len() == BUFFER_HEIGHT * BUFFER_WIDTH
        &&& self.column() <= BUFFER_WIDTH
    }

    /// A writer over `buffer`, a screen's cells row by row, starting at column 0.
    pub fn new(color_code: ColorCode, buffer: Vec<ScreenChar>) -> (w: Writer)
        requires
            buffer@.len() == BUFFER_HEIGHT * BUFFER_WIDTH,
        ensures
            w.wf(),
            w.screen() == buffer@,
            w.column() == 0,
            w.colors() == color_code,
    {
        Writer { column_position: 0, color_code, buffer }
    }

    /// The cells of the screen, row by row.
    pub fn cells(&self) -> (r: &Vec<ScreenChar>)
        ensures
            r@ == self.screen(),
    {
        &self.buffer
    }

    /// Fills row `row` with blanks in the current colours.
    fn clear_row(&mut self, row: usize)
        requires
            old(self).wf(),
            row < BUFFER_HEIGHT,
        ensures
            final(self).wf(),
            final(self).column() == old(self).column(),
            final(self).colors() == old(self).colors(),
            forall|i: int| 0 <= i < final(self).screen().len() ==> #[trigger] final(self).screen()[i] == if cell(row as int, 0) <= i < cell(row as int, BUFFER_WIDTH as int) {
                ScreenChar { ascii_character: 0x20, color_code: old(self).colors() }
            } else {
                old(self).screen()[i]
            },
    {
        let blank = ScreenChar { ascii_character: 0x20u8, color_code: self.color_code };
        let mut col: usize = 0;
        while col < BUFFER_WIDTH
            invariant
                self.wf(),
                row < BUFFER_HEIGHT,
                0 <= col <= BUFFER_WIDTH,
                self.column() == old(self).column(),
                self.colors() == old(self).colors(),
                blank == (ScreenChar { ascii_character: 0x20, color_code: old(self).colors() }),
                forall|i: int| 0 <= i < self.screen().len() ==> #[trigger] self.screen()[i] == if cell(row as int, 0) <= i < cell(row as int, col as int) {
                    blank
                } else {
                    old(self).screen()[i]
                },
            decreases BUFFER_WIDTH - col,
        {
            self.buffer.set(row * BUFFER_WIDTH + col, blank);
            col = col + 1;
        }
    }

    /// Moves every row up by one, blanks the bottom row and returns to its start.
    fn new_line(&mut self)
        requires
            old(self).wf(),
        ensures
            final(self).wf(),
            final(self).column() == 0,
            final(self).colors() == old(self).colors(),
            final(self).screen() == scrolled(old(self).screen(), old(self).colors()),
            forall|r: int, c: int| 0 <= r < BUFFER_HEIGHT - 1 && 0 <= c < BUFFER_WIDTH ==> #[trigger] final(self).screen()[cell(r, c)]
                == old(self).screen()[cell(r + 1, c)],
            forall|c: int| 0 <= c < BUFFER_WIDTH ==> #[trigger] final(self).screen()[cell(BUFFER_HEIGHT - 1, c)]
                == (ScreenChar { ascii_character: 0x20, color_code: old(self).colors() }),
    {
        proof {
            lemma_scroll_moves_rows_up(self.screen(), self.colors());
        }
        let mut i: usize = BUFFER_WIDTH;
        while i < BUFFER_HEIGHT * BUFFER_WIDTH
            invariant
                self.wf(),
                BUFFER_WIDTH <= i <= BUFFER_HEIGHT * BUFFER_WIDTH,
                self.column() == old(self).column(),
                self.colors() == old(self).colors(),
                forall|k: int| 0 <= k < self.screen().len() ==> #[trigger] self.screen()[k] == if k < i - BUFFER_WIDTH {
                    old(self).screen()[k + BUFFER_WIDTH]
                } else {
                    old(self).screen()[k]
                },
            decreases BUFFER_HEIGHT * BUFFER_WIDTH - i,
        {
            let c = self.buffer[i];
            self.buffer.set(i - BUFFER_WIDTH, c);
            i = i + 1;
        }
        self.clear_row(BUFFER_HEIGHT - 1);
        self.column_position = 0;
        proof {
            assert(self.screen() =~= scrolled(old(self).screen(), old(self).colors()));
        }
    }

    /// Writes byte `byte` at the cursor, moving to a new line first when the row is full;
    /// a newline byte starts a new line.
    pub fn write_byte(&mut self, byte: u8)
        requires
            old(self).wf(),
        ensures
            final(self).wf(),
            final(self).colors() == old(self).colors(),
            (final(self).screen(), final(self).column()) == after_byte(old(self).screen(), old(self).column(), old(self).colors(), byte),
    {
        if byte == 0x0au8 {
            self.new_line();
        } else {
            if self.column_position >= BUFFER_WIDTH {
                self.new_line();
            }
            let row = BUFFER_HEIGHT - 1;
            let col = self.column_position;
            let color_code = self.color_code;
            self.buffer.set(row * BUFFER_WIDTH + col, ScreenChar { ascii_character: byte, color_code });
            self.column_position = self.column_position + 1;
        }
    }

    /// Writes the characters `chars` one by one, showing each by its code page 437 byte or,
    /// lacking one, by a block.
    pub fn write_string(&mut self, chars: &[char])
        requires
            old(self).wf(),
        ensures
            final(self).wf(),
            final(self).colors() == old(self).colors(),
            (final(self).screen(), final(self).column()) == after_chars(old(self).screen(), old(self).column(), old(self).colors(), chars@),
    {
        let mut i: usize = 0;
        while i < chars.len()
            invariant
                self.wf(),
                self.colors() == old(self).colors(),
                0 <= i <= chars@.len(),
                (self.screen(), self.column()) == after_chars(old(self).screen(), old(self).column(), old(self).colors(), chars@.subrange(0, i as int)),
            decreases chars@.len() - i,
        {
            let b = match unicode_to_cp437(chars[i]) {
                Some(b) => b,
                None => 0xfe,
            };
            proof {
                assert(chars@.subrange(0, i + 1).drop_last() =~= chars@.subrange(0, i as int));
            }
            self.write_byte(b);
            i = i + 1;
        }
        proof {
            assert(chars@.subrange(0, chars@.len() as int) =~= chars@);
        }
    }
}

/// The screen after every row moves up by one and the bottom row is blanked.
pub open spec fn scrolled(s: Seq<ScreenChar>, colors: ColorCode) -> Seq<ScreenChar> {
    Seq::new(s.len(), |k: int| if k < cell(BUFFER_HEIGHT - 1, 0) {
        s[k + BUFFER_WIDTH]
    } else {
        ScreenChar { ascii_character: 0x20, color_code: colors }
    })
}

/// Scrolling moves the screen up by one row: every row but the last, the top one included,
/// shows what the row below it showed, and the bottom row is blank in the current colours.
pub proof fn lemma_scroll_moves_rows_up(s: Seq<ScreenChar>, colors: ColorCode)
    requires
        s.len() == BUFFER_HEIGHT * BUFFER_WIDTH,
    ensures
        scrolled(s, colors).len() == s.len(),
        forall|r: int, c: int| 0 <= r < BUFFER_HEIGHT - 1 && 0 <= c < BUFFER_WIDTH ==> #[trigger] scrolled(s, colors)[cell(r, c)]
            == s[cell(r + 1, c)],
        forall|c: int| 0 <= c < BUFFER_WIDTH ==> #[trigger] scrolled(s, colors)[cell(BUFFER_HEIGHT - 1, c)]
            == (ScreenChar { ascii_character: 0x20, color_code: colors }),
{
    assert forall|r: int, c: int| 0 <= r < BUFFER_HEIGHT - 1 && 0 <= c < BUFFER_WIDTH implies #[trigger] scrolled(s, colors)[cell(r, c)]
        == s[cell(r + 1, c)] by {
        assert(cell(r, c) + BUFFER_WIDTH == cell(r + 1, c));
        assert(cell(r, c) < cell(BUFFER_HEIGHT - 1, 0));
    }
}

/// The screen and column after writing byte `b`.
pub open spec fn after_byte(s: Seq<ScreenChar>, col: usize, colors: ColorCode, b: u8) -> (Seq<ScreenChar>, usize) {
    if b == 0x0a {
        (scrolled(s, colors), 0)
    } else {
        let (s1, c1) = if col >= BUFFER_WIDTH { (scrolled(s, colors), 0usize) } else { (s, col) };
        (s1.update(cell(BUFFER_HEIGHT - 1, c1 as int), ScreenChar { ascii_character: b, color_code: colors }), (c1 + 1) as usize)
    }
}

/// Writing a byte: a newline moves every row up by one, blanks the bottom row and returns to
/// its start; any other byte goes to the current column of the bottom row, changing no other
/// cell, and advances the column, except that a full bottom row is first moved up as by a
/// newline so that the byte starts a fresh one.
pub proof fn lemma_write_byte(s: Seq<ScreenChar>, col: usize, colors: ColorCode, b: u8)
    requires
        s.len() == BUFFER_HEIGHT * BUFFER_WIDTH,
        col <= BUFFER_WIDTH,
    ensures
        ({
            let (s2, col2) = after_byte(s, col, colors, b);
            let blank = ScreenChar { ascii_character: 0x20, color_code: colors };
            let put = ScreenChar { ascii_character: b, color_code: colors };
            &&& s2.len() == s.len()
            &&& b == 0x0a ==> col2 == 0
                && (forall|r: int, c: int| 0 <= r < BUFFER_HEIGHT - 1 && 0 <= c < BUFFER_WIDTH ==> #[trigger] s2[cell(r, c)] == s[cell(r + 1, c)])
                && (forall|c: int| 0 <= c < BUFFER_WIDTH ==> #[trigger] s2[cell(BUFFER_HEIGHT - 1, c)] == blank)
            &&& b != 0x0a && col < BUFFER_WIDTH ==> col2 == col + 1
                && s2[cell(BUFFER_HEIGHT - 1, col as int)] == put
                && (forall|k: int| 0 <= k < s.len() && k != cell(BUFFER_HEIGHT - 1, col as int) ==> #[trigger] s2[k] == s[k])
            &&& b != 0x0a && col == BUFFER_WIDTH ==> col2 == 1
                && (forall|r: int, c: int| 0 <= r < BUFFER_HEIGHT - 1 && 0 <= c < BUFFER_WIDTH ==> #[trigger] s2[cell(r, c)] == s[cell(r + 1, c)])
                && s2[cell(BUFFER_HEIGHT - 1, 0)] == put
                && (forall|c: int| 1 <= c < BUFFER_WIDTH ==> #[trigger] s2[cell(BUFFER_HEIGHT - 1, c)] == blank)
        }),
{
    lemma_scroll_moves_rows_up(s, colors);
    let (s2, col2) = after_byte(s, col, colors, b);
    if b != 0x0a && col == BUFFER_WIDTH {
        let t = scrolled(s, colors);
        assert forall|r: int, c: int| 0 <= r < BUFFER_HEIGHT - 1 && 0 <= c < BUFFER_WIDTH implies #[trigger] s2[cell(r, c)] == s[cell(r + 1, c)] by {
            assert(s2[cell(r, c)] == t[cell(r, c)]);
        }
        assert forall|c: int| 1 <= c < BUFFER_WIDTH implies #[trigger] s2[cell(BUFFER_HEIGHT - 1, c)] == (ScreenChar { ascii_character: 0x20, color_code: colors }) by {
            assert(s2[cell(BUFFER_HEIGHT - 1, c)] == t[cell(BUFFER_HEIGHT - 1, c)]);
        }
    }
}

/// The byte a character is shown as: its code page 437 byte, or a block.
pub open spec fn shown_as(c: char) -> u8 {
    match cp437_of(c) {
        Some(b) => b,
        None => 0xfe,
    }
}

/// The screen and column after writing the characters `cs`.
pub open spec fn after_chars(s: Seq<ScreenChar>, col: usize, colors: ColorCode, cs: Seq<char>) -> (Seq<ScreenChar>, usize)
    decreases cs.len(),
{
    if cs.len() == 0 {
        (s, col)
    } else {
        let (s1, c1) = after_chars(s, col, colors, cs.drop_last());
        after_byte(s1, c1, colors, shown_as(cs.last()))
    }
}

} // verus!
