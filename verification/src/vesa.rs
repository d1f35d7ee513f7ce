use vstd::prelude::*;

use crate::geometry::{Point, Rect};

verus! {

/// The VESA BIOS description of the graphics mode the boot loader set.
#[derive(Clone, Copy, Debug)]
pub struct ModeInfoBlock {
    pub mode_attributes: u16,
    pub win_a_attributes: u8,
    pub win_b_attributes: u8,
    pub win_granularity: u16,
    pub win_size: u16,
    pub win_a_segment: u16,
    pub win_b_segment: u16,
    pub win_func_ptr: u32,
    pub bytes_per_scan_line: u16,
    pub x_resolution: u16,
    pub y_resolution: u16,
    pub x_char_size: u8,
    pub y_char_size: u8,
    pub number_of_planes: u8,
    pub bits_per_pixel: u8,
    pub number_of_banks: u8,
    pub memory_model: u8,
    pub bank_size: u8,
    pub number_of_image_pages: u8,
    pub reserved0: u8,
    pub red_mask_size: u8,
    pub red_field_position: u8,
    pub green_mask_size: u8,
    pub green_field_position: u8,
    pub blue_mask_size: u8,
    pub blue_field_position: u8,
    pub rsvd_mask_size: u8,
    pub rsvd_field_position: u8,
    pub direct_color_mode_info: u8,
    pub phys_base_ptr: u32,
    pub reserved1: u32,
    pub reserved2: u16,
    pub lin_bytes_per_scan_line: u16,
    pub bnk_number_of_image_pages: u8,
    pub lin_number_of_image_pages: u8,
    pub lin_red_mask_size: u8,
    pub lin_red_field_position: u8,
    pub lin_green_mask_size: u8,
    pub lin_green_field_position: u8,
    pub lin_blue_mask_size: u8,
    pub lin_blue_field_position: u8,
    pub lin_rsvd_mask_size: u8,
    pub lin_rsvd_field_position: u8,
    pub max_pixel_clock: u32,
    pub reserved3: [u8; 190],
}

impl ModeInfoBlock {
    /// The mode has 32-bit pixels with 8-bit red, green and blue channels at bits 16, 8 and 0,
    /// and scan lines made of whole pixels: the only layout the kernel draws to.
    pub open spec fn spec_supported(&self) -> bool {
        &&& self.red_field_position == 16
        &&& self.green_field_position == 8
        &&& self.blue_field_position == 0
        &&& self.bits_per_pixel == 32
        &&& self.red_mask_size == 8
        &&& self.green_mask_size == 8
        &&& self.blue_mask_size == 8
        &&& self.bytes_per_scan_line % 4 == 0
    }

    /// Whether the kernel can draw to this mode.
    pub fn supported(&self) -> (r: bool)
        ensures
            r == self.spec_supported(),
    {
        let aligned = self.bytes_per_scan_line & 3 == 0;
        proof {
            let b = self.bytes_per_scan_line;
            assert((b & 3 == 0) == (b % 4 == 0)) by (bit_vector);
        }
        self.red_field_position == 16 && self.green_field_position == 8 && self.blue_field_position == 0
            && self.bits_per_pixel == 32 && self.red_mask_size == 8 && self.green_mask_size == 8
            && self.blue_mask_size == 8 && aligned
    }

    /// The screen the mode shows: from the origin to the resolution.
    pub fn screen_rect(&self) -> (r: Rect)
        ensures
            r == (Rect { tl: Point { x: 0, y: 0 }, br: Point { x: self.x_resolution as i32, y: self.y_resolution as i32 } }),
    {
        Rect { tl: Point { x: 0, y: 0 }, br: Point { x: self.x_resolution as i32, y: self.y_resolution as i32 } }
    }

    /// The distance between scan lines, in pixels.
    pub fn stride(&self) -> (s: usize)
        ensures
            s == self.bytes_per_scan_line / 4,
    {
        self.bytes_per_scan_line as usize / 4
    }
}

/// A glyph row of the font is 8 pixels, most significant bit first; a glyph is 14 rows.
pub const GLYPH_ROWS: usize = 14;

/// What a text writer on a pixel screen has to do.
#[derive(Clone, Copy, Debug, PartialEq, Eq, Structural)]
pub enum TextAction {
    /// Draw glyph `ch` with its top left corner at `(x, y)`.
    Render { x: u32, y: u32, ch: u8 },
    /// Move the screen up by `lines` pixels.
    Scroll { lines: u32 },
}

/// A pixel screen drawn with 8 by 16 glyphs.
pub struct VgaRenderer {
    pub screen_width: u32,
    pub screen_height: u32,
    /// Bytes from one scan line to the next.
    pub stride: usize,
}

/// Glyph pixel `(i, j)` is lit: it lies in the glyph's 14 rows (or below them, continued from
/// the last row, for the box-drawing characters 0xb0 to 0xdf) and its bit is set.
pub open spec fn glyph_lit(font: Seq<u8>, ch: u8, i: int, j: int) -> bool {
    let row = if j < 13 { j } else { 13 };
    let bits = font[GLYPH_ROWS * ch + row];
    (j < 14 || (0xb0 <= ch && ch <= 0xdf)) && (bits >> ((7 - i) as u8)) & 1 != 0
}

/// The writes that draw glyph `ch` at `(x, y)`, for the glyph rows before `j` and, in row `j`,
/// the columns before `i`: byte offset into the frame buffer and pixel value, for the pixels on
/// the screen.
pub open spec fn glyph_writes(r: VgaRenderer, font: Seq<u8>, x: u32, y: u32, ch: u8, j: int, i: int) -> Seq<(usize, u32)>
    decreases j, i,
{
    if j <= 0 && i <= 0 {
        seq![]
    } else if i <= 0 {
        glyph_writes(r, font, x, y, ch, j - 1, 8)
    } else {
        let prev = glyph_writes(r, font, x, y, ch, j, i - 1);
        let px = x + i - 1;
        let py = y + j;
        if px < r.screen_width && py < r.screen_height {
            prev.push(((r.stride * py + 4 * px) as usize, if glyph_lit(font, ch, i - 1, j) { 0xffffffu32 } else { 0u32 }))
        } else {
            prev
        }
    }
}

impl VgaRenderer {
    /// The pixel writes that draw glyph `ch` of `font` with its top left corner at
    /// `(x_pos, y_pos)`: white where the glyph is lit, black elsewhere, clipped to the screen,
    /// row by row.
    pub fn render_char(&self, font: &[u8], x_pos: u32, y_pos: u32, ch: u8) -> (writes: Vec<(usize, u32)>)
        requires
            font@.len() >= GLYPH_ROWS * 256,
            x_pos + 8 <= u32::MAX,
            y_pos + 16 <= u32::MAX,
            self.stride * (self.screen_height as int) + 4 * self.screen_width <= usize::MAX,
        ensures
            writes@ == glyph_writes(*self, font@, x_pos, y_pos, ch, 16, 0),
    {
        let base = 14 * ch as usize;
        let mut out: Vec<(usize, u32)> = Vec::new();
        let mut j: u32 = 0;
        while j < 16
            invariant
                font@.len() >= GLYPH_ROWS * 256,
                base == GLYPH_ROWS * ch,
                x_pos + 8 <= u32::MAX,
                y_pos + 16 <= u32::MAX,
                self.stride * (self.screen_height as int) + 4 * self.screen_width <= usize::MAX,
                0 <= j <= 16,
                out@ == glyph_writes(*self, font@, x_pos, y_pos, ch, j as int, 0),
            decreases 16 - j,
        {
            let mut i: u32 = 0;
            while i < 8
                invariant
                    font@.len() >= GLYPH_ROWS * 256,
                    base == GLYPH_ROWS * ch,
                    x_pos + 8 <= u32::MAX,
                    y_pos + 16 <= u32::MAX,
                    self.stride * (self.screen_height as int) + 4 * self.screen_width <= usize::MAX,
                    0 <= j < 16,
                    0 <= i <= 8,
                    out@ == if i == 0 {
                        glyph_writes(*self, font@, x_pos, y_pos, ch, j as int, 0)
                    } else {
                        glyph_writes(*self, font@, x_pos, y_pos, ch, j as int, i as int)
                    },
                decreases 8 - i,
            {
                if x_pos + i < self.screen_width && y_pos + j < self.screen_height {
                    let row = if j < 13 { j } else { 13 };
                    let bits = font[base + row as usize];
                    let box_drawing = ch >= 0xb0 && ch <= 0xdf;
                    let bit = (bits >> ((7 - i) as u8)) & 1 != 0;
                    let value: u32 = if (j < 14 || box_drawing) && bit { 0xffffff } else { 0 };
                    proof {
                        assert(self.stride * ((y_pos + j) as int) <= self.stride * (self.screen_height as int)) by (nonlinear_arith)
                            requires
                                y_pos + j < self.screen_height,
                        ;
                    }
                    let offset = self.stride * (y_pos + j) as usize + 4 * (x_pos + i) as usize;
                    out.push((offset, value));
                }
                proof {
                    if i == 0 {
                        assert(glyph_writes(*self, font@, x_pos, y_pos, ch, j as int, 0) == glyph_writes(
                            *self,
                            font@,
                            x_pos,
                            y_pos,
                            ch,
                            j as int,
                            0,
                        ));
                    }
                }
                i = i + 1;
            }
            proof {
                assert(glyph_writes(*self, font@, x_pos, y_pos, ch, j + 1, 0) == glyph_writes(
                    *self,
                    font@,
                    x_pos,
                    y_pos,
                    ch,
                    j as int,
                    8,
                ));
            }
            j = j + 1;
        }
        out
    }
}

/// Where the next glyph of a pixel text screen goes.
pub struct TextCursor {
    pub x_pos: u32,
    pub y_pos: u32,
}

impl TextCursor {
    /// Writes byte `b` on a screen of `width` by `height` pixels: a newline moves to the start
    /// of the next line, any other byte is drawn and the cursor advances, wrapping at the right
    /// edge; past the bottom the screen scrolls up one line.
    pub fn write_byte(&mut self, b: u8, width: u32, height: u32) -> (actions: Vec<TextAction>)
        requires
            old(self).x_pos + 8 <= u32::MAX,
            old(self).y_pos + 16 <= u32::MAX,
            old(self).y_pos < height,
        ensures
            ({
                let (x1, y1) = if b == 0x0a {
                    (0u32, (old(self).y_pos + 16) as u32)
                } else if old(self).x_pos + 8 >= width {
                    (0u32, (old(self).y_pos + 16) as u32)
                } else {
                    ((old(self).x_pos + 8) as u32, old(self).y_pos)
                };
                let drawn = if b == 0x0a {
                    seq![]
                } else {
                    seq![TextAction::Render { x: old(self).x_pos, y: old(self).y_pos, ch: b }]
                };
                &&& final(self).x_pos == x1
                &&& if y1 >= height {
                    &&& final(self).y_pos == y1 - 16
                    &&& actions@ == drawn.push(TextAction::Scroll { lines: 16 })
                } else {
                    &&& final(self).y_pos == y1
                    &&& actions@ == drawn
                }
            }),
    {
        let mut actions: Vec<TextAction> = Vec::new();
        if b == 0x0a {
            self.y_pos = self.y_pos + 16;
            self.x_pos = 0;
        } else {
            actions.push(TextAction::Render { x: self.x_pos, y: self.y_pos, ch: b });
            self.x_pos = self.x_pos + 8;
            if self.x_pos >= width {
                self.x_pos = 0;
                self.y_pos = self.y_pos + 16;
            }
        }
        if self.y_pos >= height {
            actions.push(TextAction::Scroll { lines: 16 });
            self.y_pos = self.y_pos - 16;
        }
        actions
    }
}

} // verus!
