//! Text in the framebuffer, in an eight by eight bitmap font.
//!
//! A glyph is eight bytes, one per row from the top; bit `b` of a row, counted
//! from the least significant, is the pixel in column `b`. Set bits are drawn
//! white and clear bits black, so a glyph overwrites its whole square.

use vstd::prelude::*;
use crate::pixels::{Colour, Frame};

verus! {

/// The colour of set glyph bits.
pub const INK: Colour = (255, 255, 255);

/// The colour of clear glyph bits.
pub const PAPER: Colour = (0, 0, 0);

/// The rows of the glyph that the font holds for `c`: what
/// `font8x8::BASIC_UNICODE[c].byte_array()` returns.
pub uninterp spec fn basic_glyph(c: char) -> Seq<u8>;

/// The glyph of a character of the Basic Latin block, from the table
/// `font8x8::BASIC_UNICODE` through `FontUnicode::byte_array`. Believed of it,
/// not proved: the table has an entry for each of the 128 code points below
/// `U+0080`, indexed by code point, and the eight bytes handed back are a
/// function of the character alone.
#[verifier::external_body]
pub(crate) fn glyph_of(c: char) -> (rows: [u8; 8])
    requires
        (c as u32) < 128,
    ensures
        rows@ == basic_glyph(c),
{
    font8x8::BASIC_UNICODE[c as usize].byte_array()
}

/// Whether bit `bit` of a glyph row is set.
pub open spec fn spec_bit_set(bits: u8, bit: u8) -> bool {
    bits & (1u8 << bit) != 0
}

/// The colour of the pixel that bit `bit` of a glyph row stands for.
pub open spec fn spec_bit_colour(bits: u8, bit: u8) -> Colour {
    if spec_bit_set(bits, bit) {
        INK
    } else {
        PAPER
    }
}

/// Whether every character of `text` has a glyph in the font.
pub open spec fn has_glyphs(text: Seq<char>) -> bool {
    forall|i: int| 0 <= i < text.len() ==> (#[trigger] text[i] as u32) < 128
}

impl Frame {
    /// The frame after the first `count` pixels of a glyph row have been
    /// drawn from column `x` of row `y` rightwards.
    pub open spec fn with_bits(self, x: int, y: int, bits: u8, count: nat) -> Frame
        decreases count,
    {
        if count == 0 {
            self
        } else {
            self.with_bits(x, y, bits, (count - 1) as nat).draw_pixel(
                x + count - 1,
                y,
                spec_bit_colour(bits, (count - 1) as u8),
            )
        }
    }

    /// The frame after the first `count` rows of a glyph have been drawn with
    /// the glyph's top left corner at `(x, y)`.
    pub open spec fn with_rows(self, x: int, y: int, rows: Seq<u8>, count: nat) -> Frame
        decreases count,
    {
        if count == 0 {
            self
        } else {
            self.with_rows(x, y, rows, (count - 1) as nat).with_bits(
                x,
                y + count - 1,
                rows[count - 1],
                8,
            )
        }
    }

    /// The frame after the first `count` characters of `text` have been drawn
    /// side by side, the first with its top left corner at `(x, y)`.
    pub open spec fn with_text(self, x: int, y: int, text: Seq<char>, count: nat) -> Frame
        decreases count,
    {
        if count == 0 {
            self
        } else {
            self.with_text(x, y, text, (count - 1) as nat).with_rows(
                x + 8 * (count - 1),
                y,
                basic_glyph(text[count - 1]),
                8,
            )
        }
    }

    /// Drawing pixels of a glyph row changes neither width nor height.
    pub proof fn lemma_with_bits_size(self, x: int, y: int, bits: u8, count: nat)
        ensures
            self.with_bits(x, y, bits, count).width == self.width,
            self.with_bits(x, y, bits, count).height == self.height,
        decreases count,
    {
        if count > 0 {
            self.lemma_with_bits_size(x, y, bits, (count - 1) as nat);
        }
    }

    /// Drawing rows of a glyph changes neither width nor height.
    pub proof fn lemma_with_rows_size(self, x: int, y: int, rows: Seq<u8>, count: nat)
        ensures
            self.with_rows(x, y, rows, count).width == self.width,
            self.with_rows(x, y, rows, count).height == self.height,
        decreases count,
    {
        if count > 0 {
            self.lemma_with_rows_size(x, y, rows, (count - 1) as nat);
            self.with_rows(x, y, rows, (count - 1) as nat).lemma_with_bits_size(
                x,
                y + count - 1,
                rows[count - 1],
                8,
            );
        }
    }

    /// Drawing text changes neither width nor height.
    pub proof fn lemma_with_text_size(self, x: int, y: int, text: Seq<char>, count: nat)
        ensures
            self.with_text(x, y, text, count).width == self.width,
            self.with_text(x, y, text, count).height == self.height,
        decreases count,
    {
        if count > 0 {
            self.lemma_with_text_size(x, y, text, (count - 1) as nat);
            self.with_text(x, y, text, (count - 1) as nat).lemma_with_rows_size(
                x + 8 * (count - 1),
                y,
                basic_glyph(text[count - 1]),
                8,
            );
        }
    }

    /// A pixel above and to the left of one that can be written can be
    /// written too.
    pub proof fn lemma_holds_before(self, x: int, y: int, u: int, v: int)
        requires
            self.holds(x, y),
            0 <= u <= x,
            0 <= v <= y,
        ensures
            self.holds(u, v),
    {
        assert(v * self.width <= y * self.width) by (nonlinear_arith)
            requires
                v <= y,
                0 <= self.width,
        ;
    }

    /// Where the last pixel of a glyph can be written, the machine can count
    /// up to its column and its row.
    pub proof fn lemma_holds_fits(self, x: int, y: int)
        requires
            self.wf(),
            self.holds(x, y),
        ensures
            x <= usize::MAX,
            y <= usize::MAX,
    {
        let w = self.width as int;
        let h = self.height as int;
        assert(w > 0 && y < h && x < w * h) by (nonlinear_arith)
            requires
                0 <= x,
                0 <= y,
                y * w + x < w * h,
                0 <= w,
                0 <= h,
        ;
        assert(h <= w * h) by (nonlinear_arith)
            requires
                w > 0,
                h >= 0,
        ;
    }
}

/// The colour that drawing `text` from `(px, py)` gives the pixel at
/// `(x, y)`, or `None` where the text does not reach: the text covers eight
/// rows from `py` down and eight columns per character from `px` rightwards.
pub open spec fn text_pixel(text: Seq<char>, px: int, py: int, x: int, y: int) -> Option<Colour> {
    if px <= x < px + 8 * text.len() && py <= y < py + 8 {
        Some(spec_bit_colour(basic_glyph(text[(x - px) / 8])[y - py], ((x - px) % 8) as u8))
    } else {
        None
    }
}

impl Frame {
    /// Inside the frame, a glyph row colours the pixels it covers and no
    /// others.
    pub proof fn lemma_with_bits_pixel(self, px: int, py: int, bits: u8, count: nat, x: int, y: int)
        requires
            self.wf(),
            count <= 8,
            0 <= px,
            px + count <= self.width,
            0 <= py < self.height,
            0 <= x < self.width,
            0 <= y < self.height,
        ensures
            self.with_bits(px, py, bits, count).wf(),
            self.with_bits(px, py, bits, count).pixel(x, y) == if y == py && px <= x < px + count {
                spec_bit_colour(bits, (x - px) as u8)
            } else {
                self.pixel(x, y)
            },
        decreases count,
    {
        if count > 0 {
            let before = self.with_bits(px, py, bits, (count - 1) as nat);
            let colour = spec_bit_colour(bits, (count - 1) as u8);
            self.lemma_with_bits_pixel(px, py, bits, (count - 1) as nat, x, y);
            self.lemma_with_bits_size(px, py, bits, (count - 1) as nat);
            before.lemma_inside_holds(px + count - 1, py);
            before.lemma_inside_holds(x, y);
            before.lemma_draw_pixel_same(px + count - 1, py, colour);
            if !(x == px + count - 1 && y == py) {
                before.lemma_inside_apart(x, y, px + count - 1, py);
                before.lemma_draw_pixel_other(px + count - 1, py, colour, x, y);
            }
        }
    }

    /// Inside the frame, a glyph colours the pixels of its square and no
    /// others.
    pub proof fn lemma_with_rows_pixel(
        self,
        px: int,
        py: int,
        rows: Seq<u8>,
        count: nat,
        x: int,
        y: int,
    )
        requires
            self.wf(),
            count <= 8,
            0 <= px,
            px + 8 <= self.width,
            0 <= py,
            py + count <= self.height,
            0 <= x < self.width,
            0 <= y < self.height,
        ensures
            self.with_rows(px, py, rows, count).wf(),
            self.with_rows(px, py, rows, count).pixel(x, y) == if px <= x < px + 8 && py <= y < py
                + count {
                spec_bit_colour(rows[y - py], (x - px) as u8)
            } else {
                self.pixel(x, y)
            },
        decreases count,
    {
        if count > 0 {
            let before = self.with_rows(px, py, rows, (count - 1) as nat);
            self.lemma_with_rows_pixel(px, py, rows, (count - 1) as nat, x, y);
            self.lemma_with_rows_size(px, py, rows, (count - 1) as nat);
            before.lemma_with_bits_pixel(px, py + count - 1, rows[count - 1], 8, x, y);
        }
    }

    /// Text that fits inside the frame colours the pixels its glyphs cover,
    /// each from the bit that stands for it, and leaves every other pixel of
    /// the frame as it was.
    pub proof fn lemma_with_text_pixel(
        self,
        px: int,
        py: int,
        text: Seq<char>,
        count: nat,
        x: int,
        y: int,
    )
        requires
            self.wf(),
            count <= text.len(),
            0 <= px,
            px + 8 * count <= self.width,
            0 <= py,
            py + 8 <= self.height,
            0 <= x < self.width,
            0 <= y < self.height,
        ensures
            self.with_text(px, py, text, count).wf(),
            self.with_text(px, py, text, count).pixel(x, y) == match text_pixel(
                text.take(count as int),
                px,
                py,
                x,
                y,
            ) {
                Some(colour) => colour,
                None => self.pixel(x, y),
            },
        decreases count,
    {
        if count > 0 {
            let before = self.with_text(px, py, text, (count - 1) as nat);
            self.lemma_with_text_pixel(px, py, text, (count - 1) as nat, x, y);
            self.lemma_with_text_size(px, py, text, (count - 1) as nat);
            before.lemma_with_rows_pixel(
                px + 8 * (count - 1),
                py,
                basic_glyph(text[count - 1]),
                8,
                x,
                y,
            );
            let shift = x - px;
            if px <= x < px + 8 * count && py <= y < py + 8 {
                if x >= px + 8 * (count - 1) {
                    assert(shift / 8 == count - 1 && shift % 8 == shift - 8 * (count - 1))
                        by (nonlinear_arith)
                        requires
                            8 * (count - 1) <= shift < 8 * count,
                    ;
                } else {
                    assert(0 <= shift / 8 < count - 1) by (nonlinear_arith)
                        requires
                            0 <= shift < 8 * (count - 1),
                    ;
                }
            }
        }
    }
}

/// What `draw_text` shows for text that fits inside the frame: each pixel
/// under the text takes the colour of its glyph bit, and every other pixel of
/// the frame keeps its colour.
pub proof fn lemma_drawn_text(frame: Frame, px: int, py: int, text: Seq<char>, x: int, y: int)
    requires
        frame.wf(),
        0 <= px,
        px + 8 * text.len() <= frame.width,
        0 <= py,
        py + 8 <= frame.height,
        0 <= x < frame.width,
        0 <= y < frame.height,
    ensures
        frame.with_text(px, py, text, text.len()).pixel(x, y) == match text_pixel(
            text,
            px,
            py,
            x,
            y,
        ) {
            Some(colour) => colour,
            None => frame.pixel(x, y),
        },
{
    frame.lemma_with_text_pixel(px, py, text, text.len(), x, y);
    assert(text.take(text.len() as int) =~= text);
}

/// Whether bit `bit` of a glyph row is set.
#[verifier::when_used_as_spec(spec_bit_set)]
pub fn bit_set(bits: u8, bit: u8) -> (set: bool)
    requires
        bit < 8,
    ensures
        set == spec_bit_set(bits, bit),
{
    bits & (1u8 << bit) != 0
}

} // verus!
