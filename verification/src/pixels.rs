//! The framebuffer: a rectangle of RGB pixels in one flat byte array, rows
//! from the top, three bytes to a pixel.

use vstd::prelude::*;
use crate::text::{bit_set, glyph_of, has_glyphs, INK, PAPER};

verus! {

/// Bytes that one pixel takes in the buffer.
pub const BYTES_PER_PIXEL: usize = 3;

/// A colour as red, green and blue.
pub type Colour = (u8, u8, u8);

/// A colour packed into one word: red in bits 16 to 23, green in bits 8 to
/// 15, blue in bits 0 to 7, the top byte clear.
pub open spec fn spec_pack(colour: Colour) -> u32 {
    (colour.0 as u32) << 16 | (colour.1 as u32) << 8 | (colour.2 as u32)
}

/// A colour packed into one word: red in bits 16 to 23, green in bits 8 to
/// 15, blue in bits 0 to 7, the top byte clear.
#[verifier::when_used_as_spec(spec_pack)]
pub fn pack(colour: Colour) -> (word: u32)
    ensures
        word == spec_pack(colour),
{
    (colour.0 as u32) << 16 | (colour.1 as u32) << 8 | (colour.2 as u32)
}

/// The mathematical content of a framebuffer.
pub struct Frame {
    pub width: nat,
    pub height: nat,
    pub bytes: Seq<u8>,
}

impl Frame {
    /// There are exactly three bytes per pixel, and both a row and the whole
    /// buffer can be indexed by a machine word.
    pub open spec fn wf(self) -> bool {
        &&& self.bytes.len() == self.width * self.height * 3
        &&& self.width * self.height * 3 <= usize::MAX
        &&& self.width * 3 <= usize::MAX
    }

    /// Bytes in one row of pixels.
    pub open spec fn pitch(self) -> int {
        self.width as int * 3
    }

    /// Index of the first byte of the pixel at column `x` of row `y`.
    pub open spec fn offset_of(self, x: int, y: int) -> int {
        y * self.pitch() + x * 3
    }

    /// Whether writing the pixel at `(x, y)` stays inside the buffer. Every
    /// pixel of the frame qualifies; so does a column past the right edge as
    /// long as it runs on into a later row of the frame.
    pub open spec fn holds(self, x: int, y: int) -> bool {
        0 <= x && 0 <= y && y * self.width + x < self.width * self.height
    }

    /// The colour stored for the pixel at `(x, y)`.
    pub open spec fn pixel(self, x: int, y: int) -> Colour {
        let at = self.offset_of(x, y);
        (self.bytes[at], self.bytes[at + 1], self.bytes[at + 2])
    }

    /// The colour of pixel number `index`, counting row after row.
    pub open spec fn pixel_at(self, index: int) -> Colour {
        (self.bytes[3 * index], self.bytes[3 * index + 1], self.bytes[3 * index + 2])
    }

    /// The frame with the pixel at `(x, y)` set to `colour`.
    pub open spec fn draw_pixel(self, x: int, y: int, colour: Colour) -> Frame {
        let at = self.offset_of(x, y);
        Frame {
            bytes: self.bytes.update(at, colour.0).update(at + 1, colour.1).update(
                at + 2,
                colour.2,
            ),
            ..self
        }
    }

    /// The channel of `colour` that byte number `index` of a buffer holds.
    pub open spec fn channel(colour: Colour, index: int) -> u8 {
        if index % 3 == 0 {
            colour.0
        } else if index % 3 == 1 {
            colour.1
        } else {
            colour.2
        }
    }

    /// The frame of the same size with every pixel set to `colour`.
    pub open spec fn filled(self, colour: Colour) -> Frame {
        Frame { bytes: Seq::new(self.bytes.len(), |i: int| Self::channel(colour, i)), ..self }
    }

    /// The all-black frame of the given size.
    pub open spec fn blank(width: nat, height: nat) -> Frame {
        Frame { width, height, bytes: Seq::new(width * height * 3, |i: int| 0u8) }
    }

    /// A pixel that can be written has its three bytes inside the buffer.
    pub proof fn lemma_offset_in_range(self, x: int, y: int)
        requires
            self.wf(),
            self.holds(x, y),
        ensures
            0 <= self.offset_of(x, y),
            self.offset_of(x, y) + 3 <= self.bytes.len(),
            self.offset_of(x, y) == 3 * (y * self.width + x),
            0 <= y * self.pitch() <= self.offset_of(x, y),
            0 <= y * self.width,
    {
        let w = self.width as int;
        let h = self.height as int;
        assert(y * (w * 3) + x * 3 == 3 * (y * w + x)) by (nonlinear_arith);
        assert(y * w >= 0 && y * (w * 3) >= 0) by (nonlinear_arith)
            requires
                0 <= y,
                0 <= w,
        ;
        assert(3 * (y * w + x) + 3 <= w * h * 3) by (nonlinear_arith)
            requires
                y * w + x < w * h,
        ;
    }

    /// Every pixel inside the frame can be written.
    pub proof fn lemma_inside_holds(self, x: int, y: int)
        requires
            0 <= x < self.width,
            0 <= y < self.height,
        ensures
            self.holds(x, y),
    {
        let w = self.width as int;
        let h = self.height as int;
        assert(y * w + x < w * h) by (nonlinear_arith)
            requires
                0 <= x < w,
                0 <= y < h,
        ;
    }

    /// Two different pixels inside the frame are stored at different places.
    pub proof fn lemma_inside_apart(self, x: int, y: int, u: int, v: int)
        requires
            0 <= x < self.width,
            0 <= u < self.width,
            0 <= y,
            0 <= v,
            (x, y) != (u, v),
        ensures
            y * self.width + x != v * self.width + u,
    {
        let w = self.width as int;
        assert(y * w + x != v * w + u) by (nonlinear_arith)
            requires
                0 <= x < w,
                0 <= u < w,
                0 <= y,
                0 <= v,
                !(x == u && y == v),
        ;
    }

    /// Two writable pixels at different places in the buffer have different
    /// coordinates in it, three bytes or more apart.
    pub proof fn lemma_offsets_apart(self, x: int, y: int, u: int, v: int)
        requires
            y * self.width + x != v * self.width + u,
        ensures
            self.offset_of(x, y) + 3 <= self.offset_of(u, v) || self.offset_of(u, v) + 3
                <= self.offset_of(x, y),
    {
        let w = self.width as int;
        assert(y * (w * 3) + x * 3 == 3 * (y * w + x)) by (nonlinear_arith);
        assert(v * (w * 3) + u * 3 == 3 * (v * w + u)) by (nonlinear_arith);
    }

    /// A pixel reads back as the colour it was just given, and the frame
    /// stays well formed.
    pub proof fn lemma_draw_pixel_same(self, x: int, y: int, colour: Colour)
        requires
            self.wf(),
            self.holds(x, y),
        ensures
            self.draw_pixel(x, y, colour).wf(),
            self.draw_pixel(x, y, colour).pixel(x, y) == colour,
    {
        self.lemma_offset_in_range(x, y);
    }

    /// Writing one pixel leaves every pixel stored elsewhere as it was.
    pub proof fn lemma_draw_pixel_other(self, x: int, y: int, colour: Colour, u: int, v: int)
        requires
            self.wf(),
            self.holds(x, y),
            self.holds(u, v),
            y * self.width + x != v * self.width + u,
        ensures
            self.draw_pixel(x, y, colour).pixel(u, v) == self.pixel(u, v),
    {
        self.lemma_offset_in_range(x, y);
        self.lemma_offset_in_range(u, v);
        self.lemma_offsets_apart(x, y, u, v);
    }

    /// After a fill every pixel of the frame has the fill colour.
    pub proof fn lemma_filled_pixel(self, colour: Colour, x: int, y: int)
        requires
            self.wf(),
            self.holds(x, y),
        ensures
            self.filled(colour).wf(),
            self.filled(colour).pixel(x, y) == colour,
    {
        self.lemma_offset_in_range(x, y);
        let at = self.offset_of(x, y);
        assert(at % 3 == 0 && (at + 1) % 3 == 1 && (at + 2) % 3 == 2) by (nonlinear_arith)
            requires
                at == 3 * (y * self.width + x),
        ;
    }
}

/// All of a byte vector as a mutable slice, through `Vec::as_mut_slice`.
/// Believed of it, not proved: the slice starts out holding the vector's
/// bytes, what is written through the slice is what the vector holds
/// afterwards, and the vector is as long afterwards as before, a slice having
/// no way to grow or shrink what it borrows. The call does not panic.
#[verifier::external_body]
fn whole_of(buffer: &mut Vec<u8>) -> (bytes: &mut [u8])
    ensures
        bytes@ == old(buffer)@,
        final(bytes)@ == final(buffer)@,
        final(buffer)@.len() == old(buffer)@.len(),
    no_unwind
{
    buffer.as_mut_slice()
}

/// A framebuffer of RGB pixels.
pub struct Pixels {
    buffer: Vec<u8>,
    width: usize,
    height: usize,
}

impl View for Pixels {
    type V = Frame;

    closed spec fn view(&self) -> Frame {
        Frame { width: self.width as nat, height: self.height as nat, bytes: self.buffer@ }
    }
}

impl Clone for Pixels {
    /// A framebuffer of the same size holding the same pixels.
    fn clone(&self) -> (copy: Self)
        ensures
            copy@ == self@,
    {
        proof {
            use_type_invariant(self);
        }
        let buffer = self.buffer.clone();
        assert(buffer@ =~= self.buffer@);
        Pixels { buffer, width: self.width, height: self.height }
    }
}

impl Pixels {
    #[verifier::type_invariant]
    spec fn inv(self) -> bool {
        &&& self.width * 3 <= usize::MAX
        &&& self.buffer.len() == self.width * self.height * 3
    }

    /// An all-black framebuffer of `width` by `height` pixels.
    pub fn new(width: usize, height: usize) -> (pixels: Pixels)
        requires
            width * 3 <= usize::MAX,
            width * height * 3 <= usize::MAX,
        ensures
            pixels@ == Frame::blank(width as nat, height as nat),
            pixels@.wf(),
    {
        assert(width * height <= width * height * 3) by (nonlinear_arith);
        let mut buffer: Vec<u8> = Vec::new();
        buffer.resize(width * height * BYTES_PER_PIXEL, 0);
        assert(buffer@ =~= Seq::new((width * height * 3) as nat, |i: int| 0u8));
        Pixels { buffer, width, height }
    }

    /// Sets every pixel to `colour`.
    pub fn fill(&mut self, colour: Colour)
        ensures
            final(self)@ == old(self)@.filled(colour),
            final(self)@.wf(),
    {
        proof {
            use_type_invariant(&*self);
        }
        let len = self.buffer.len();
        let mut i: usize = 0;
        while i < len
            invariant
                i <= len,
                i % 3 == 0,
                len == self.buffer.len(),
                len == self.width * self.height * 3,
                self.width == old(self).width,
                self.height == old(self).height,
                self.width * 3 <= usize::MAX,
                forall|j: int| 0 <= j < i ==> self.buffer[j] == Frame::channel(colour, j),
            decreases len - i,
        {
            assert(i + 3 <= len) by (nonlinear_arith)
                requires
                    i < len,
                    i % 3 == 0,
                    len == self.width * self.height * 3,
            ;
            self.buffer[i] = colour.0;
            self.buffer[i + 1] = colour.1;
            self.buffer[i + 2] = colour.2;
            i = i + 3;
        }
        assert(self.buffer@ =~= old(self)@.filled(colour).bytes);
    }

    /// Sets the pixel at `position`, given as column and row, to `colour`.
    pub fn draw_pixel(&mut self, position: (usize, usize), colour: Colour)
        requires
            old(self)@.holds(position.0 as int, position.1 as int),
        ensures
            final(self)@ == old(self)@.draw_pixel(position.0 as int, position.1 as int, colour),
            final(self)@.wf(),
    {
        proof {
            use_type_invariant(&*self);
            self@.lemma_offset_in_range(position.0 as int, position.1 as int);
        }
        let offset = self.offset_of(position.0, position.1);
        self.buffer[offset] = colour.0;
        self.buffer[offset + 1] = colour.1;
        self.buffer[offset + 2] = colour.2;
    }

    /// Changes the size to `new_width` by `new_height` pixels, all black.
    pub fn resize(&mut self, new_width: usize, new_height: usize)
        requires
            new_width * 3 <= usize::MAX,
            new_width * new_height * 3 <= usize::MAX,
        ensures
            final(self)@ == Frame::blank(new_width as nat, new_height as nat),
            final(self)@.wf(),
    {
        assert(new_width * new_height <= new_width * new_height * 3) by (nonlinear_arith);
        let mut buffer: Vec<u8> = Vec::new();
        buffer.resize(new_width * new_height * BYTES_PER_PIXEL, 0);
        assert(buffer@ =~= Seq::new((new_width * new_height * 3) as nat, |i: int| 0u8));
        *self = Pixels { buffer, width: new_width, height: new_height };
    }

    /// Pixels in a row.
    pub fn width(&self) -> (width: usize)
        ensures
            width == self@.width,
            self@.wf(),
    {
        proof {
            use_type_invariant(self);
        }
        self.width
    }

    /// Rows in the frame.
    pub fn height(&self) -> (height: usize)
        ensures
            height == self@.height,
            self@.wf(),
    {
        proof {
            use_type_invariant(self);
        }
        self.height
    }

    /// Bytes in a row.
    pub fn pitch(&self) -> (pitch: usize)
        ensures
            pitch == self@.pitch(),
    {
        proof {
            use_type_invariant(self);
        }
        self.width * BYTES_PER_PIXEL
    }

    /// The buffer, row after row, three bytes to a pixel.
    pub fn as_bytes(&self) -> (bytes: &[u8])
        ensures
            bytes@ == self@.bytes,
            self@.wf(),
    {
        proof {
            use_type_invariant(self);
        }
        self.buffer.as_slice()
    }

    /// The pixels as packed words, one per pixel, row after row.
    pub fn packed(&self) -> (words: Vec<u32>)
        ensures
            words@.len() == self@.width * self@.height,
            forall|i: int|
                0 <= i < words@.len() ==> #[trigger] words@[i] == spec_pack(self@.pixel_at(i)),
    {
        proof {
            use_type_invariant(self);
        }
        let count = self.buffer.len() / BYTES_PER_PIXEL;
        let mut words: Vec<u32> = Vec::new();
        let mut i: usize = 0;
        while i < count
            invariant
                i <= count,
                count * 3 == self.buffer.len(),
                count == self.width * self.height,
                words@.len() == i,
                forall|j: int| 0 <= j < i ==> #[trigger] words@[j] == spec_pack(self@.pixel_at(j)),
            decreases count - i,
        {
            let colour = (self.buffer[3 * i], self.buffer[3 * i + 1], self.buffer[3 * i + 2]);
            words.push(pack(colour));
            i = i + 1;
        }
        words
    }

    /// The buffer, open for writing; its length is fixed.
    pub fn as_bytes_mut(&mut self) -> (bytes: &mut [u8])
        ensures
            bytes@ == old(self)@.bytes,
            final(bytes)@.len() == bytes@.len(),
            final(self)@ == (Frame { bytes: final(bytes)@, ..old(self)@ }),
    {
        proof {
            use_type_invariant(&*self);
        }
        whole_of(&mut self.buffer)
    }

    /// Index of the first byte of the pixel at column `x` of row `y`.
    pub fn offset_of(&self, x: usize, y: usize) -> (offset: usize)
        requires
            self@.offset_of(x as int, y as int) <= usize::MAX,
        ensures
            offset == self@.offset_of(x as int, y as int),
    {
        proof {
            use_type_invariant(self);
            assert(y * (self.width * 3) >= 0 && x * 3 >= 0) by (nonlinear_arith);
        }
        y * self.pitch() + x * BYTES_PER_PIXEL
    }

    /// Draws one glyph with its top left corner at `position`: eight rows of
    /// eight pixels, white where the row's bit is set and black where it is
    /// clear. The glyph's last pixel, seven columns and seven rows on from
    /// `position`, must be writable; then all of them are.
    pub fn draw_glyph(&mut self, position: (usize, usize), rows: &[u8; 8])
        requires
            old(self)@.holds(position.0 + 7, position.1 + 7),
        ensures
            final(self)@ == old(self)@.with_rows(position.0 as int, position.1 as int, rows@, 8),
            final(self)@.wf(),
    {
        proof {
            use_type_invariant(&*self);
            self@.lemma_holds_fits(position.0 + 7, position.1 + 7);
        }
        let mut row: usize = 0;
        while row < 8
            invariant
                row <= 8,
                self@.wf(),
                self@.width == old(self)@.width,
                self@.height == old(self)@.height,
                old(self)@.holds(position.0 + 7, position.1 + 7),
                position.0 + 7 <= usize::MAX,
                position.1 + 7 <= usize::MAX,
                self@ == old(self)@.with_rows(
                    position.0 as int,
                    position.1 as int,
                    rows@,
                    row as nat,
                ),
            decreases 8 - row,
        {
            let bits = rows[row];
            let ghost before_row = self@;
            let mut bit: u8 = 0;
            while bit < 8
                invariant
                    bit <= 8,
                    row < 8,
                    self@.wf(),
                    before_row.wf(),
                    self@.width == old(self)@.width,
                    self@.height == old(self)@.height,
                    old(self)@.holds(position.0 + 7, position.1 + 7),
                    position.0 + 7 <= usize::MAX,
                    position.1 + 7 <= usize::MAX,
                    self@ == before_row.with_bits(
                        position.0 as int,
                        position.1 + row,
                        bits,
                        bit as nat,
                    ),
                decreases 8 - bit,
            {
                proof {
                    old(self)@.lemma_holds_before(
                        position.0 + 7,
                        position.1 + 7,
                        position.0 + bit,
                        position.1 + row,
                    );
                }
                let colour = if bit_set(bits, bit) {
                    INK
                } else {
                    PAPER
                };
                self.draw_pixel((position.0 + bit as usize, position.1 + row), colour);
                bit = bit + 1;
            }
            row = row + 1;
        }
    }

    /// Draws `text` from `position` rightwards, one glyph after another,
    /// each eight pixels wide. Every character must have a glyph in the font,
    /// and the last pixel of the last glyph must be writable.
    pub fn draw_text(&mut self, position: (usize, usize), text: &str)
        requires
            has_glyphs(text@),
            text@.len() > 0 ==> old(self)@.holds(
                position.0 + 8 * text@.len() - 1,
                position.1 + 7,
            ),
        ensures
            final(self)@ == old(self)@.with_text(
                position.0 as int,
                position.1 as int,
                text@,
                text@.len(),
            ),
            final(self)@.wf(),
    {
        let count = text.unicode_len();
        proof {
            use_type_invariant(&*self);
            if count > 0 {
                self@.lemma_holds_fits(position.0 + 8 * count - 1, position.1 + 7);
            }
        }
        let mut done: usize = 0;
        while done < count
            invariant
                done <= count,
                count == text@.len(),
                has_glyphs(text@),
                self@.wf(),
                self@.width == old(self)@.width,
                self@.height == old(self)@.height,
                count > 0 ==> old(self)@.holds(position.0 + 8 * count - 1, position.1 + 7),
                count > 0 ==> position.0 + 8 * count - 1 <= usize::MAX,
                self@ == old(self)@.with_text(
                    position.0 as int,
                    position.1 as int,
                    text@,
                    done as nat,
                ),
            decreases count - done,
        {
            let c = text.get_char(done);
            let rows = glyph_of(c);
            proof {
                old(self)@.lemma_holds_before(
                    position.0 + 8 * count - 1,
                    position.1 + 7,
                    position.0 + 8 * done + 7,
                    position.1 + 7,
                );
            }
            self.draw_glyph((position.0 + 8 * done, position.1), &rows);
            done = done + 1;
            proof {
                old(self)@.lemma_with_text_size(
                    position.0 as int,
                    position.1 as int,
                    text@,
                    done as nat,
                );
            }
        }
    }
}

} // verus!
