//! A flat byte buffer read as a grid of pixels, three or four bytes each,
//! row by row from the top-left corner.

use vstd::prelude::*;
use std::marker::PhantomData;
use crate::color::{Color, Color3};
use crate::factor::Factor;

verus! {

/// Which channels a pixel holds.
#[derive(Debug, Clone, Copy, PartialEq, Eq, Structural)]
pub enum ColorSpace {
    RGB,
    RGBA,
}

impl ColorSpace {
    /// The number of bytes that one pixel takes.
    pub open spec fn channels(self) -> nat {
        match self {
            ColorSpace::RGB => 3,
            ColorSpace::RGBA => 4,
        }
    }

    /// The number of bytes that one pixel takes.
    pub fn channel_count(self) -> (n: usize)
        ensures
            n == self.channels(),
    {
        match self {
            ColorSpace::RGB => 3,
            ColorSpace::RGBA => 4,
        }
    }
}

/// A colour type that a pixel buffer can hold.
pub trait ColorTrait: Sized {
    /// The channels that a value of the type holds.
    spec fn space() -> ColorSpace;

    /// The channels that a value of the type holds.
    fn color_space() -> (space: ColorSpace)
        ensures
            space == Self::space(),
    ;
}

impl ColorTrait for Color3 {
    open spec fn space() -> ColorSpace {
        ColorSpace::RGB
    }

    fn color_space() -> (space: ColorSpace) {
        ColorSpace::RGB
    }
}

impl ColorTrait for Color {
    open spec fn space() -> ColorSpace {
        ColorSpace::RGBA
    }

    fn color_space() -> (space: ColorSpace) {
        ColorSpace::RGBA
    }
}

/// Why a pixel buffer operation was refused.
#[derive(Debug, Clone, Copy, PartialEq, Eq, Structural)]
pub enum BufferError {
    /// A width, a height or a scale factor of zero.
    ZeroDimension,
    /// The byte count of the buffer does not fit the machine's address range.
    TooLarge,
    /// The bytes handed over are not `width * height * channels` many.
    SizeMismatch,
    /// A pixel position outside the buffer.
    OutOfBounds,
    /// Two buffers of different width or height.
    DimensionMismatch,
}

/// A grid of pixels of the colour type `T`, stored as bytes.
pub struct PixelBuffer<T: ColorTrait> {
    width: u64,
    height: u64,
    buffer: Vec<u8>,
    index: usize,
    _phantom: PhantomData<T>,
}

impl<T: ColorTrait> View for PixelBuffer<T> {
    type V = Seq<u8>;

    /// The bytes of the buffer: pixel after pixel, row after row.
    closed spec fn view(&self) -> Seq<u8> {
        self.buffer@
    }
}

/// The pixel with the running number `i` of a row-major grid stands in
/// column `i % width` of row `i / width`.
pub proof fn lemma_position_in_grid(i: int, width: int, height: int)
    requires
        width > 0,
        0 <= i < width * height,
    ensures
        0 <= i % width < width,
        0 <= i / width < height,
        (i / width) * width + i % width == i,
{
    vstd::arithmetic::div_mod::lemma_fundamental_div_mod(i, width);
    vstd::arithmetic::div_mod::lemma_mod_bound(i, width);
    let q = i / width;
    let r = i % width;
    assert(0 <= q < height && q * width + r == i) by (nonlinear_arith)
        requires
            width > 0,
            0 <= i < width * height,
            i == width * q + r,
            0 <= r < width,
    ;
}

/// The position of pixel `(x, y)` in a row-major grid lies inside the grid.
pub proof fn lemma_index_in_grid(x: int, y: int, width: int, height: int)
    requires
        0 <= x < width,
        0 <= y < height,
    ensures
        0 <= y * width <= y * width + x < width * height,
        (y * width + x) / width == y,
        (y * width + x) % width == x,
{
    assert(0 <= y * width <= y * width + x < width * height) by (nonlinear_arith)
        requires
            0 <= x < width,
            0 <= y < height,
    ;
    vstd::arithmetic::div_mod::lemma_fundamental_div_mod_converse(y * width + x, width, y, x);
}

impl<T: ColorTrait> PixelBuffer<T> {
    /// The width in pixels.
    pub closed spec fn spec_width(&self) -> u64 {
        self.width
    }

    /// The height in pixels.
    pub closed spec fn spec_height(&self) -> u64 {
        self.height
    }

    /// How many pixels the iteration has handed out since it was last reset.
    pub closed spec fn cursor(&self) -> nat {
        self.index as nat
    }

    /// The number of pixels.
    pub open spec fn pixel_count(&self) -> nat {
        (self.width() * self.height()) as nat
    }

    /// A buffer is well formed when neither side is zero, it holds exactly
    /// `width * height * channels` bytes, and the iteration has not run past
    /// the last pixel.
    pub open spec fn wf(&self) -> bool {
        &&& self.width() > 0
        &&& self.height() > 0
        &&& self@.len() == self.width() * self.height() * T::space().channels()
        &&& self.cursor() <= self.width() * self.height()
    }

    /// The byte count of a well-formed buffer, with the pixel count as one
    /// factor.
    pub proof fn lemma_byte_len(&self)
        requires
            self.wf(),
        ensures
            self@.len() == self.pixel_count() * T::space().channels(),
            self@.len() <= usize::MAX,
            self.pixel_count() == self.width() * self.height(),
            self.pixel_count() > 0,
    {
        assert(self.buffer.len() == self.buffer@.len());
        assert(self.width() * self.height() > 0) by (nonlinear_arith)
            requires
                self.width() > 0,
                self.height() > 0,
        ;
    }

    /// Whether the buffer is well formed. A buffer made by this module is,
    /// until bytes are added or taken away through `buffer_mut`.
    pub fn is_well_formed(&self) -> (ok: bool)
        ensures
            ok == self.wf(),
    {
        if self.width == 0 || self.height == 0 {
            return false;
        }
        let channels = T::color_space().channel_count();
        proof {
            assert(self.buffer.len() == self.buffer@.len());
            assert(0 < self.width * self.height <= self.width * self.height * channels)
                by (nonlinear_arith)
                requires
                    self.width > 0,
                    self.height > 0,
                    channels >= 3,
            ;
        }
        match byte_count(self.width, self.height, channels) {
            Some(count) => count == self.buffer.len() && self.index as u64 <= self.width
                * self.height,
            None => false,
        }
    }

    /// The bytes of the buffer.
    pub fn buffer(&self) -> (bytes: &Vec<u8>)
        ensures
            bytes@ == self@,
    {
        &self.buffer
    }

    /// Restarts the iteration at the first pixel.
    pub fn clear_iter(&mut self)
        ensures
            final(self).cursor() == 0,
            final(self)@ == old(self)@,
            final(self).width() == old(self).width(),
            final(self).height() == old(self).height(),
    {
        self.index = 0;
    }

    /// A copy of the buffer.
    pub fn duplicate(&self) -> (copy: PixelBuffer<T>)
        ensures
            copy@ == self@,
            copy.width() == self.width(),
            copy.height() == self.height(),
            copy.cursor() == self.cursor(),
    {
        let mut buffer: Vec<u8> = Vec::new();
        let mut i: usize = 0;
        while i < self.buffer.len()
            invariant
                i <= self.buffer.len(),
                buffer@ == self.buffer@.subrange(0, i as int),
            decreases self.buffer.len() - i,
        {
            buffer.push(self.buffer[i]);
            i = i + 1;
        }
        assert(self.buffer@.subrange(0, self.buffer@.len() as int) == self.buffer@);
        PixelBuffer {
            width: self.width,
            height: self.height,
            buffer,
            index: self.index,
            _phantom: PhantomData,
        }
    }

    /// The bytes of the buffer, to be changed in place. The buffer is well
    /// formed afterwards if their number was not changed.
    pub fn buffer_mut(&mut self) -> (bytes: &mut Vec<u8>)
        ensures
            bytes@ == old(self)@,
            final(self)@ == final(bytes)@,
            final(self).width() == old(self).width(),
            final(self).height() == old(self).height(),
            final(self).cursor() == old(self).cursor(),
    {
        &mut self.buffer
    }

    /// The width in pixels.
    #[verifier::when_used_as_spec(spec_width)]
    pub fn width(&self) -> (w: u64)
        ensures
            w == self.width(),
    {
        self.width
    }

    /// The height in pixels.
    #[verifier::when_used_as_spec(spec_height)]
    pub fn height(&self) -> (h: u64)
        ensures
            h == self.height(),
    {
        self.height
    }
}

/// Byte `channel` of the pixel in column `x` of row `y`, in a row-major grid
/// with `width` pixels to the row and `channels` bytes to the pixel.
pub open spec fn byte_at(bytes: Seq<u8>, width: int, channels: int, x: int, y: int, channel: int) -> u8 {
    bytes[(y * width + x) * channels + channel]
}

/// Where byte `i` of a grid scaled up by `factor` comes from in the source
/// grid, which is `width` pixels wide.
pub open spec fn source_byte(i: int, width: int, channels: int, factor: int) -> int {
    let pixel = i / channels;
    let y = pixel / (width * factor);
    let x = pixel % (width * factor);
    ((y / factor) * width + x / factor) * channels + i % channels
}

/// The byte position of a channel of pixel `(x, y)` lies inside the grid, and
/// pixel and channel can be read back from it.
pub proof fn lemma_byte_in_grid(x: int, y: int, channel: int, width: int, height: int, channels: int)
    requires
        0 <= x < width,
        0 <= y < height,
        0 <= channel < channels,
    ensures
        0 <= (y * width + x) * channels + channel < width * height * channels,
        ((y * width + x) * channels + channel) / channels == y * width + x,
        ((y * width + x) * channels + channel) % channels == channel,
{
    lemma_index_in_grid(x, y, width, height);
    let pixel = y * width + x;
    let count = width * height;
    assert(0 <= pixel * channels && pixel * channels + channels <= count * channels) by (nonlinear_arith)
        requires
            0 <= pixel < count,
            channels > 0,
    ;
    vstd::arithmetic::div_mod::lemma_fundamental_div_mod_converse(
        pixel * channels + channel,
        channels,
        pixel,
        channel,
    );
}

/// In a grid scaled up by `factor`, pixel `(x, y)` comes from the source
/// pixel `(x / factor, y / factor)`, which lies inside the source grid.
pub proof fn lemma_source_in_grid(x: int, y: int, width: int, height: int, factor: int)
    requires
        factor > 0,
        0 <= x < width * factor,
        0 <= y < height * factor,
    ensures
        0 <= x / factor < width,
        0 <= y / factor < height,
{
    vstd::arithmetic::div_mod::lemma_fundamental_div_mod(x, factor);
    vstd::arithmetic::div_mod::lemma_fundamental_div_mod(y, factor);
    vstd::arithmetic::div_mod::lemma_mod_bound(x, factor);
    vstd::arithmetic::div_mod::lemma_mod_bound(y, factor);
    let qx = x / factor;
    let qy = y / factor;
    assert(0 <= qx < width) by (nonlinear_arith)
        requires
            factor > 0,
            0 <= x < width * factor,
            x == factor * qx + x % factor,
            0 <= x % factor < factor,
    ;
    assert(0 <= qy < height) by (nonlinear_arith)
        requires
            factor > 0,
            0 <= y < height * factor,
            y == factor * qy + y % factor,
            0 <= y % factor < factor,
    ;
}

/// Whether every byte of `out` is the byte of `src` that a grid scaled up by
/// `factor` takes from its source.
pub open spec fn copied(out: Seq<u8>, src: Seq<u8>, width: int, channels: int, factor: int) -> bool {
    forall|i: int| 0 <= i < out.len() ==> #[trigger] copied_at(out, src, width, channels, factor, i)
}

/// Whether byte `i` of `out` is the byte of `src` that a grid scaled up by
/// `factor` takes from its source.
pub open spec fn copied_at(
    out: Seq<u8>,
    src: Seq<u8>,
    width: int,
    channels: int,
    factor: int,
    i: int,
) -> bool {
    0 <= source_byte(i, width, channels, factor) < src.len() && out[i] == src[source_byte(
        i,
        width,
        channels,
        factor,
    )]
}

/// Scales a grid of pixels up by `factor` in both directions: every source
/// pixel becomes a square of `factor` by `factor` equal pixels.
fn replicate(src: &Vec<u8>, width: usize, height: usize, channels: usize, factor: usize) -> (out:
    Vec<u8>)
    requires
        width > 0,
        height > 0,
        channels > 0,
        factor > 0,
        src@.len() == width * height * channels,
        (width * factor) * (height * factor) * channels <= usize::MAX,
    ensures
        out@.len() == (width * factor) * (height * factor) * channels,
        forall|x: int, y: int, channel: int|
            0 <= x < width * factor && 0 <= y < height * factor && 0 <= channel < channels
                ==> #[trigger] byte_at(out@, width * factor, channels as int, x, y, channel)
                == byte_at(src@, width as int, channels as int, x / (factor as int), y / (
            factor as int), channel),
{
    let ghost wide: int = width * factor;
    let ghost tall: int = height * factor;
    proof {
        assert(wide > 0 && tall > 0) by (nonlinear_arith)
            requires
                wide == width * factor,
                tall == height * factor,
                width > 0,
                height > 0,
                factor > 0,
        ;
        assert(wide <= wide * tall * channels && tall <= wide * tall * channels) by (nonlinear_arith)
            requires
                wide > 0,
                tall > 0,
                channels > 0,
        ;
    }
    let out_width: usize = width * factor;
    let out_height: usize = height * factor;
    let mut out: Vec<u8> = Vec::new();
    let mut y: usize = 0;
    proof {
        assert((y * wide) * channels == 0) by (nonlinear_arith)
            requires
                y == 0,
        ;
    }
    while y < out_height
        invariant
            width > 0,
            height > 0,
            channels > 0,
            factor > 0,
            wide == width * factor,
            tall == height * factor,
            out_width == wide,
            out_height == tall,
            src@.len() == width * height * channels,
            y <= out_height,
            out@.len() == (y * wide) * channels,
            copied(out@, src@, width as int, channels as int, factor as int),
        decreases out_height - y,
    {
        let source_y: usize = y / factor;
        let mut x: usize = 0;
        proof {
            assert((y * wide + 0) * channels == (y * wide) * channels);
        }
        while x < out_width
            invariant
                width > 0,
                height > 0,
                channels > 0,
                factor > 0,
                wide == width * factor,
                tall == height * factor,
                out_width == wide,
                out_height == tall,
                src@.len() == width * height * channels,
                y < out_height,
                source_y == y / factor,
                x <= out_width,
                out@.len() == (y * wide + x) * channels,
                copied(out@, src@, width as int, channels as int, factor as int),
            decreases out_width - x,
        {
            let source_x: usize = x / factor;
            proof {
                lemma_source_in_grid(x as int, y as int, width as int, height as int, factor as int);
                lemma_byte_in_grid(
                    source_x as int,
                    source_y as int,
                    0,
                    width as int,
                    height as int,
                    channels as int,
                );
                lemma_index_in_grid(source_x as int, source_y as int, width as int, height as int);
                assert(src.len() == src@.len());
                assert(source_y * width + source_x <= (source_y * width + source_x) * channels)
                    by (nonlinear_arith)
                    requires
                        0 <= source_y * width + source_x,
                        channels > 0,
                ;
            }
            let start: usize = (source_y * width + source_x) * channels;
            let mut channel: usize = 0;
            while channel < channels
                invariant
                    width > 0,
                    height > 0,
                    channels > 0,
                    factor > 0,
                    wide == width * factor,
                    tall == height * factor,
                    src@.len() == width * height * channels,
                    y < tall,
                    x < wide,
                    source_y == y / factor,
                    source_x == x / factor,
                    start == (source_y * width + source_x) * channels,
                    channel <= channels,
                    out@.len() == (y * wide + x) * channels + channel,
                    copied(out@, src@, width as int, channels as int, factor as int),
                decreases channels - channel,
            {
                proof {
                    lemma_source_in_grid(x as int, y as int, width as int, height as int, factor as int);
                    lemma_byte_in_grid(
                        source_x as int,
                        source_y as int,
                        channel as int,
                        width as int,
                        height as int,
                        channels as int,
                    );
                    lemma_byte_in_grid(x as int, y as int, channel as int, wide, tall, channels as int);
                    lemma_index_in_grid(x as int, y as int, wide, tall);
                    assert(source_byte(out@.len() as int, width as int, channels as int, factor as int)
                        == start + channel);
                    assert(src.len() == src@.len());
                }
                let ghost before = out@;
                out.push(src[start + channel]);
                proof {
                    assert forall|i: int| 0 <= i < out@.len() implies #[trigger] copied_at(
                        out@,
                        src@,
                        width as int,
                        channels as int,
                        factor as int,
                        i,
                    ) by {
                        if i < before.len() {
                            assert(copied_at(
                                before,
                                src@,
                                width as int,
                                channels as int,
                                factor as int,
                                i,
                            ));
                        }
                    }
                }
                channel = channel + 1;
            }
            proof {
                assert((y * wide + x) * channels + channels == (y * wide + (x + 1)) * channels)
                    by (nonlinear_arith);
            }
            x = x + 1;
        }
        proof {
            assert((y * wide + wide) * channels == ((y + 1) * wide) * channels) by (nonlinear_arith);
        }
        y = y + 1;
    }
    proof {
        assert((tall * wide) * channels == wide * tall * channels) by (nonlinear_arith);
        assert forall|x: int, y: int, channel: int|
            0 <= x < width * factor && 0 <= y < height * factor && 0 <= channel
                < channels implies #[trigger] byte_at(
            out@,
            width * factor,
            channels as int,
            x,
            y,
            channel,
        ) == byte_at(
            src@,
            width as int,
            channels as int,
            x / (factor as int),
            y / (factor as int),
            channel,
        ) by {
            lemma_byte_in_grid(x, y, channel, wide, tall, channels as int);
            lemma_index_in_grid(x, y, wide, tall);
            let i = (y * wide + x) * channels + channel;
            assert(copied_at(out@, src@, width as int, channels as int, factor as int, i));
        }
    }
    out
}

/// Multiplies three sizes, if the product fits a `usize`.
fn byte_count(width: u64, height: u64, channels: usize) -> (count: Option<usize>)
    ensures
        match count {
            Some(n) => n == width * height * channels,
            None => width * height * channels > usize::MAX,
        },
{
    if width == 0 || height == 0 || channels == 0 {
        assert(width * height * channels == 0) by (nonlinear_arith)
            requires
                width == 0 || height == 0 || channels == 0,
        ;
        return Some(0);
    }
    let area = match width.checked_mul(height) {
        Some(area) => area,
        None => {
            assert(width * height * channels > usize::MAX) by (nonlinear_arith)
                requires
                    width * height > u64::MAX,
                    channels >= 1,
                    usize::MAX <= u64::MAX,
            ;
            return None;
        },
    };
    match area.checked_mul(channels as u64) {
        Some(bytes) => if bytes <= usize::MAX as u64 {
            Some(bytes as usize)
        } else {
            None
        },
        None => None,
    }
}

/// The four-byte pixel with the running number `i` in `bytes`.
pub open spec fn rgba_at(bytes: Seq<u8>, i: int) -> Color {
    Color { r: bytes[4 * i], g: bytes[4 * i + 1], b: bytes[4 * i + 2], a: bytes[4 * i + 3] }
}

/// The four-byte pixel in column `x` of row `y` in `bytes`, read as rows of
/// `width` pixels.
pub open spec fn rgba_in(bytes: Seq<u8>, width: int, x: int, y: int) -> Color {
    rgba_at(bytes, y * width + x)
}

/// The three-byte pixel with the running number `i` in `bytes`.
pub open spec fn rgb_at(bytes: Seq<u8>, i: int) -> Color3 {
    Color3 { r: bytes[3 * i], g: bytes[3 * i + 1], b: bytes[3 * i + 2] }
}

/// The three-byte pixel in column `x` of row `y` in `bytes`, read as rows of
/// `width` pixels.
pub open spec fn rgb_in(bytes: Seq<u8>, width: int, x: int, y: int) -> Color3 {
    rgb_at(bytes, y * width + x)
}

/// An opaque pixel, laid over another, replaces it.
pub proof fn lemma_overlaid_opaque(base: Color3, over: Color)
    requires
        over.a == 255,
    ensures
        overlaid(base, over) == over.rgb(),
{
    crate::color::lemma_blend3_laws(over.rgb(), base, Factor::Ratio { num: 255, den: 255 });
}

/// The sizes of a grid scaled up by `factor`: no side and no byte count
/// shrinks, and the byte count grows by the factor squared.
pub proof fn lemma_scaled_size(width: int, height: int, channels: int, factor: int)
    requires
        width > 0,
        height > 0,
        channels > 0,
        factor > 0,
    ensures
        width <= width * factor <= (width * factor) * (height * factor) * channels,
        height <= height * factor <= (width * factor) * (height * factor) * channels,
        factor <= (width * factor) * (height * factor) * channels,
        (width * factor) * (height * factor) * channels == (channels * (width * height)) * factor
            * factor,
        (width * factor) * (height * factor) * channels == width * factor * (height * factor)
            * channels,
        0 < width * height <= (width * factor) * (height * factor),
{
    assert(0 < width * height <= (width * factor) * (height * factor)) by (nonlinear_arith)
        requires
            width > 0,
            height > 0,
            factor > 0,
    ;
    let wide = width * factor;
    let tall = height * factor;
    assert(wide >= width && wide >= factor && tall >= height && tall >= 1) by (nonlinear_arith)
        requires
            wide == width * factor,
            tall == height * factor,
            width > 0,
            height > 0,
            factor > 0,
    ;
    assert(wide <= wide * tall * channels && tall <= wide * tall * channels) by (nonlinear_arith)
        requires
            wide >= 1,
            tall >= 1,
            channels >= 1,
    ;
    assert((width * factor) * (height * factor) * channels == (channels * (width * height)) * factor
        * factor) by (nonlinear_arith);
}

/// The pixel `base` with the pixel `over` laid on it: the red, green and
/// blue of `over` blended over `base`, the alpha of `over` as a fraction of
/// 255 for factor.
pub open spec fn overlaid(base: Color3, over: Color) -> Color3 {
    over.rgb().blended(base, Factor::Ratio { num: over.a as u32, den: 255 })
}

/// A pixel with an alpha of zero, laid over another, leaves that one as it
/// was.
pub proof fn lemma_overlaid_transparent(base: Color3, over: Color)
    requires
        over.a == 0,
    ensures
        overlaid(base, over) == base,
{
    crate::color::lemma_blend3_laws(over.rgb(), base, Factor::Ratio { num: 0, den: 255 });
}

impl PixelBuffer<Color> {
    /// The pixel with the running number `i`, counted row by row.
    pub open spec fn pixel(&self, i: int) -> Color {
        rgba_at(self@, i)
    }

    /// The pixel in column `x` of row `y`.
    pub open spec fn pixel_at(&self, x: int, y: int) -> Color {
        rgba_in(self@, self.width() as int, x, y)
    }

    /// A well-formed buffer holds four bytes for each pixel.
    pub proof fn lemma_layout(&self)
        requires
            self.wf(),
        ensures
            self@.len() == 4 * self.pixel_count(),
            self@.len() <= usize::MAX,
            self.pixel_count() == self.width() * self.height(),
            self.pixel_count() > 0,
            self.width() <= self.pixel_count(),
            self.height() <= self.pixel_count(),
    {
        self.lemma_byte_len();
        let count = self.pixel_count();
        let channels = Color::space().channels();
        assert(count * channels == 4 * count) by (nonlinear_arith)
            requires
                channels == 4,
        ;
        assert(self.width() <= self.width() * self.height() && self.height() <= self.width()
            * self.height()) by (nonlinear_arith)
            requires
                self.width() > 0,
                self.height() > 0,
        ;
    }

    /// A buffer over bytes known to be four for each pixel.
    pub(crate) fn assemble(buffer: Vec<u8>, width: u64, height: u64) -> (made: PixelBuffer<Color>)
        requires
            width > 0,
            height > 0,
            buffer@.len() == 4 * (width * height),
        ensures
            made.wf(),
            made.width() == width,
            made.height() == height,
            made.cursor() == 0,
            made@ == buffer@,
    {
        let made = PixelBuffer { width, height, buffer, index: 0, _phantom: PhantomData };
        proof {
            let count = width * height;
            let channels = Color::space().channels();
            assert(count * channels == 4 * count) by (nonlinear_arith)
                requires
                    channels == 4,
            ;
            assert(0 <= width * height) by (nonlinear_arith)
                requires
                    width >= 0,
                    height >= 0,
            ;
        }
        made
    }

    /// A buffer of the given size in which every pixel is black and opaque:
    /// zero in red, green and blue, 255 in alpha.
    pub fn new(width: u64, height: u64) -> (made: Result<PixelBuffer<Color>, BufferError>)
        ensures
            made == Err::<PixelBuffer<Color>, BufferError>(BufferError::ZeroDimension) <==> width == 0
                || height == 0,
            made == Err::<PixelBuffer<Color>, BufferError>(BufferError::TooLarge) <==> width > 0
                && height > 0 && width * height * 4 > usize::MAX,
            made matches Ok(buf) ==> {
                &&& buf.wf()
                &&& buf.width() == width
                &&& buf.height() == height
                &&& buf.cursor() == 0
                &&& forall|i: int|
                    0 <= i < width * height ==> #[trigger] buf.pixel(i) == (Color {
                        r: 0,
                        g: 0,
                        b: 0,
                        a: 255,
                    })
            },
            made matches Err(e) ==> e == BufferError::ZeroDimension || e == BufferError::TooLarge,
    {
        if width == 0 || height == 0 {
            return Err(BufferError::ZeroDimension);
        }
        let count = match byte_count(width, height, 4) {
            Some(count) => count,
            None => {
                return Err(BufferError::TooLarge);
            },
        };
        let mut buffer: Vec<u8> = Vec::new();
        while buffer.len() < count
            invariant
                count % 4 == 0,
                buffer.len() % 4 == 0,
                buffer.len() <= count,
                forall|i: int|
                    0 <= i < buffer.len() ==> #[trigger] buffer[i] == if i % 4 == 3 {
                        255u8
                    } else {
                        0u8
                    },
            decreases count - buffer.len(),
        {
            buffer.push(0);
            buffer.push(0);
            buffer.push(0);
            buffer.push(255);
        }
        let made = PixelBuffer { width, height, buffer, index: 0, _phantom: PhantomData };
        assert(0 <= width * height) by (nonlinear_arith)
            requires
                width >= 0,
                height >= 0,
        ;
        Ok(made)
    }

    /// A buffer of the given width and height over the given bytes, four
    /// for each pixel, row after row.
    pub fn from_buffer(buffer: Vec<u8>, width: u64, height: u64) -> (made: Result<
        PixelBuffer<Color>,
        BufferError,
    >)
        ensures
            made == Err::<PixelBuffer<Color>, BufferError>(BufferError::ZeroDimension) <==> width == 0
                || height == 0,
            made == Err::<PixelBuffer<Color>, BufferError>(BufferError::SizeMismatch) <==> width > 0
                && height > 0 && buffer.len() != width * height * 4,
            made matches Ok(buf) ==> {
                &&& buf.wf()
                &&& buf.width() == width
                &&& buf.height() == height
                &&& buf.cursor() == 0
                &&& buf@ == buffer@
            },
            made matches Err(e) ==> e == BufferError::ZeroDimension || e
                == BufferError::SizeMismatch,
    {
        if width == 0 || height == 0 {
            return Err(BufferError::ZeroDimension);
        }
        match byte_count(width, height, 4) {
            Some(count) => {
                if buffer.len() != count {
                    return Err(BufferError::SizeMismatch);
                }
            },
            None => {
                return Err(BufferError::SizeMismatch);
            },
        }
        let made = PixelBuffer { width, height, buffer, index: 0, _phantom: PhantomData };
        assert(0 <= width * height) by (nonlinear_arith)
            requires
                width >= 0,
                height >= 0,
        ;
        Ok(made)
    }

    /// Whether the buffer is `source` scaled up by `factor`: `factor` times
    /// as wide and as high, with `factor * factor` times the bytes, each
    /// pixel `(x, y)` being the pixel `(x / factor, y / factor)` of `source`.
    pub open spec fn scaled_from(&self, source: PixelBuffer<Color>, factor: int) -> bool {
        &&& self.width() == source.width() * factor
        &&& self.height() == source.height() * factor
        &&& self@.len() == source@.len() * factor * factor
        &&& forall|x: int, y: int|
            0 <= x < self.width() && 0 <= y < self.height() ==> #[trigger] self.pixel_at(x, y)
                == source.pixel_at(x / factor, y / factor)
    }

    /// In a buffer scaled up by `factor`, every source pixel `(sx, sy)` has
    /// become a block of `factor` by `factor` pixels equal to it.
    pub proof fn lemma_scaled_blocks(
        &self,
        source: PixelBuffer<Color>,
        factor: int,
        sx: int,
        sy: int,
        dx: int,
        dy: int,
    )
        requires
            factor > 0,
            self.scaled_from(source, factor),
            0 <= sx < source.width(),
            0 <= sy < source.height(),
            0 <= dx < factor,
            0 <= dy < factor,
        ensures
            0 <= sx * factor + dx < self.width(),
            0 <= sy * factor + dy < self.height(),
            self.pixel_at(sx * factor + dx, sy * factor + dy) == source.pixel_at(sx, sy),
    {
        lemma_index_in_grid(dx, sx, factor, source.width() as int);
        lemma_index_in_grid(dy, sy, factor, source.height() as int);
        assert(factor * source.width() == source.width() * factor) by (nonlinear_arith);
        assert(factor * source.height() == source.height() * factor) by (nonlinear_arith);
    }

    /// Scales the buffer up by `factor` in both directions, taking for each
    /// pixel the nearest source pixel: every source pixel becomes a square of
    /// `factor` by `factor` equal pixels. Refuses, changing nothing, a factor
    /// of zero and a result too large to address.
    pub fn upscale(&mut self, factor: u64) -> (done: Result<(), BufferError>)
        requires
            old(self).wf(),
        ensures
            final(self).wf(),
            final(self).cursor() == old(self).cursor(),
            done == Err::<(), BufferError>(BufferError::ZeroDimension) <==> factor == 0,
            done == Err::<(), BufferError>(BufferError::TooLarge) <==> factor > 0 && (old(self)
                .width() * factor) * (old(self).height() * factor) * 4 > usize::MAX,
            done matches Err(e) ==> e == BufferError::ZeroDimension || e == BufferError::TooLarge,
            done is Err ==> final(self)@ == old(self)@ && final(self).width() == old(self).width()
                && final(self).height() == old(self).height(),
            done is Ok ==> final(self).scaled_from(*old(self), factor as int),
    {
        if factor == 0 {
            return Err(BufferError::ZeroDimension);
        }
        proof {
            self.lemma_layout();
            lemma_scaled_size(self.width as int, self.height as int, 4, factor as int);
        }
        let wide = match self.width.checked_mul(factor) {
            Some(wide) => wide,
            None => {
                return Err(BufferError::TooLarge);
            },
        };
        let tall = match self.height.checked_mul(factor) {
            Some(tall) => tall,
            None => {
                return Err(BufferError::TooLarge);
            },
        };
        if byte_count(wide, tall, 4).is_none() {
            return Err(BufferError::TooLarge);
        }
        let scaled = replicate(
            &self.buffer,
            self.width as usize,
            self.height as usize,
            4,
            factor as usize,
        );
        proof {
            assert forall|x: int, y: int| 0 <= x < wide && 0 <= y < tall implies #[trigger] rgba_in(
                scaled@,
                wide as int,
                x,
                y,
            ) == self.pixel_at(x / (factor as int), y / (factor as int)) by {
            assert(byte_at(scaled@, wide as int, 4, x, y, 0) == byte_at(
                self.buffer@,
                self.width as int,
                4,
                x / (factor as int),
                y / (factor as int),
                0,
            ));
            assert(byte_at(scaled@, wide as int, 4, x, y, 1) == byte_at(
                self.buffer@,
                self.width as int,
                4,
                x / (factor as int),
                y / (factor as int),
                1,
            ));
            assert(byte_at(scaled@, wide as int, 4, x, y, 2) == byte_at(
                self.buffer@,
                self.width as int,
                4,
                x / (factor as int),
                y / (factor as int),
                2,
            ));
            assert(byte_at(scaled@, wide as int, 4, x, y, 3) == byte_at(
                self.buffer@,
                self.width as int,
                4,
                x / (factor as int),
                y / (factor as int),
                3,
            ));
            }
        }
        self.buffer = scaled;
        self.width = wide;
        self.height = tall;
        proof {
            let count = wide * tall;
            let channels = Color::space().channels();
            assert(count * channels == count * 4) by (nonlinear_arith)
                requires
                    channels == 4,
            ;
        }
        Ok(())
    }

    /// The pixel in column `x` of row `y`, or `OutOfBounds` if the buffer has
    /// no such pixel.
    pub fn get(&self, x: u64, y: u64) -> (found: Result<Color, BufferError>)
        requires
            self.wf(),
        ensures
            found == if x < self.width() && y < self.height() {
                Ok::<Color, BufferError>(self.pixel_at(x as int, y as int))
            } else {
                Err::<Color, BufferError>(BufferError::OutOfBounds)
            },
    {
        if x >= self.width || y >= self.height {
            return Err(BufferError::OutOfBounds);
        }
        proof {
            self.lemma_layout();
            lemma_index_in_grid(x as int, y as int, self.width as int, self.height as int);
        }
        let start: usize = ((y * self.width + x) * 4) as usize;
        Ok(
            Color {
                r: self.buffer[start],
                g: self.buffer[start + 1],
                b: self.buffer[start + 2],
                a: self.buffer[start + 3],
            },
        )
    }

    /// Stores `color` in column `x` of row `y` and leaves every other pixel
    /// as it was; refuses with `OutOfBounds`, changing nothing, if the buffer
    /// has no such pixel.
    pub fn set(&mut self, x: u64, y: u64, color: Color) -> (done: Result<(), BufferError>)
        requires
            old(self).wf(),
        ensures
            final(self).wf(),
            final(self).width() == old(self).width(),
            final(self).height() == old(self).height(),
            final(self).cursor() == old(self).cursor(),
            done == if x < old(self).width() && y < old(self).height() {
                Ok::<(), BufferError>(())
            } else {
                Err::<(), BufferError>(BufferError::OutOfBounds)
            },
            done is Err ==> final(self)@ == old(self)@,
            done is Ok ==> final(self).pixel_at(x as int, y as int) == color,
            done is Ok ==> forall|i: int|
                0 <= i < old(self).pixel_count() && i != y * old(self).width() + x
                    ==> #[trigger] final(self).pixel(i) == old(self).pixel(i),
    {
        if x >= self.width || y >= self.height {
            return Err(BufferError::OutOfBounds);
        }
        proof {
            self.lemma_layout();
            lemma_index_in_grid(x as int, y as int, self.width as int, self.height as int);
        }
        let start: usize = ((y * self.width + x) * 4) as usize;
        self.buffer.set(start, color.r);
        self.buffer.set(start + 1, color.g);
        self.buffer.set(start + 2, color.b);
        self.buffer.set(start + 3, color.a);
        Ok(())
    }

    /// Hands out the next pixel of the iteration, row by row from the
    /// top-left corner, or nothing once every pixel has been handed out.
    pub fn next(&mut self) -> (item: Option<Color>)
        requires
            old(self).wf(),
        ensures
            final(self).wf(),
            final(self)@ == old(self)@,
            final(self).width() == old(self).width(),
            final(self).height() == old(self).height(),
            item == if old(self).cursor() < old(self).pixel_count() {
                Some(old(self).pixel(old(self).cursor() as int))
            } else {
                Option::<Color>::None
            },
            final(self).cursor() == if old(self).cursor() < old(self).pixel_count() {
                old(self).cursor() + 1
            } else {
                old(self).cursor()
            },
    {
        proof {
            self.lemma_layout();
        }
        if self.index >= self.buffer.len() / 4 {
            return None;
        }
        let start: usize = self.index * 4;
        let item = Color {
            r: self.buffer[start],
            g: self.buffer[start + 1],
            b: self.buffer[start + 2],
            a: self.buffer[start + 3],
        };
        self.index = self.index + 1;
        Some(item)
    }
}

impl PixelBuffer<Color3> {
    /// The pixel with the running number `i`, counted row by row.
    pub open spec fn pixel(&self, i: int) -> Color3 {
        rgb_at(self@, i)
    }

    /// The pixel in column `x` of row `y`.
    pub open spec fn pixel_at(&self, x: int, y: int) -> Color3 {
        rgb_in(self@, self.width() as int, x, y)
    }

    /// A well-formed buffer holds three bytes for each pixel.
    pub proof fn lemma_layout(&self)
        requires
            self.wf(),
        ensures
            self@.len() == 3 * self.pixel_count(),
            self@.len() <= usize::MAX,
            self.pixel_count() == self.width() * self.height(),
            self.pixel_count() > 0,
            self.width() <= self.pixel_count(),
            self.height() <= self.pixel_count(),
    {
        self.lemma_byte_len();
        let count = self.pixel_count();
        let channels = Color3::space().channels();
        assert(count * channels == 3 * count) by (nonlinear_arith)
            requires
                channels == 3,
        ;
        assert(self.width() <= self.width() * self.height() && self.height() <= self.width()
            * self.height()) by (nonlinear_arith)
            requires
                self.width() > 0,
                self.height() > 0,
        ;
    }

    /// A buffer of the given size in which every pixel is black.
    pub fn new(width: u64, height: u64) -> (made: Result<PixelBuffer<Color3>, BufferError>)
        ensures
            made == Err::<PixelBuffer<Color3>, BufferError>(BufferError::ZeroDimension) <==> width == 0
                || height == 0,
            made == Err::<PixelBuffer<Color3>, BufferError>(BufferError::TooLarge) <==> width > 0
                && height > 0 && width * height * 3 > usize::MAX,
            made matches Ok(buf) ==> {
                &&& buf.wf()
                &&& buf.width() == width
                &&& buf.height() == height
                &&& buf.cursor() == 0
                &&& forall|i: int|
                    0 <= i < width * height ==> #[trigger] buf.pixel(i) == (Color3 { r: 0, g: 0, b: 0 })
            },
            made matches Err(e) ==> e == BufferError::ZeroDimension || e == BufferError::TooLarge,
    {
        if width == 0 || height == 0 {
            return Err(BufferError::ZeroDimension);
        }
        let count = match byte_count(width, height, 3) {
            Some(count) => count,
            None => {
                return Err(BufferError::TooLarge);
            },
        };
        let mut buffer: Vec<u8> = Vec::new();
        while buffer.len() < count
            invariant
                buffer.len() <= count,
                forall|i: int| 0 <= i < buffer.len() ==> #[trigger] buffer[i] == 0u8,
            decreases count - buffer.len(),
        {
            buffer.push(0);
        }
        let made = PixelBuffer { width, height, buffer, index: 0, _phantom: PhantomData };
        assert(0 <= width * height) by (nonlinear_arith)
            requires
                width >= 0,
                height >= 0,
        ;
        Ok(made)
    }

    /// A buffer of the given width and height over the given bytes, three
    /// for each pixel, row after row.
    pub fn from_buffer(buffer: Vec<u8>, width: u64, height: u64) -> (made: Result<
        PixelBuffer<Color3>,
        BufferError,
    >)
        ensures
            made == Err::<PixelBuffer<Color3>, BufferError>(BufferError::ZeroDimension) <==> width == 0
                || height == 0,
            made == Err::<PixelBuffer<Color3>, BufferError>(BufferError::SizeMismatch) <==> width > 0
                && height > 0 && buffer.len() != width * height * 3,
            made matches Ok(buf) ==> {
                &&& buf.wf()
                &&& buf.width() == width
                &&& buf.height() == height
                &&& buf.cursor() == 0
                &&& buf@ == buffer@
            },
            made matches Err(e) ==> e == BufferError::ZeroDimension || e
                == BufferError::SizeMismatch,
    {
        if width == 0 || height == 0 {
            return Err(BufferError::ZeroDimension);
        }
        match byte_count(width, height, 3) {
            Some(count) => {
                if buffer.len() != count {
                    return Err(BufferError::SizeMismatch);
                }
            },
            None => {
                return Err(BufferError::SizeMismatch);
            },
        }
        let made = PixelBuffer { width, height, buffer, index: 0, _phantom: PhantomData };
        assert(0 <= width * height) by (nonlinear_arith)
            requires
                width >= 0,
                height >= 0,
        ;
        Ok(made)
    }

    /// Whether the buffer is `source` scaled up by `factor`: `factor` times
    /// as wide and as high, with `factor * factor` times the bytes, each
    /// pixel `(x, y)` being the pixel `(x / factor, y / factor)` of `source`.
    pub open spec fn scaled_from(&self, source: PixelBuffer<Color3>, factor: int) -> bool {
        &&& self.width() == source.width() * factor
        &&& self.height() == source.height() * factor
        &&& self@.len() == source@.len() * factor * factor
        &&& forall|x: int, y: int|
            0 <= x < self.width() && 0 <= y < self.height() ==> #[trigger] self.pixel_at(x, y)
                == source.pixel_at(x / factor, y / factor)
    }

    /// In a buffer scaled up by `factor`, every source pixel `(sx, sy)` has
    /// become a block of `factor` by `factor` pixels equal to it.
    pub proof fn lemma_scaled_blocks(
        &self,
        source: PixelBuffer<Color3>,
        factor: int,
        sx: int,
        sy: int,
        dx: int,
        dy: int,
    )
        requires
            factor > 0,
            self.scaled_from(source, factor),
            0 <= sx < source.width(),
            0 <= sy < source.height(),
            0 <= dx < factor,
            0 <= dy < factor,
        ensures
            0 <= sx * factor + dx < self.width(),
            0 <= sy * factor + dy < self.height(),
            self.pixel_at(sx * factor + dx, sy * factor + dy) == source.pixel_at(sx, sy),
    {
        lemma_index_in_grid(dx, sx, factor, source.width() as int);
        lemma_index_in_grid(dy, sy, factor, source.height() as int);
        assert(factor * source.width() == source.width() * factor) by (nonlinear_arith);
        assert(factor * source.height() == source.height() * factor) by (nonlinear_arith);
    }

    /// Scales the buffer up by `factor` in both directions, taking for each
    /// pixel the nearest source pixel: every source pixel becomes a square of
    /// `factor` by `factor` equal pixels. Refuses, changing nothing, a factor
    /// of zero and a result too large to address.
    pub fn upscale(&mut self, factor: u64) -> (done: Result<(), BufferError>)
        requires
            old(self).wf(),
        ensures
            final(self).wf(),
            final(self).cursor() == old(self).cursor(),
            done == Err::<(), BufferError>(BufferError::ZeroDimension) <==> factor == 0,
            done == Err::<(), BufferError>(BufferError::TooLarge) <==> factor > 0 && (old(self)
                .width() * factor) * (old(self).height() * factor) * 3 > usize::MAX,
            done matches Err(e) ==> e == BufferError::ZeroDimension || e == BufferError::TooLarge,
            done is Err ==> final(self)@ == old(self)@ && final(self).width() == old(self).width()
                && final(self).height() == old(self).height(),
            done is Ok ==> final(self).scaled_from(*old(self), factor as int),
    {
        if factor == 0 {
            return Err(BufferError::ZeroDimension);
        }
        proof {
            self.lemma_layout();
            lemma_scaled_size(self.width as int, self.height as int, 3, factor as int);
        }
        let wide = match self.width.checked_mul(factor) {
            Some(wide) => wide,
            None => {
                return Err(BufferError::TooLarge);
            },
        };
        let tall = match self.height.checked_mul(factor) {
            Some(tall) => tall,
            None => {
                return Err(BufferError::TooLarge);
            },
        };
        if byte_count(wide, tall, 3).is_none() {
            return Err(BufferError::TooLarge);
        }
        let scaled = replicate(
            &self.buffer,
            self.width as usize,
            self.height as usize,
            3,
            factor as usize,
        );
        proof {
            assert forall|x: int, y: int| 0 <= x < wide && 0 <= y < tall implies #[trigger] rgb_in(
                scaled@,
                wide as int,
                x,
                y,
            ) == self.pixel_at(x / (factor as int), y / (factor as int)) by {
            assert(byte_at(scaled@, wide as int, 3, x, y, 0) == byte_at(
                self.buffer@,
                self.width as int,
                3,
                x / (factor as int),
                y / (factor as int),
                0,
            ));
            assert(byte_at(scaled@, wide as int, 3, x, y, 1) == byte_at(
                self.buffer@,
                self.width as int,
                3,
                x / (factor as int),
                y / (factor as int),
                1,
            ));
            assert(byte_at(scaled@, wide as int, 3, x, y, 2) == byte_at(
                self.buffer@,
                self.width as int,
                3,
                x / (factor as int),
                y / (factor as int),
                2,
            ));
            }
        }
        self.buffer = scaled;
        self.width = wide;
        self.height = tall;
        proof {
            let count = wide * tall;
            let channels = Color3::space().channels();
            assert(count * channels == count * 3) by (nonlinear_arith)
                requires
                    channels == 3,
            ;
        }
        Ok(())
    }

    /// The pixel in column `x` of row `y`, or `OutOfBounds` if the buffer has
    /// no such pixel.
    pub fn get(&self, x: u64, y: u64) -> (found: Result<Color3, BufferError>)
        requires
            self.wf(),
        ensures
            found == if x < self.width() && y < self.height() {
                Ok::<Color3, BufferError>(self.pixel_at(x as int, y as int))
            } else {
                Err::<Color3, BufferError>(BufferError::OutOfBounds)
            },
    {
        if x >= self.width || y >= self.height {
            return Err(BufferError::OutOfBounds);
        }
        proof {
            self.lemma_layout();
            lemma_index_in_grid(x as int, y as int, self.width as int, self.height as int);
        }
        let start: usize = ((y * self.width + x) * 3) as usize;
        Ok(
            Color3 {
                r: self.buffer[start],
                g: self.buffer[start + 1],
                b: self.buffer[start + 2],
            },
        )
    }

    /// Stores `color` in column `x` of row `y` and leaves every other pixel
    /// as it was; refuses with `OutOfBounds`, changing nothing, if the buffer
    /// has no such pixel.
    pub fn set(&mut self, x: u64, y: u64, color: Color3) -> (done: Result<(), BufferError>)
        requires
            old(self).wf(),
        ensures
            final(self).wf(),
            final(self).width() == old(self).width(),
            final(self).height() == old(self).height(),
            final(self).cursor() == old(self).cursor(),
            done == if x < old(self).width() && y < old(self).height() {
                Ok::<(), BufferError>(())
            } else {
                Err::<(), BufferError>(BufferError::OutOfBounds)
            },
            done is Err ==> final(self)@ == old(self)@,
            done is Ok ==> final(self).pixel_at(x as int, y as int) == color,
            done is Ok ==> forall|i: int|
                0 <= i < old(self).pixel_count() && i != y * old(self).width() + x
                    ==> #[trigger] final(self).pixel(i) == old(self).pixel(i),
    {
        if x >= self.width || y >= self.height {
            return Err(BufferError::OutOfBounds);
        }
        proof {
            self.lemma_layout();
            lemma_index_in_grid(x as int, y as int, self.width as int, self.height as int);
        }
        let start: usize = ((y * self.width + x) * 3) as usize;
        self.buffer.set(start, color.r);
        self.buffer.set(start + 1, color.g);
        self.buffer.set(start + 2, color.b);
        Ok(())
    }

    /// Hands out the next pixel of the iteration, row by row from the
    /// top-left corner, or nothing once every pixel has been handed out.
    pub fn next(&mut self) -> (item: Option<Color3>)
        requires
            old(self).wf(),
        ensures
            final(self).wf(),
            final(self)@ == old(self)@,
            final(self).width() == old(self).width(),
            final(self).height() == old(self).height(),
            item == if old(self).cursor() < old(self).pixel_count() {
                Some(old(self).pixel(old(self).cursor() as int))
            } else {
                Option::<Color3>::None
            },
            final(self).cursor() == if old(self).cursor() < old(self).pixel_count() {
                old(self).cursor() + 1
            } else {
                old(self).cursor()
            },
    {
        proof {
            self.lemma_layout();
        }
        if self.index >= self.buffer.len() / 3 {
            return None;
        }
        let start: usize = self.index * 3;
        let item = Color3 {
            r: self.buffer[start],
            g: self.buffer[start + 1],
            b: self.buffer[start + 2],
        };
        self.index = self.index + 1;
        Some(item)
    }

    /// Lays `other` over the buffer, pixel by pixel: the overlay's red, green
    /// and blue are blended over the pixel below with the overlay's alpha,
    /// as a fraction of 255, for factor. Refuses, changing nothing, an
    /// overlay of another width or height. An overlay whose alpha is zero
    /// everywhere leaves the buffer as it was.
    pub fn merge(&mut self, other: PixelBuffer<Color>) -> (done: Result<(), BufferError>)
        requires
            old(self).wf(),
            other.wf(),
        ensures
            final(self).wf(),
            final(self).width() == old(self).width(),
            final(self).height() == old(self).height(),
            final(self).cursor() == old(self).cursor(),
            done == if other.width() == old(self).width() && other.height() == old(self).height() {
                Ok::<(), BufferError>(())
            } else {
                Err::<(), BufferError>(BufferError::DimensionMismatch)
            },
            done is Err ==> final(self)@ == old(self)@,
            done is Ok ==> forall|i: int|
                0 <= i < old(self).pixel_count() ==> #[trigger] final(self).pixel(i) == overlaid(
                    old(self).pixel(i),
                    other.pixel(i),
                ),
            done is Ok && (forall|i: int|
                0 <= i < other.pixel_count() ==> (#[trigger] other.pixel(i)).a == 0) ==> final(self)@
                == old(self)@,
    {
        if other.width != self.width || other.height != self.height {
            return Err(BufferError::DimensionMismatch);
        }
        proof {
            self.lemma_layout();
            other.lemma_layout();
        }
        let count: usize = self.buffer.len() / 3;
        let mut i: usize = 0;
        while i < count
            invariant
                i <= count,
                count == old(self).pixel_count(),
                other.wf(),
                other@.len() == 4 * count,
                other@.len() <= usize::MAX,
                self.buffer@.len() == 3 * count,
                self.width == old(self).width,
                self.height == old(self).height,
                self.index == old(self).index,
                forall|j: int| 0 <= j < i ==> #[trigger] self.pixel(j) == overlaid(
                    old(self).pixel(j),
                    other.pixel(j),
                ),
                forall|j: int| i <= j < count ==> #[trigger] self.pixel(j) == old(self).pixel(j),
            decreases count - i,
        {
            let over = Color {
                r: other.buffer[4 * i],
                g: other.buffer[4 * i + 1],
                b: other.buffer[4 * i + 2],
                a: other.buffer[4 * i + 3],
            };
            let base = Color3 {
                r: self.buffer[3 * i],
                g: self.buffer[3 * i + 1],
                b: self.buffer[3 * i + 2],
            };
            assert(base == self.pixel(i as int));
            assert(over == other.pixel(i as int));
            let mixed = Color3 { r: over.r, g: over.g, b: over.b }.blend(
                base,
                Factor::Ratio { num: over.a as u32, den: 255 },
            );
            let ghost before = *self;
            self.buffer.set(3 * i, mixed.r);
            self.buffer.set(3 * i + 1, mixed.g);
            self.buffer.set(3 * i + 2, mixed.b);
            proof {
                assert(self.pixel(i as int) == mixed);
                assert forall|j: int| 0 <= j < i implies #[trigger] self.pixel(j) == overlaid(
                    old(self).pixel(j),
                    other.pixel(j),
                ) by {
                    assert(self.pixel(j) == before.pixel(j));
                }
                assert forall|j: int| i + 1 <= j < count implies #[trigger] self.pixel(j)
                    == old(self).pixel(j) by {
                    assert(self.pixel(j) == before.pixel(j));
                }
            }
            i = i + 1;
        }
        proof {
            if forall|i: int| 0 <= i < other.pixel_count() ==> (#[trigger] other.pixel(i)).a == 0 {
                assert forall|k: int| 0 <= k < self.buffer@.len() implies self.buffer@[k]
                    == old(self).buffer@[k] by {
                    let j = k / 3;
                    assert(other.pixel(j).a == 0);
                    lemma_overlaid_transparent(old(self).pixel(j), other.pixel(j));
                    assert(self.pixel(j) == old(self).pixel(j));
                }
                assert(self.buffer@ =~= old(self).buffer@);
            }
        }
        Ok(())
    }
}

} // verus!
