use vstd::prelude::*;
use crate::encoder::{JpegColorType, num_components};

verus! {

/// The luma of an RGB pixel, in units of 1/65536, rounded.
pub open spec fn luma_of(r: u8, g: u8, b: u8) -> u8 {
    ((19595 * r + 38470 * g + 7471 * b + 0x7FFF) / 65536) as u8
}

/// The blue-difference chroma of an RGB pixel, offset by 128.
pub open spec fn cb_of(r: u8, g: u8, b: u8) -> u8 {
    ((-11059 * r - 21709 * g + 32768 * b + 128 * 65536 + 0x7FFF) / 65536) as u8
}

/// The red-difference chroma of an RGB pixel, offset by 128.
pub open spec fn cr_of(r: u8, g: u8, b: u8) -> u8 {
    ((32768 * r - 27439 * g - 5329 * b + 128 * 65536 + 0x7FFF) / 65536) as u8
}

/// The three sums above stay within one byte once scaled down.
pub proof fn lemma_ycbcr_ranges(r: u8, g: u8, b: u8)
    ensures
        0 <= 19595 * r + 38470 * g + 7471 * b + 0x7FFF < 256 * 65536,
        0 <= -11059 * r - 21709 * g + 32768 * b + 128 * 65536 + 0x7FFF < 256 * 65536,
        0 <= 32768 * r - 27439 * g - 5329 * b + 128 * 65536 + 0x7FFF < 256 * 65536,
{
}

/// The conversion is the JFIF (ITU-R BT.601) one, rounded to the nearest
/// integer: the luma is within 0.502 of 0.299 R + 0.587 G + 0.114 B, the
/// blue-difference chroma within 0.503 of
/// 128 - 0.168736 R - 0.331264 G + 0.5 B, and the red-difference chroma
/// within 0.501 of 128 + 0.5 R - 0.418688 G - 0.081312 B.
pub proof fn lemma_ycbcr_bt601(r: u8, g: u8, b: u8)
    ensures
        -502 <= 1000 * luma_of(r, g, b) - (299 * r + 587 * g + 114 * b) <= 502,
        -503000 <= 1000000 * cb_of(r, g, b) - (128000000 - 168736 * r - 331264 * g + 500000 * b) <= 503000,
        -501000 <= 1000000 * cr_of(r, g, b) - (128000000 + 500000 * r - 418688 * g - 81312 * b) <= 501000,
{
    lemma_ycbcr_ranges(r, g, b);
    let ty = 19595 * r + 38470 * g + 7471 * b + 0x7FFF;
    let tb = -11059 * r - 21709 * g + 32768 * b + 128 * 65536 + 0x7FFF;
    let tr = 32768 * r - 27439 * g - 5329 * b + 128 * 65536 + 0x7FFF;
    let y = ty / 65536;
    let cb = tb / 65536;
    let cr = tr / 65536;
    assert(65536 * y <= ty < 65536 * y + 65536);
    assert(65536 * cb <= tb < 65536 * cb + 65536);
    assert(65536 * cr <= tr < 65536 * cr + 65536);
    assert(luma_of(r, g, b) == y);
    assert(cb_of(r, g, b) == cb);
    assert(cr_of(r, g, b) == cr);
}

/// Converts RGB to YCbCr with 16 fractional bits of precision:
///
/// Y  =  0.29900 * R + 0.58700 * G + 0.11400 * B
/// Cb = -0.16874 * R - 0.33126 * G + 0.50000 * B  + 128
/// Cr =  0.50000 * R - 0.41869 * G - 0.08131 * B  + 128
#[inline(always)]
pub fn rgb_to_ycbcr(r: u8, g: u8, b: u8) -> (res: (u8, u8, u8))
    ensures
        res == (luma_of(r, g, b), cb_of(r, g, b), cr_of(r, g, b)),
        -502 <= 1000 * res.0 - (299 * r + 587 * g + 114 * b) <= 502,
        -503000 <= 1000000 * res.1 - (128000000 - 168736 * r - 331264 * g + 500000 * b) <= 503000,
        -501000 <= 1000000 * res.2 - (128000000 + 500000 * r - 418688 * g - 81312 * b) <= 501000,
{
    proof {
        lemma_ycbcr_ranges(r, g, b);
        lemma_ycbcr_bt601(r, g, b);
    }
    let r = r as i32;
    let g = g as i32;
    let b = b as i32;
    assert((128i32 << 16) == 128 * 65536) by (bit_vector);

    let y = 19595 * r + 38470 * g + 7471 * b;
    let cb = -11059 * r - 21709 * g + 32768 * b + (128 << 16);
    let cr = 32768 * r - 27439 * g - 5329 * b + (128 << 16);

    let y = y + 0x7FFF;
    let cb = cb + 0x7FFF;
    let cr = cr + 0x7FFF;
    proof {
        crate::coding::lemma_shr16(y);
        crate::coding::lemma_shr16(cb);
        crate::coding::lemma_shr16(cr);
    }
    ((y >> 16) as u8, (cb >> 16) as u8, (cr >> 16) as u8)
}

/// Converts a CMYK pixel to YCCK: the first three channels as if they
/// were RGB, and K inverted.
#[inline(always)]
pub fn cmyk_to_ycck(c: u8, m: u8, y: u8, k: u8) -> (res: (u8, u8, u8, u8))
    ensures
        res == (luma_of(c, m, y), cb_of(c, m, y), cr_of(c, m, y), (255 - k) as u8),
{
    let (y, cb, cr) = rgb_to_ycbcr(c, m, y);
    (y, cb, cr, 255 - k)
}

/// # Buffer used as input value for image encoding
///
/// Image encoding with [Encoder::encode_image](crate::Encoder::encode_image) needs an ImageBuffer
/// as input for the image data. For convenience the [Encoder::encode](crate::Encoder::encode)
/// function contains implementations for common byte based pixel formats.
/// Users that needs other pixel formats or don't have the data available as byte slices
/// can create their own buffer implementations.
pub trait ImageBuffer {
    /// The color type of the JPEG data this image is encoded as.
    spec fn spec_color_type(&self) -> JpegColorType;

    spec fn spec_width(&self) -> u16;

    spec fn spec_height(&self) -> u16;

    /// The image holds the data its dimensions promise.
    spec fn valid(&self) -> bool;

    /// Component `c` of the pixel at column `x`, row `y`, in the JPEG color space.
    spec fn sample(&self, x: int, y: int, c: int) -> u8;

    /// The color type used in the image encoding
    fn get_jpeg_color_type(&self) -> (r: JpegColorType)
        ensures
            r == self.spec_color_type(),
    ;

    /// Width of the image
    fn width(&self) -> (r: u16)
        ensures
            r == self.spec_width(),
    ;

    /// Height of the image
    fn height(&self) -> (r: u16)
        ensures
            r == self.spec_height(),
    ;

    /// Add color values for the row to color component buffers
    fn fill_buffers(&self, y: u16, buffers: &mut [Vec<u8>; 4])
        requires
            self.valid(),
            y < self.spec_height(),
        ensures
            forall|c: int|
                0 <= c < 4 ==> #[trigger] final(buffers)[c]@ == if c < num_components(self.spec_color_type()) {
                    old(buffers)[c]@ + Seq::new(self.spec_width() as nat, |x: int| self.sample(x, y as int, c))
                } else {
                    old(buffers)[c]@
                },
    ;
}

/// How the bytes of a pixel become the components of a JPEG pixel.
#[derive(Clone, Copy)]
pub enum PixelLayout {
    /// One gray byte.
    Gray,
    /// `stride` bytes holding red, green and blue at the given offsets, converted to YCbCr.
    ToYcbcr { stride: usize, r: usize, g: usize, b: usize },
    /// Three bytes already in YCbCr.
    Ycbcr,
    /// Four CMYK bytes, stored inverted.
    Cmyk,
    /// Four CMYK bytes, converted to YCCK.
    CmykAsYcck,
    /// Four bytes already in YCCK.
    Ycck,
}

pub open spec fn layout_wf(l: PixelLayout) -> bool {
    match l {
        PixelLayout::ToYcbcr { stride, r, g, b } => stride <= 4 && r < stride && g < stride && b < stride,
        _ => true,
    }
}

/// The number of bytes of one pixel.
pub open spec fn layout_stride(l: PixelLayout) -> nat {
    match l {
        PixelLayout::Gray => 1,
        PixelLayout::ToYcbcr { stride, .. } => stride as nat,
        PixelLayout::Ycbcr => 3,
        _ => 4,
    }
}

/// The JPEG color type a layout produces.
pub open spec fn layout_color(l: PixelLayout) -> JpegColorType {
    match l {
        PixelLayout::Gray => JpegColorType::Luma,
        PixelLayout::ToYcbcr { .. } | PixelLayout::Ycbcr => JpegColorType::Ycbcr,
        PixelLayout::Cmyk => JpegColorType::Cmyk,
        _ => JpegColorType::Ycck,
    }
}

/// Component `c` of the pixel whose bytes are `px`.
pub open spec fn layout_component(l: PixelLayout, px: Seq<u8>, c: int) -> u8 {
    match l {
        PixelLayout::Gray => px[0],
        PixelLayout::ToYcbcr { r, g, b, .. } => {
            let (rr, gg, bb) = (px[r as int], px[g as int], px[b as int]);
            if c == 0 {
                luma_of(rr, gg, bb)
            } else if c == 1 {
                cb_of(rr, gg, bb)
            } else {
                cr_of(rr, gg, bb)
            }
        },
        PixelLayout::Ycbcr => px[c],
        PixelLayout::Cmyk => (255 - px[c]) as u8,
        PixelLayout::CmykAsYcck => {
            if c == 0 {
                luma_of(px[0], px[1], px[2])
            } else if c == 1 {
                cb_of(px[0], px[1], px[2])
            } else if c == 2 {
                cr_of(px[0], px[1], px[2])
            } else {
                (255 - px[3]) as u8
            }
        },
        PixelLayout::Ycck => px[c],
    }
}

/// The bytes of pixel (`x`, `y`) of an interleaved image `width` pixels wide.
pub open spec fn pixel_bytes(data: Seq<u8>, width: u16, l: PixelLayout, x: int, y: int) -> Seq<u8> {
    let start = (y * width + x) * layout_stride(l);
    data.subrange(start, start + layout_stride(l))
}

/// Component `c` of pixel (`x`, `y`).
pub open spec fn layout_sample(data: Seq<u8>, width: u16, l: PixelLayout, x: int, y: int, c: int) -> u8 {
    layout_component(l, pixel_bytes(data, width, l, x, y), c)
}

/// The image holds `width * height` pixels.
pub open spec fn layout_valid(data: Seq<u8>, width: u16, height: u16, l: PixelLayout) -> bool {
    data.len() >= width * height * layout_stride(l)
}

pub proof fn lemma_line_in_bounds(data_len: int, width: int, height: int, stride: int, y: int, x: int)
    requires
        0 <= x <= width,
        0 <= y < height,
        1 <= stride <= 4,
        data_len >= width * height * stride,
    ensures
        (y * width + x) * stride <= data_len,
        0 <= (y * width + x) * stride,
        x < width ==> (y * width + x) * stride + stride <= data_len,
        (y * width + x) * stride + stride == (y * width + x + 1) * stride,
{
    assert(0 <= y * width) by (nonlinear_arith)
        requires
            0 <= y,
            0 <= width,
    ;
    assert(y * width + x <= width * height) by (nonlinear_arith)
        requires
            0 <= x <= width,
            0 <= y < height,
    ;
    assert((y * width + x) * stride <= width * height * stride) by (nonlinear_arith)
        requires
            0 <= y * width + x <= width * height,
            1 <= stride,
    ;
    assert(x < width ==> (y * width + x + 1) * stride <= width * height * stride) by (nonlinear_arith)
        requires
            0 <= y,
            0 <= x,
            y < height,
            1 <= stride,
    {
        if x < width {
            assert(y * width + x + 1 <= (y + 1) * width);
            assert((y + 1) * width <= height * width);
        }
    }
    assert(0 <= (y * width + x) * stride) by (nonlinear_arith)
        requires
            0 <= y * width + x,
            1 <= stride,
    ;
    assert((y * width + x) * stride + stride == (y * width + x + 1) * stride) by (nonlinear_arith);
}

/// The components of one pixel.
fn convert_pixel(l: PixelLayout, data: &[u8], start: usize) -> (r: [u8; 4])
    requires
        layout_wf(l),
        start + layout_stride(l) <= data@.len(),
    ensures
        forall|c: int|
            0 <= c < num_components(layout_color(l)) ==> #[trigger] r[c] == layout_component(
                l,
                data@.subrange(start as int, start + layout_stride(l)),
                c,
            ),
{
    let ghost px = data@.subrange(start as int, start + layout_stride(l));
    assert(data@.len() == data.len());
    match l {
        PixelLayout::Gray => [data[start], 0, 0, 0],
        PixelLayout::ToYcbcr { stride, r, g, b } => {
            assert(start + r < start + stride && start + g < start + stride && start + b < start + stride);
            let (y, cb, cr) = rgb_to_ycbcr(data[start + r], data[start + g], data[start + b]);
            assert(px[r as int] == data@[start + r] && px[g as int] == data@[start + g] && px[b as int] == data@[start + b]);
            [y, cb, cr, 0]
        },
        PixelLayout::Ycbcr => [data[start], data[start + 1], data[start + 2], 0],
        PixelLayout::Cmyk => [
            255 - data[start],
            255 - data[start + 1],
            255 - data[start + 2],
            255 - data[start + 3],
        ],
        PixelLayout::CmykAsYcck => {
            let (y, cb, cr, k) = cmyk_to_ycck(data[start], data[start + 1], data[start + 2], data[start + 3]);
            [y, cb, cr, k]
        },
        PixelLayout::Ycck => [data[start], data[start + 1], data[start + 2], data[start + 3]],
    }
}

/// Appends row `y` of an interleaved image to the component buffers.
pub fn fill_line(data: &[u8], width: u16, height: u16, y: u16, l: PixelLayout, buffers: &mut [Vec<u8>; 4])
    requires
        layout_wf(l),
        layout_valid(data@, width, height, l),
        y < height,
    ensures
        forall|c: int|
            0 <= c < 4 ==> #[trigger] final(buffers)[c]@ == if c < num_components(layout_color(l)) {
                old(buffers)[c]@ + Seq::new(width as nat, |x: int| layout_sample(data@, width, l, x, y as int, c))
            } else {
                old(buffers)[c]@
            },
{
    let n = match l {
        PixelLayout::Gray => 1usize,
        PixelLayout::ToYcbcr { .. } | PixelLayout::Ycbcr => 3,
        _ => 4,
    };
    let stride = match l {
        PixelLayout::Gray => 1usize,
        PixelLayout::ToYcbcr { stride, .. } => stride,
        PixelLayout::Ycbcr => 3,
        _ => 4,
    };
    assert(n == num_components(layout_color(l)));
    let ghost start = *buffers;
    proof {
        assert(data@.len() == data.len());
        lemma_line_in_bounds(data@.len() as int, width as int, height as int, stride as int, y as int, 0);
        assert(y * width <= y * width * stride) by (nonlinear_arith)
            requires
                1 <= stride,
        ;
    }
    let line_start = y as usize * width as usize * stride;
    let mut x: usize = 0;
    while x < width as usize
        invariant
            x <= width,
            y < height,
            layout_wf(l),
            layout_valid(data@, width, height, l),
            n == num_components(layout_color(l)),
            stride == layout_stride(l),
            1 <= stride <= 4,
            line_start == (y * width + 0) * stride,
            forall|c: int|
                0 <= c < 4 ==> #[trigger] buffers[c]@ == if c < n {
                    start[c]@ + Seq::new(x as nat, |i: int| layout_sample(data@, width, l, i, y as int, c))
                } else {
                    start[c]@
                },
        decreases width - x,
    {
        proof {
            assert(data@.len() == data.len());
            lemma_line_in_bounds(data@.len() as int, width as int, height as int, stride as int, y as int, x as int);
            assert((y * width + x) * stride == line_start + x * stride) by (nonlinear_arith)
                requires
                    line_start == (y * width + 0) * stride,
            ;
            assert(0 <= x * stride && 0 <= line_start) by (nonlinear_arith)
                requires
                    0 <= x,
                    1 <= stride,
                    line_start == (y * width + 0) * stride,
                    0 <= y * width,
            ;
        }
        let p = line_start + x * stride;
        let px = convert_pixel(l, data, p);
        let ghost before = *buffers;
        let mut c: usize = 0;
        while c < n
            invariant
                c <= n <= 4,
                x < width,
                forall|k: int|
                    0 <= k < 4 ==> #[trigger] buffers[k]@ == if k < c {
                        before[k]@.push(px[k])
                    } else {
                        before[k]@
                    },
            decreases n - c,
        {
            buffers[c].push(px[c]);
            c += 1;
        }
        proof {
            assert forall|k: int| 0 <= k < 4 implies #[trigger] buffers[k]@ == if k < n {
                start[k]@ + Seq::new((x + 1) as nat, |i: int| layout_sample(data@, width, l, i, y as int, k))
            } else {
                start[k]@
            } by {
                if k < n {
                    assert(pixel_bytes(data@, width, l, x as int, y as int) =~= data@.subrange(p as int, p + layout_stride(l)));
                    assert(start[k]@ + Seq::new((x + 1) as nat, |i: int| layout_sample(data@, width, l, i, y as int, k))
                        =~= (start[k]@ + Seq::new(x as nat, |i: int| layout_sample(data@, width, l, i, y as int, k))).push(px[k]));
                }
            }
        }
        x += 1;
    }
}

/// Image buffer for gray images: one byte per pixel.
pub struct GrayImage<'a>(pub &'a [u8], pub u16, pub u16);

impl<'a> ImageBuffer for GrayImage<'a> {
    open spec fn spec_color_type(&self) -> JpegColorType {
        JpegColorType::Luma
    }

    open spec fn spec_width(&self) -> u16 {
        self.1
    }

    open spec fn spec_height(&self) -> u16 {
        self.2
    }

    open spec fn valid(&self) -> bool {
        layout_valid(self.0@, self.1, self.2, PixelLayout::Gray)
    }

    open spec fn sample(&self, x: int, y: int, c: int) -> u8 {
        layout_sample(self.0@, self.1, PixelLayout::Gray, x, y, c)
    }

    fn get_jpeg_color_type(&self) -> (r: JpegColorType) {
        JpegColorType::Luma
    }

    fn width(&self) -> (r: u16) {
        self.1
    }

    fn height(&self) -> (r: u16) {
        self.2
    }

    fn fill_buffers(&self, y: u16, buffers: &mut [Vec<u8>; 4]) {
        fill_line(self.0, self.1, self.2, y, PixelLayout::Gray, buffers);
    }
}

/// Image buffer for RGB images: three bytes per pixel, converted to YCbCr.
pub struct RgbImage<'a>(pub &'a [u8], pub u16, pub u16);

impl<'a> ImageBuffer for RgbImage<'a> {
    open spec fn spec_color_type(&self) -> JpegColorType {
        JpegColorType::Ycbcr
    }

    open spec fn spec_width(&self) -> u16 {
        self.1
    }

    open spec fn spec_height(&self) -> u16 {
        self.2
    }

    open spec fn valid(&self) -> bool {
        layout_valid(self.0@, self.1, self.2, PixelLayout::ToYcbcr { stride: 3, r: 0, g: 1, b: 2 })
    }

    open spec fn sample(&self, x: int, y: int, c: int) -> u8 {
        layout_sample(self.0@, self.1, PixelLayout::ToYcbcr { stride: 3, r: 0, g: 1, b: 2 }, x, y, c)
    }

    fn get_jpeg_color_type(&self) -> (r: JpegColorType) {
        JpegColorType::Ycbcr
    }

    fn width(&self) -> (r: u16) {
        self.1
    }

    fn height(&self) -> (r: u16) {
        self.2
    }

    fn fill_buffers(&self, y: u16, buffers: &mut [Vec<u8>; 4]) {
        fill_line(self.0, self.1, self.2, y, PixelLayout::ToYcbcr { stride: 3, r: 0, g: 1, b: 2 }, buffers);
    }
}

/// Image buffer for RGBA images: four bytes per pixel, alpha ignored, converted to YCbCr.
pub struct RgbaImage<'a>(pub &'a [u8], pub u16, pub u16);

impl<'a> ImageBuffer for RgbaImage<'a> {
    open spec fn spec_color_type(&self) -> JpegColorType {
        JpegColorType::Ycbcr
    }

    open spec fn spec_width(&self) -> u16 {
        self.1
    }

    open spec fn spec_height(&self) -> u16 {
        self.2
    }

    open spec fn valid(&self) -> bool {
        layout_valid(self.0@, self.1, self.2, PixelLayout::ToYcbcr { stride: 4, r: 0, g: 1, b: 2 })
    }

    open spec fn sample(&self, x: int, y: int, c: int) -> u8 {
        layout_sample(self.0@, self.1, PixelLayout::ToYcbcr { stride: 4, r: 0, g: 1, b: 2 }, x, y, c)
    }

    fn get_jpeg_color_type(&self) -> (r: JpegColorType) {
        JpegColorType::Ycbcr
    }

    fn width(&self) -> (r: u16) {
        self.1
    }

    fn height(&self) -> (r: u16) {
        self.2
    }

    fn fill_buffers(&self, y: u16, buffers: &mut [Vec<u8>; 4]) {
        fill_line(self.0, self.1, self.2, y, PixelLayout::ToYcbcr { stride: 4, r: 0, g: 1, b: 2 }, buffers);
    }
}

/// Image buffer for BGR images: three bytes per pixel, converted to YCbCr.
pub struct BgrImage<'a>(pub &'a [u8], pub u16, pub u16);

impl<'a> ImageBuffer for BgrImage<'a> {
    open spec fn spec_color_type(&self) -> JpegColorType {
        JpegColorType::Ycbcr
    }

    open spec fn spec_width(&self) -> u16 {
        self.1
    }

    open spec fn spec_height(&self) -> u16 {
        self.2
    }

    open spec fn valid(&self) -> bool {
        layout_valid(self.0@, self.1, self.2, PixelLayout::ToYcbcr { stride: 3, r: 2, g: 1, b: 0 })
    }

    open spec fn sample(&self, x: int, y: int, c: int) -> u8 {
        layout_sample(self.0@, self.1, PixelLayout::ToYcbcr { stride: 3, r: 2, g: 1, b: 0 }, x, y, c)
    }

    fn get_jpeg_color_type(&self) -> (r: JpegColorType) {
        JpegColorType::Ycbcr
    }

    fn width(&self) -> (r: u16) {
        self.1
    }

    fn height(&self) -> (r: u16) {
        self.2
    }

    fn fill_buffers(&self, y: u16, buffers: &mut [Vec<u8>; 4]) {
        fill_line(self.0, self.1, self.2, y, PixelLayout::ToYcbcr { stride: 3, r: 2, g: 1, b: 0 }, buffers);
    }
}

/// Image buffer for BGRA images: four bytes per pixel, alpha ignored, converted to YCbCr.
pub struct BgraImage<'a>(pub &'a [u8], pub u16, pub u16);

impl<'a> ImageBuffer for BgraImage<'a> {
    open spec fn spec_color_type(&self) -> JpegColorType {
        JpegColorType::Ycbcr
    }

    open spec fn spec_width(&self) -> u16 {
        self.1
    }

    open spec fn spec_height(&self) -> u16 {
        self.2
    }

    open spec fn valid(&self) -> bool {
        layout_valid(self.0@, self.1, self.2, PixelLayout::ToYcbcr { stride: 4, r: 2, g: 1, b: 0 })
    }

    open spec fn sample(&self, x: int, y: int, c: int) -> u8 {
        layout_sample(self.0@, self.1, PixelLayout::ToYcbcr { stride: 4, r: 2, g: 1, b: 0 }, x, y, c)
    }

    fn get_jpeg_color_type(&self) -> (r: JpegColorType) {
        JpegColorType::Ycbcr
    }

    fn width(&self) -> (r: u16) {
        self.1
    }

    fn height(&self) -> (r: u16) {
        self.2
    }

    fn fill_buffers(&self, y: u16, buffers: &mut [Vec<u8>; 4]) {
        fill_line(self.0, self.1, self.2, y, PixelLayout::ToYcbcr { stride: 4, r: 2, g: 1, b: 0 }, buffers);
    }
}

/// Image buffer for YCbCr images: three bytes per pixel, taken as they are.
pub struct YCbCrImage<'a>(pub &'a [u8], pub u16, pub u16);

impl<'a> ImageBuffer for YCbCrImage<'a> {
    open spec fn spec_color_type(&self) -> JpegColorType {
        JpegColorType::Ycbcr
    }

    open spec fn spec_width(&self) -> u16 {
        self.1
    }

    open spec fn spec_height(&self) -> u16 {
        self.2
    }

    open spec fn valid(&self) -> bool {
        layout_valid(self.0@, self.1, self.2, PixelLayout::Ycbcr)
    }

    open spec fn sample(&self, x: int, y: int, c: int) -> u8 {
        layout_sample(self.0@, self.1, PixelLayout::Ycbcr, x, y, c)
    }

    fn get_jpeg_color_type(&self) -> (r: JpegColorType) {
        JpegColorType::Ycbcr
    }

    fn width(&self) -> (r: u16) {
        self.1
    }

    fn height(&self) -> (r: u16) {
        self.2
    }

    fn fill_buffers(&self, y: u16, buffers: &mut [Vec<u8>; 4]) {
        fill_line(self.0, self.1, self.2, y, PixelLayout::Ycbcr, buffers);
    }
}

/// Image buffer for CMYK images: four bytes per pixel, stored inverted.
pub struct CmykImage<'a>(pub &'a [u8], pub u16, pub u16);

impl<'a> ImageBuffer for CmykImage<'a> {
    open spec fn spec_color_type(&self) -> JpegColorType {
        JpegColorType::Cmyk
    }

    open spec fn spec_width(&self) -> u16 {
        self.1
    }

    open spec fn spec_height(&self) -> u16 {
        self.2
    }

    open spec fn valid(&self) -> bool {
        layout_valid(self.0@, self.1, self.2, PixelLayout::Cmyk)
    }

    open spec fn sample(&self, x: int, y: int, c: int) -> u8 {
        layout_sample(self.0@, self.1, PixelLayout::Cmyk, x, y, c)
    }

    fn get_jpeg_color_type(&self) -> (r: JpegColorType) {
        JpegColorType::Cmyk
    }

    fn width(&self) -> (r: u16) {
        self.1
    }

    fn height(&self) -> (r: u16) {
        self.2
    }

    fn fill_buffers(&self, y: u16, buffers: &mut [Vec<u8>; 4]) {
        fill_line(self.0, self.1, self.2, y, PixelLayout::Cmyk, buffers);
    }
}

/// Image buffer for CMYK images, encoded as YCCK.
pub struct CmykAsYcckImage<'a>(pub &'a [u8], pub u16, pub u16);

impl<'a> ImageBuffer for CmykAsYcckImage<'a> {
    open spec fn spec_color_type(&self) -> JpegColorType {
        JpegColorType::Ycck
    }

    open spec fn spec_width(&self) -> u16 {
        self.1
    }

    open spec fn spec_height(&self) -> u16 {
        self.2
    }

    open spec fn valid(&self) -> bool {
        layout_valid(self.0@, self.1, self.2, PixelLayout::CmykAsYcck)
    }

    open spec fn sample(&self, x: int, y: int, c: int) -> u8 {
        layout_sample(self.0@, self.1, PixelLayout::CmykAsYcck, x, y, c)
    }

    fn get_jpeg_color_type(&self) -> (r: JpegColorType) {
        JpegColorType::Ycck
    }

    fn width(&self) -> (r: u16) {
        self.1
    }

    fn height(&self) -> (r: u16) {
        self.2
    }

    fn fill_buffers(&self, y: u16, buffers: &mut [Vec<u8>; 4]) {
        fill_line(self.0, self.1, self.2, y, PixelLayout::CmykAsYcck, buffers);
    }
}

/// Image buffer for YCCK images: four bytes per pixel, taken as they are.
pub struct YcckImage<'a>(pub &'a [u8], pub u16, pub u16);

impl<'a> ImageBuffer for YcckImage<'a> {
    open spec fn spec_color_type(&self) -> JpegColorType {
        JpegColorType::Ycck
    }

    open spec fn spec_width(&self) -> u16 {
        self.1
    }

    open spec fn spec_height(&self) -> u16 {
        self.2
    }

    open spec fn valid(&self) -> bool {
        layout_valid(self.0@, self.1, self.2, PixelLayout::Ycck)
    }

    open spec fn sample(&self, x: int, y: int, c: int) -> u8 {
        layout_sample(self.0@, self.1, PixelLayout::Ycck, x, y, c)
    }

    fn get_jpeg_color_type(&self) -> (r: JpegColorType) {
        JpegColorType::Ycck
    }

    fn width(&self) -> (r: u16) {
        self.1
    }

    fn height(&self) -> (r: u16) {
        self.2
    }

    fn fill_buffers(&self, y: u16, buffers: &mut [Vec<u8>; 4]) {
        fill_line(self.0, self.1, self.2, y, PixelLayout::Ycck, buffers);
    }
}

} // verus!
