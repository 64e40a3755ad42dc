use vstd::prelude::*;
use crate::encoder::{JpegColorType, num_components};
use crate::image_buffer::{
    ImageBuffer, PixelLayout, layout_valid, layout_sample, layout_stride, layout_color, layout_wf,
    pixel_bytes, luma_of, cb_of, cr_of, lemma_ycbcr_ranges, lemma_line_in_bounds, rgb_to_ycbcr,
    RgbImage, RgbaImage, BgrImage, BgraImage,
};

verus! {

/// Number of pixels converted together.
pub const SIMD_I32_WIDTH: usize = 8;

/// The red, green and blue values of eight pixels.
pub struct SimdRgb {
    pub r: [u8; 8],
    pub g: [u8; 8],
    pub b: [u8; 8],
}

/// The luma and chroma values of eight pixels.
pub struct SimdYCbCr {
    pub y: [u8; 8],
    pub cb: [u8; 8],
    pub cr: [u8; 8],
}

/// The lane indexes that pick channel `chunk_idx` out of pixels of
/// `chunk_size` bytes.
pub fn gen_swizzler(chunk_idx: usize, chunk_size: usize) -> (out: [usize; 8])
    requires
        chunk_idx < chunk_size <= 4,
    ensures
        forall|i: int| 0 <= i < 8 ==> #[trigger] out[i] == i * chunk_size + chunk_idx,
{
    let mut out = [0usize; 8];
    let mut i: usize = 0;
    while i < 8
        invariant
            i <= 8,
            chunk_idx < chunk_size <= 4,
            forall|k: int| 0 <= k < i ==> #[trigger] out[k] == k * chunk_size + chunk_idx,
        decreases 8 - i,
    {
        assert(i * chunk_size <= 7 * 4) by (nonlinear_arith)
            requires
                i < 8,
                chunk_size <= 4,
        ;
        out[i] = (i * chunk_size) + chunk_idx;
        i += 1;
    }
    out
}

/// Picks the bytes at `offset + idx[i]`.
fn swizzle(data: &[u8], offset: usize, idx: &[usize; 8]) -> (r: [u8; 8])
    requires
        forall|i: int| 0 <= i < 8 ==> offset + #[trigger] idx[i] < data@.len(),
    ensures
        forall|i: int| 0 <= i < 8 ==> #[trigger] r[i] == data@[offset + idx[i]],
{
    let mut r = [0u8; 8];
    let mut i: usize = 0;
    while i < 8
        invariant
            i <= 8,
            forall|k: int| 0 <= k < 8 ==> offset + #[trigger] idx[k] < data@.len(),
            forall|k: int| 0 <= k < i ==> #[trigger] r[k] == data@[offset + idx[k]],
        decreases 8 - i,
    {
        assert(data@.len() == data.len());
        r[i] = data[offset + idx[i]];
        i += 1;
    }
    r
}

/// The channel layout of the pixels loaded eight at a time.
#[derive(Clone, Copy)]
pub enum SimdLoad {
    Rgb,
    Bgr,
    Rgba,
    Bgra,
}

pub open spec fn load_layout(k: SimdLoad) -> PixelLayout {
    match k {
        SimdLoad::Rgb => PixelLayout::ToYcbcr { stride: 3, r: 0, g: 1, b: 2 },
        SimdLoad::Bgr => PixelLayout::ToYcbcr { stride: 3, r: 2, g: 1, b: 0 },
        SimdLoad::Rgba => PixelLayout::ToYcbcr { stride: 4, r: 0, g: 1, b: 2 },
        SimdLoad::Bgra => PixelLayout::ToYcbcr { stride: 4, r: 2, g: 1, b: 0 },
    }
}

/// What a load leaves in the lanes: the channels of eight consecutive
/// pixels starting at byte `offset`.
pub open spec fn loaded(data: Seq<u8>, offset: int, stride: int, r: int, g: int, b: int, rgb: SimdRgb) -> bool {
    forall|i: int|
        0 <= i < 8 ==> #[trigger] rgb.r[i] == data[offset + i * stride + r] && rgb.g[i] == data[offset + i
            * stride + g] && rgb.b[i] == data[offset + i * stride + b]
}

#[inline(always)]
fn load_rgb(data: &[u8], offset: usize) -> (rgb: SimdRgb)
    requires
        offset + 3 * 8 <= data@.len(),
    ensures
        loaded(data@, offset as int, 3, 0, 1, 2, rgb),
{
    SimdRgb {
        r: swizzle(data, offset, &gen_swizzler(0, 3)),
        g: swizzle(data, offset, &gen_swizzler(1, 3)),
        b: swizzle(data, offset, &gen_swizzler(2, 3)),
    }
}

#[inline(always)]
fn load_bgr(data: &[u8], offset: usize) -> (rgb: SimdRgb)
    requires
        offset + 3 * 8 <= data@.len(),
    ensures
        loaded(data@, offset as int, 3, 2, 1, 0, rgb),
{
    SimdRgb {
        r: swizzle(data, offset, &gen_swizzler(2, 3)),
        g: swizzle(data, offset, &gen_swizzler(1, 3)),
        b: swizzle(data, offset, &gen_swizzler(0, 3)),
    }
}

#[inline(always)]
fn load_rgba(data: &[u8], offset: usize) -> (rgb: SimdRgb)
    requires
        offset + 4 * 8 <= data@.len(),
    ensures
        loaded(data@, offset as int, 4, 0, 1, 2, rgb),
{
    SimdRgb {
        r: swizzle(data, offset, &gen_swizzler(0, 4)),
        g: swizzle(data, offset, &gen_swizzler(1, 4)),
        b: swizzle(data, offset, &gen_swizzler(2, 4)),
    }
}

#[inline(always)]
fn load_bgra(data: &[u8], offset: usize) -> (rgb: SimdRgb)
    requires
        offset + 4 * 8 <= data@.len(),
    ensures
        loaded(data@, offset as int, 4, 2, 1, 0, rgb),
{
    SimdRgb {
        r: swizzle(data, offset, &gen_swizzler(2, 4)),
        g: swizzle(data, offset, &gen_swizzler(1, 4)),
        b: swizzle(data, offset, &gen_swizzler(0, 4)),
    }
}

/// Converts eight pixels to YCbCr, lane by lane, with the arithmetic of
/// [rgb_to_ycbcr](crate::image_buffer::rgb_to_ycbcr).
#[inline(always)]
fn convert_rgb(rgb: SimdRgb) -> (res: SimdYCbCr)
    ensures
        forall|i: int|
            0 <= i < 8 ==> #[trigger] res.y[i] == luma_of(rgb.r[i], rgb.g[i], rgb.b[i]) && res.cb[i]
                == cb_of(rgb.r[i], rgb.g[i], rgb.b[i]) && res.cr[i] == cr_of(rgb.r[i], rgb.g[i], rgb.b[i]),
{
    let rounding: i32 = 0x7FFF;
    let mut y = [0u8; 8];
    let mut cb = [0u8; 8];
    let mut cr = [0u8; 8];
    let mut i: usize = 0;
    while i < 8
        invariant
            i <= 8,
            rounding == 0x7FFF,
            forall|k: int|
                0 <= k < i ==> #[trigger] y[k] == luma_of(rgb.r[k], rgb.g[k], rgb.b[k]) && cb[k] == cb_of(
                    rgb.r[k],
                    rgb.g[k],
                    rgb.b[k],
                ) && cr[k] == cr_of(rgb.r[k], rgb.g[k], rgb.b[k]),
        decreases 8 - i,
    {
        proof {
            lemma_ycbcr_ranges(rgb.r[i as int], rgb.g[i as int], rgb.b[i as int]);
        }
        let r = rgb.r[i] as i32;
        let g = rgb.g[i] as i32;
        let b = rgb.b[i] as i32;
        let ys = 19595 * r + 38470 * g + 7471 * b + rounding;
        let cbs = -11059 * r - 21709 * g + 32768 * b + 128 * 65536 + rounding;
        let crs = 32768 * r - 27439 * g - 5329 * b + 128 * 65536 + rounding;
        proof {
            crate::coding::lemma_shr16(ys);
            crate::coding::lemma_shr16(cbs);
            crate::coding::lemma_shr16(crs);
        }
        y[i] = (ys >> 16) as u8;
        cb[i] = (cbs >> 16) as u8;
        cr[i] = (crs >> 16) as u8;
        assert(y[i as int] == luma_of(rgb.r[i as int], rgb.g[i as int], rgb.b[i as int]));
        assert(cb[i as int] == cb_of(rgb.r[i as int], rgb.g[i as int], rgb.b[i as int]));
        assert(cr[i as int] == cr_of(rgb.r[i as int], rgb.g[i as int], rgb.b[i as int]));
        i += 1;
    }
    SimdYCbCr { y, cb, cr }
}

#[inline(always)]
fn extend_from_simd(buffer: &mut Vec<u8>, values: [u8; 8])
    ensures
        final(buffer)@ == old(buffer)@ + values@,
{
    let ghost start = buffer@;
    let mut i: usize = 0;
    while i < 8
        invariant
            i <= 8,
            buffer@ == start + values@.take(i as int),
        decreases 8 - i,
    {
        buffer.push(values[i]);
        i += 1;
        assert(start + values@.take(i as int) =~= (start + values@.take(i - 1)).push(values@[i - 1]));
    }
    assert(values@.take(8) =~= values@);
}

fn load_channels(kind: SimdLoad, data: &[u8], offset: usize) -> (rgb: SimdRgb)
    requires
        offset + layout_stride(load_layout(kind)) * 8 <= data@.len(),
    ensures
        match load_layout(kind) {
            PixelLayout::ToYcbcr { stride, r, g, b } => loaded(
                data@,
                offset as int,
                stride as int,
                r as int,
                g as int,
                b as int,
                rgb,
            ),
            _ => false,
        },
{
    match kind {
        SimdLoad::Rgb => load_rgb(data, offset),
        SimdLoad::Bgr => load_bgr(data, offset),
        SimdLoad::Rgba => load_rgba(data, offset),
        SimdLoad::Bgra => load_bgra(data, offset),
    }
}

/// The samples of the first `n` pixels of row `y` for component `c`.
pub open spec fn row_prefix(data: Seq<u8>, width: u16, l: PixelLayout, y: int, c: int, n: nat) -> Seq<u8> {
    Seq::new(n, |x: int| layout_sample(data, width, l, x, y, c))
}

/// Appends row `y` to the component buffers, eight pixels at a time and
/// the remaining pixels one by one.
#[verifier::rlimit(40)]
fn fill_buffers_simd(data: &[u8], width: u16, height: u16, y: u16, kind: SimdLoad, buffers: &mut [Vec<u8>; 4])
    requires
        layout_valid(data@, width, height, load_layout(kind)),
        y < height,
    ensures
        forall|c: int|
            0 <= c < 4 ==> #[trigger] final(buffers)[c]@ == if c < 3 {
                old(buffers)[c]@ + row_prefix(data@, width, load_layout(kind), y as int, c, width as nat)
            } else {
                old(buffers)[c]@
            },
{
    let ghost l = load_layout(kind);
    let ghost start = *buffers;
    let num_colors: usize = match kind {
        SimdLoad::Rgb | SimdLoad::Bgr => 3,
        SimdLoad::Rgba | SimdLoad::Bgra => 4,
    };
    let (ro, go, bo): (usize, usize, usize) = match kind {
        SimdLoad::Rgb | SimdLoad::Rgba => (0, 1, 2),
        SimdLoad::Bgr | SimdLoad::Bgra => (2, 1, 0),
    };
    assert(l == (PixelLayout::ToYcbcr { stride: num_colors, r: ro, g: go, b: bo }));
    let width_px = width as usize;
    proof {
        assert(data@.len() == data.len());
        lemma_line_in_bounds(data@.len() as int, width as int, height as int, num_colors as int, y as int, 0);
        assert(y * width <= y * width * num_colors) by (nonlinear_arith)
            requires
                1 <= num_colors,
        ;
    }
    let line_start = y as usize * width_px * num_colors;

    let mut x: usize = 0;
    while x + SIMD_I32_WIDTH <= width_px
        invariant
            x <= width_px,
            width_px == width,
            y < height,
            layout_valid(data@, width, height, l),
            l == load_layout(kind),
            l == (PixelLayout::ToYcbcr { stride: num_colors, r: ro, g: go, b: bo }),
            num_colors == 3 || num_colors == 4,
            ro < num_colors && go < num_colors && bo < num_colors,
            line_start == (y * width + 0) * num_colors,
            data@.len() == data.len(),
            forall|c: int|
                0 <= c < 4 ==> #[trigger] buffers[c]@ == if c < 3 {
                    start[c]@ + row_prefix(data@, width, l, y as int, c, x as nat)
                } else {
                    start[c]@
                },
        decreases width_px - x,
    {
        proof {
            lemma_line_in_bounds(data@.len() as int, width as int, height as int, num_colors as int, y as int, x as int);
            lemma_line_in_bounds(data@.len() as int, width as int, height as int, num_colors as int, y as int, (x + 8) as int);
            assert((y * width + x) * num_colors == line_start + x * num_colors) by (nonlinear_arith)
                requires
                    line_start == (y * width + 0) * num_colors,
            ;
            assert((y * width + x + 8) * num_colors == line_start + x * num_colors + num_colors * 8) by (nonlinear_arith)
                requires
                    line_start == (y * width + 0) * num_colors,
            ;
            assert(0 <= x * num_colors) by (nonlinear_arith)
                requires
                    0 <= x,
                    1 <= num_colors,
            ;
        }
        let offset = line_start + x * num_colors;
        let rgb = load_channels(kind, data, offset);
        let ycbcr = convert_rgb(rgb);
        let ghost before = *buffers;
        extend_from_simd(&mut buffers[0], ycbcr.y);
        extend_from_simd(&mut buffers[1], ycbcr.cb);
        extend_from_simd(&mut buffers[2], ycbcr.cr);
        proof {
            assert forall|c: int| 0 <= c < 4 implies #[trigger] buffers[c]@ == if c < 3 {
                start[c]@ + row_prefix(data@, width, l, y as int, c, (x + 8) as nat)
            } else {
                start[c]@
            } by {
                if c < 3 {
                    let lanes = if c == 0 { ycbcr.y } else if c == 1 { ycbcr.cb } else { ycbcr.cr };
                    assert(buffers[c]@ == before[c]@ + lanes@);
                    assert forall|i: int| 0 <= i < 8 implies lanes@[i] == layout_sample(data@, width, l, x + i, y as int, c) by {
                        let p = (y * width + (x + i)) * num_colors;
                        assert(p == offset + i * num_colors) by (nonlinear_arith)
                            requires
                                p == (y * width + (x + i)) * num_colors,
                                offset == line_start + x * num_colors,
                                line_start == (y * width + 0) * num_colors,
                        ;
                        let px = pixel_bytes(data@, width, l, x + i, y as int);
                        assert(layout_stride(l) == num_colors);
                        assert(px =~= data@.subrange(p, p + num_colors));
                        assert(px[ro as int] == data@[offset + i * num_colors + ro]);
                        assert(px[go as int] == data@[offset + i * num_colors + go]);
                        assert(px[bo as int] == data@[offset + i * num_colors + bo]);
                        assert(ycbcr.y[i] == luma_of(rgb.r[i], rgb.g[i], rgb.b[i]));
                    }
                    assert(row_prefix(data@, width, l, y as int, c, (x + 8) as nat) =~= row_prefix(data@, width, l, y as int, c, x as nat) + lanes@);
                }
            }
        }
        x += SIMD_I32_WIDTH;
    }

    while x < width_px
        invariant
            x <= width_px,
            width_px == width,
            y < height,
            layout_valid(data@, width, height, l),
            l == (PixelLayout::ToYcbcr { stride: num_colors, r: ro, g: go, b: bo }),
            num_colors == 3 || num_colors == 4,
            ro < num_colors && go < num_colors && bo < num_colors,
            line_start == (y * width + 0) * num_colors,
            data@.len() == data.len(),
            forall|c: int|
                0 <= c < 4 ==> #[trigger] buffers[c]@ == if c < 3 {
                    start[c]@ + row_prefix(data@, width, l, y as int, c, x as nat)
                } else {
                    start[c]@
                },
        decreases width_px - x,
    {
        proof {
            lemma_line_in_bounds(data@.len() as int, width as int, height as int, num_colors as int, y as int, x as int);
            assert((y * width + x) * num_colors == line_start + x * num_colors) by (nonlinear_arith)
                requires
                    line_start == (y * width + 0) * num_colors,
            ;
            assert(0 <= x * num_colors) by (nonlinear_arith)
                requires
                    0 <= x,
                    1 <= num_colors,
            ;
        }
        let p = line_start + x * num_colors;
        let (luma, cb, cr) = rgb_to_ycbcr(data[p + ro], data[p + go], data[p + bo]);
        let ghost before = *buffers;
        buffers[0].push(luma);
        buffers[1].push(cb);
        buffers[2].push(cr);
        proof {
            let px = pixel_bytes(data@, width, l, x as int, y as int);
            assert(layout_stride(l) == num_colors);
            assert(px =~= data@.subrange(p as int, p + num_colors));
            assert(px[ro as int] == data@[p + ro]);
            assert(px[go as int] == data@[p + go]);
            assert(px[bo as int] == data@[p + bo]);
            assert forall|c: int| 0 <= c < 4 implies #[trigger] buffers[c]@ == if c < 3 {
                start[c]@ + row_prefix(data@, width, l, y as int, c, (x + 1) as nat)
            } else {
                start[c]@
            } by {
                if c < 3 {
                    assert(row_prefix(data@, width, l, y as int, c, (x + 1) as nat) =~= row_prefix(data@, width, l, y as int, c, x as nat).push(
                        layout_sample(data@, width, l, x as int, y as int, c)));
                }
            }
        }
        x += 1;
    }
}

/// Image buffer for RGB, three bytes per pixel, converted to YCbCr eight pixels at a time.
pub struct RgbImageSimd<'a>(pub &'a [u8], pub u16, pub u16);

impl<'a> ImageBuffer for RgbImageSimd<'a> {
    open spec fn spec_color_type(&self) -> JpegColorType {
        JpegColorType::Ycbcr
    }

    open spec fn spec_width(&self) -> u16 {
        self.1
    }

    open spec fn spec_height(&self) -> u16 {
        self.2
    }

    open spec fn valid(&self) -> bool {
        layout_valid(self.0@, self.1, self.2, PixelLayout::ToYcbcr { stride: 3, r: 0, g: 1, b: 2 })
    }

    open spec fn sample(&self, x: int, y: int, c: int) -> u8 {
        layout_sample(self.0@, self.1, PixelLayout::ToYcbcr { stride: 3, r: 0, g: 1, b: 2 }, x, y, c)
    }

    fn get_jpeg_color_type(&self) -> (r: JpegColorType) {
        JpegColorType::Ycbcr
    }

    fn width(&self) -> (r: u16) {
        self.1
    }

    fn height(&self) -> (r: u16) {
        self.2
    }

    #[inline(always)]
    fn fill_buffers(&self, y: u16, buffers: &mut [Vec<u8>; 4]) {
        fill_buffers_simd(self.0, self.1, self.2, y, SimdLoad::Rgb, buffers);
        assert forall|c: int| 0 <= c < 3 implies row_prefix(self.0@, self.1, PixelLayout::ToYcbcr { stride: 3, r: 0, g: 1, b: 2 }, y as int, c, self.1 as nat)
            =~= Seq::new(self.1 as nat, |x: int| self.sample(x, y as int, c)) by {}
    }
}

/// Image buffer for RGBA, four bytes per pixel, alpha ignored, converted to YCbCr eight pixels at a time.
pub struct RgbaImageSimd<'a>(pub &'a [u8], pub u16, pub u16);

impl<'a> ImageBuffer for RgbaImageSimd<'a> {
    open spec fn spec_color_type(&self) -> JpegColorType {
        JpegColorType::Ycbcr
    }

    open spec fn spec_width(&self) -> u16 {
        self.1
    }

    open spec fn spec_height(&self) -> u16 {
        self.2
    }

    open spec fn valid(&self) -> bool {
        layout_valid(self.0@, self.1, self.2, PixelLayout::ToYcbcr { stride: 4, r: 0, g: 1, b: 2 })
    }

    open spec fn sample(&self, x: int, y: int, c: int) -> u8 {
        layout_sample(self.0@, self.1, PixelLayout::ToYcbcr { stride: 4, r: 0, g: 1, b: 2 }, x, y, c)
    }

    fn get_jpeg_color_type(&self) -> (r: JpegColorType) {
        JpegColorType::Ycbcr
    }

    fn width(&self) -> (r: u16) {
        self.1
    }

    fn height(&self) -> (r: u16) {
        self.2
    }

    #[inline(always)]
    fn fill_buffers(&self, y: u16, buffers: &mut [Vec<u8>; 4]) {
        fill_buffers_simd(self.0, self.1, self.2, y, SimdLoad::Rgba, buffers);
        assert forall|c: int| 0 <= c < 3 implies row_prefix(self.0@, self.1, PixelLayout::ToYcbcr { stride: 4, r: 0, g: 1, b: 2 }, y as int, c, self.1 as nat)
            =~= Seq::new(self.1 as nat, |x: int| self.sample(x, y as int, c)) by {}
    }
}

/// Image buffer for BGR, three bytes per pixel, converted to YCbCr eight pixels at a time.
pub struct BgrImageSimd<'a>(pub &'a [u8], pub u16, pub u16);

impl<'a> ImageBuffer for BgrImageSimd<'a> {
    open spec fn spec_color_type(&self) -> JpegColorType {
        JpegColorType::Ycbcr
    }

    open spec fn spec_width(&self) -> u16 {
        self.1
    }

    open spec fn spec_height(&self) -> u16 {
        self.2
    }

    open spec fn valid(&self) -> bool {
        layout_valid(self.0@, self.1, self.2, PixelLayout::ToYcbcr { stride: 3, r: 2, g: 1, b: 0 })
    }

    open spec fn sample(&self, x: int, y: int, c: int) -> u8 {
        layout_sample(self.0@, self.1, PixelLayout::ToYcbcr { stride: 3, r: 2, g: 1, b: 0 }, x, y, c)
    }

    fn get_jpeg_color_type(&self) -> (r: JpegColorType) {
        JpegColorType::Ycbcr
    }

    fn width(&self) -> (r: u16) {
        self.1
    }

    fn height(&self) -> (r: u16) {
        self.2
    }

    #[inline(always)]
    fn fill_buffers(&self, y: u16, buffers: &mut [Vec<u8>; 4]) {
        fill_buffers_simd(self.0, self.1, self.2, y, SimdLoad::Bgr, buffers);
        assert forall|c: int| 0 <= c < 3 implies row_prefix(self.0@, self.1, PixelLayout::ToYcbcr { stride: 3, r: 2, g: 1, b: 0 }, y as int, c, self.1 as nat)
            =~= Seq::new(self.1 as nat, |x: int| self.sample(x, y as int, c)) by {}
    }
}

/// Image buffer for BGRA, four bytes per pixel, alpha ignored, converted to YCbCr eight pixels at a time.
pub struct BgraImageSimd<'a>(pub &'a [u8], pub u16, pub u16);

impl<'a> ImageBuffer for BgraImageSimd<'a> {
    open spec fn spec_color_type(&self) -> JpegColorType {
        JpegColorType::Ycbcr
    }

    open spec fn spec_width(&self) -> u16 {
        self.1
    }

    open spec fn spec_height(&self) -> u16 {
        self.2
    }

    open spec fn valid(&self) -> bool {
        layout_valid(self.0@, self.1, self.2, PixelLayout::ToYcbcr { stride: 4, r: 2, g: 1, b: 0 })
    }

    open spec fn sample(&self, x: int, y: int, c: int) -> u8 {
        layout_sample(self.0@, self.1, PixelLayout::ToYcbcr { stride: 4, r: 2, g: 1, b: 0 }, x, y, c)
    }

    fn get_jpeg_color_type(&self) -> (r: JpegColorType) {
        JpegColorType::Ycbcr
    }

    fn width(&self) -> (r: u16) {
        self.1
    }

    fn height(&self) -> (r: u16) {
        self.2
    }

    #[inline(always)]
    fn fill_buffers(&self, y: u16, buffers: &mut [Vec<u8>; 4]) {
        fill_buffers_simd(self.0, self.1, self.2, y, SimdLoad::Bgra, buffers);
        assert forall|c: int| 0 <= c < 3 implies row_prefix(self.0@, self.1, PixelLayout::ToYcbcr { stride: 4, r: 2, g: 1, b: 0 }, y as int, c, self.1 as nat)
            =~= Seq::new(self.1 as nat, |x: int| self.sample(x, y as int, c)) by {}
    }
}

/// Filling a row of an image through the eight-lane conversion leaves the
/// same buffers as the pixel-by-pixel conversion of the same bytes.
pub proof fn lemma_simd_fill_matches_scalar(
    data: &[u8],
    width: u16,
    height: u16,
    y: int,
    c: int,
    x: int,
)
    ensures
        RgbImageSimd(data, width, height).sample(x, y, c) == RgbImage(data, width, height).sample(x, y, c),
        RgbaImageSimd(data, width, height).sample(x, y, c) == RgbaImage(data, width, height).sample(x, y, c),
        BgrImageSimd(data, width, height).sample(x, y, c) == BgrImage(data, width, height).sample(x, y, c),
        BgraImageSimd(data, width, height).sample(x, y, c) == BgraImage(data, width, height).sample(x, y, c),
        RgbImageSimd(data, width, height).valid() == RgbImage(data, width, height).valid(),
        RgbaImageSimd(data, width, height).valid() == RgbaImage(data, width, height).valid(),
        BgrImageSimd(data, width, height).valid() == BgrImage(data, width, height).valid(),
        BgraImageSimd(data, width, height).valid() == BgraImage(data, width, height).valid(),
{
}

} // verus!
