use vstd::prelude::*;
use crate::coding::{abs, category, lemma_category_le};
use vstd::arithmetic::power2::{pow2, lemma2_to64};
use crate::bit_stream::BitStream;
use crate::writer::{JfifWriter, PixelDensity};
use crate::huffman::{HuffmanTable, default_tables};
use crate::quantization::{QuantizationTableType, QuantizationTable, BlockQuantizer, quantize_value};
use crate::fdct::{FDCT, fdct_spec};
use crate::image_buffer::{ImageBuffer, GrayImage, YCbCrImage, CmykImage, CmykAsYcckImage, YcckImage, layout_valid, PixelLayout};
use crate::simd::ycbcr::{RgbImageSimd, RgbaImageSimd, BgrImageSimd, BgraImageSimd};
use crate::simd::{SimdFDCT, SimdBlockQuantizer, SimdHuffmanEncoder};
use crate::writer::{ZIGZAG, frame_header_bytes, quantization_segment_bytes, huffman_segment_bytes,
    dri_bytes, scan_header_bytes};
use crate::huffman::{CodingClass, dc_bits, ac_bits, block_bits, block_codable, all_codable};
use crate::huffman::encoder::{HuffmanEncoder, DefaultHuffmanEncoder};
use crate::quantization::{table_in_range, table_consistent, lemma_quantize_value_bounds, divisor};
use crate::writer::{marker_bytes, header_bytes, segment_bytes};
use crate::marker::Marker;
use crate::bit_stream::{wrote_bytes, wrote_bits, lemma_wrote_bytes_trans};
use crate::scan::{restart_before, scan_state, scan_bytes, counters_ok, holds_scan, lemma_counters_step,
    lemma_unit_written, lemma_scan_start, restart_if_due, finish_scan};
use crate::coding::codable;
use crate::huffman::optimize::{new_optimized, optimized_code};
use vstd::arithmetic::div_mod::lemma_fundamental_div_mod_converse;
use crate::EncodingError;
use crate::quantized_block_iter::{lemma_block_geometry, encode_blocks as block_iterators, component_iter, lemma_iter_blocks, collect_blocks,
    block_lists, block_lists_new, block_lists_len, block_lists_push, block_lists_into_array};

verus! {

/// # Color types used in encoding
#[derive(Copy, Clone, Debug, Eq, PartialEq, Structural)]
pub enum JpegColorType {
    /// One component grayscale colorspace
    Luma,
    /// Three component YCbCr colorspace
    Ycbcr,
    /// 4 Component CMYK colorspace
    Cmyk,
    /// 4 Component YCbCrK colorspace
    Ycck,
}

/// A block of 8x8 samples or coefficients.
#[derive(Copy, Clone, Debug, PartialEq, Eq)]
pub struct AlignedBlock {
    pub data: [i16; 64],
}

impl AlignedBlock {
    pub fn new(data: [i16; 64]) -> (b: Self)
        ensures
            b.data == data,
    {
        AlignedBlock { data }
    }
}

impl Default for AlignedBlock {
    fn default() -> (b: Self)
        ensures
            forall|i: int| 0 <= i < 64 ==> b.data[i] == 0,
    {
        AlignedBlock { data: [0i16;64] }
    }
}

pub open spec fn num_components(c: JpegColorType) -> nat {
    match c {
        JpegColorType::Luma => 1,
        JpegColorType::Ycbcr => 3,
        JpegColorType::Cmyk => 4,
        JpegColorType::Ycck => 4,
    }
}

impl JpegColorType {
    pub fn get_num_components(self) -> (n: usize)
        ensures
            n == num_components(self),
    {
        match self {
            JpegColorType::Luma => 1,
            JpegColorType::Ycbcr => 3,
            JpegColorType::Cmyk | JpegColorType::Ycck => 4,
        }
    }
}

/// # Color types for input images
///
/// Available color input formats for [Encoder::encode].
#[derive(Copy, Clone, Debug, Eq, PartialEq, Structural)]
pub enum ColorType {
    /// Grayscale with 1 byte per pixel
    Luma,
    /// RGB with 3 bytes per pixel
    Rgb,
    /// Red, Green, Blue with 4 bytes per pixel. The alpha channel will be ignored during encoding.
    Rgba,
    /// RGB with 3 bytes per pixel
    Bgr,
    /// RGBA with 4 bytes per pixel. The alpha channel will be ignored during encoding.
    Bgra,
    /// YCbCr with 3 bytes per pixel.
    Ycbcr,
    /// CMYK with 4 bytes per pixel.
    Cmyk,
    /// CMYK with 4 bytes per pixel. Encoded as YCCK (YCbCrK)
    CmykAsYcck,
    /// YCCK (YCbCrK) with 4 bytes per pixel.
    Ycck,
}

pub open spec fn bytes_per_pixel(c: ColorType) -> nat {
    match c {
        ColorType::Luma => 1,
        ColorType::Rgb | ColorType::Bgr | ColorType::Ycbcr => 3,
        _ => 4,
    }
}

impl ColorType {
    pub fn get_bytes_per_pixel(self) -> (n: usize)
        ensures
            n == bytes_per_pixel(self),
    {
        match self {
            ColorType::Luma => 1,
            ColorType::Rgb | ColorType::Bgr | ColorType::Ycbcr => 3,
            ColorType::Rgba | ColorType::Bgra | ColorType::Cmyk | ColorType::CmykAsYcck
            | ColorType::Ycck => 4,
        }
    }
}

/// # Sampling factors for chroma subsampling
///
/// ## Warning
/// Sampling factor of 4 are not supported by all decoders or applications
#[allow(non_camel_case_types)]
#[derive(Copy, Clone, Debug, Eq, PartialEq, Structural)]
pub enum SamplingFactor {
    F_1_1,
    F_2_1,
    F_1_2,
    F_2_2,
    F_4_1,
    F_4_2,
    F_1_4,
    F_2_4,
    /// Alias for F_1_1
    R_4_4_4,
    /// Alias for F_1_2
    R_4_4_0,
    /// Alias for F_1_4
    R_4_4_1,
    /// Alias for F_2_1
    R_4_2_2,
    /// Alias for F_2_2
    R_4_2_0,
    /// Alias for F_2_4
    R_4_2_1,
    /// Alias for F_4_1
    R_4_1_1,
    /// Alias for F_4_2
    R_4_1_0,
}

/// The (horizontal, vertical) factors of each variant.
pub open spec fn factors(s: SamplingFactor) -> (u8, u8) {
    match s {
        SamplingFactor::F_1_1 | SamplingFactor::R_4_4_4 => (1, 1),
        SamplingFactor::F_2_1 | SamplingFactor::R_4_2_2 => (2, 1),
        SamplingFactor::F_1_2 | SamplingFactor::R_4_4_0 => (1, 2),
        SamplingFactor::F_2_2 | SamplingFactor::R_4_2_0 => (2, 2),
        SamplingFactor::F_4_1 | SamplingFactor::R_4_1_1 => (4, 1),
        SamplingFactor::F_4_2 | SamplingFactor::R_4_1_0 => (4, 2),
        SamplingFactor::F_1_4 | SamplingFactor::R_4_4_1 => (1, 4),
        SamplingFactor::F_2_4 | SamplingFactor::R_4_2_1 => (2, 4),
    }
}

/// The factor pairs the encoder supports.
pub open spec fn supported_factors(h: u8, v: u8) -> bool {
    (h == 1 || h == 2 || h == 4) && (v == 1 || v == 2 || v == 4) && !(h == 4 && v == 4)
}

impl SamplingFactor {
    /// The byte that encodes this variant: `0x80` for the ratio aliases,
    /// the horizontal factor in bits 4..=6 and the vertical one in bits 0..=3.
    pub open spec fn spec_value(self) -> u8 {
        match self {
            SamplingFactor::F_1_1 => 0x11,
            SamplingFactor::F_2_1 => 0x21,
            SamplingFactor::F_1_2 => 0x12,
            SamplingFactor::F_2_2 => 0x22,
            SamplingFactor::F_4_1 => 0x41,
            SamplingFactor::F_4_2 => 0x42,
            SamplingFactor::F_1_4 => 0x14,
            SamplingFactor::F_2_4 => 0x24,
            SamplingFactor::R_4_4_4 => 0x91,
            SamplingFactor::R_4_4_0 => 0x92,
            SamplingFactor::R_4_4_1 => 0x94,
            SamplingFactor::R_4_2_2 => 0xA1,
            SamplingFactor::R_4_2_0 => 0xA2,
            SamplingFactor::R_4_2_1 => 0xA4,
            SamplingFactor::R_4_1_1 => 0xC1,
            SamplingFactor::R_4_1_0 => 0xC2,
        }
    }

    pub fn value(self) -> (v: u8)
        ensures
            v == self.spec_value(),
    {
        match self {
            SamplingFactor::F_1_1 => 0x11,
            SamplingFactor::F_2_1 => 0x21,
            SamplingFactor::F_1_2 => 0x12,
            SamplingFactor::F_2_2 => 0x22,
            SamplingFactor::F_4_1 => 0x41,
            SamplingFactor::F_4_2 => 0x42,
            SamplingFactor::F_1_4 => 0x14,
            SamplingFactor::F_2_4 => 0x24,
            SamplingFactor::R_4_4_4 => 0x91,
            SamplingFactor::R_4_4_0 => 0x92,
            SamplingFactor::R_4_4_1 => 0x94,
            SamplingFactor::R_4_2_2 => 0xA1,
            SamplingFactor::R_4_2_0 => 0xA2,
            SamplingFactor::R_4_2_1 => 0xA4,
            SamplingFactor::R_4_1_1 => 0xC1,
            SamplingFactor::R_4_1_0 => 0xC2,
        }
    }

    /// Get variant for supplied factors or None if not supported
    pub fn from_factors(horizontal: u8, vertical: u8) -> (r: Option<SamplingFactor>)
        ensures
            r is Some <==> supported_factors(horizontal, vertical),
            r matches Some(f) ==> factors(f) == (horizontal, vertical) && f.spec_value() < 0x80,
    {
        match (horizontal, vertical) {
            (1, 1) => Some(SamplingFactor::F_1_1),
            (1, 2) => Some(SamplingFactor::F_1_2),
            (1, 4) => Some(SamplingFactor::F_1_4),
            (2, 1) => Some(SamplingFactor::F_2_1),
            (2, 2) => Some(SamplingFactor::F_2_2),
            (2, 4) => Some(SamplingFactor::F_2_4),
            (4, 1) => Some(SamplingFactor::F_4_1),
            (4, 2) => Some(SamplingFactor::F_4_2),
            _ => None,
        }
    }

    pub fn get_sampling_factors(self) -> (r: (u8, u8))
        ensures
            r == factors(self),
    {
        let value = self.value();
        proof {
            let v = value;
            assert(v == 0x11 || v == 0x21 || v == 0x12 || v == 0x22 || v == 0x41 || v == 0x42 || v
                == 0x14 || v == 0x24 || v == 0x91 || v == 0x92 || v == 0x94 || v == 0xA1 || v == 0xA2
                || v == 0xA4 || v == 0xC1 || v == 0xC2);
            assert((v == 0x11 || v == 0x12 || v == 0x14 || v == 0x91 || v == 0x92 || v == 0x94 ==> (v >> 4) & 0x07 == 1)
                && (v == 0x21 || v == 0x22 || v == 0x24 || v == 0xA1 || v == 0xA2 || v == 0xA4 ==> (v >> 4) & 0x07 == 2)
                && (v == 0x41 || v == 0x42 || v == 0xC1 || v == 0xC2 ==> (v >> 4) & 0x07 == 4)
                && (v == 0x11 || v == 0x21 || v == 0x41 || v == 0x91 || v == 0xA1 || v == 0xC1 ==> v & 0xf == 1)
                && (v == 0x12 || v == 0x22 || v == 0x42 || v == 0x92 || v == 0xA2 || v == 0xC2 ==> v & 0xf == 2)
                && (v == 0x14 || v == 0x24 || v == 0x94 || v == 0xA4 ==> v & 0xf == 4)) by (bit_vector);
        }
        ((value >> 4) & 0x07, value & 0xf)
    }

    /// Interleaved mode is only supported with h/v sampling factors of 1 or 2.
    pub fn supports_interleaved(self) -> (r: bool)
        ensures
            r == (factors(self).0 <= 2 && factors(self).1 <= 2),
    {
        // Sampling factors of 4 needs sequential encoding
        match self {
            SamplingFactor::F_1_1 | SamplingFactor::F_2_1 | SamplingFactor::F_1_2
            | SamplingFactor::F_2_2 | SamplingFactor::R_4_4_4 | SamplingFactor::R_4_4_0
            | SamplingFactor::R_4_2_2 | SamplingFactor::R_4_2_0 => true,
            _ => false,
        }
    }
}

/// A color component of the frame and the tables it uses.
pub struct Component {
    pub id: u8,
    pub quantization_table: u8,
    pub dc_huffman_table: u8,
    pub ac_huffman_table: u8,
    pub horizontal_sampling_factor: u8,
    pub vertical_sampling_factor: u8,
}

/// The number of magnitude bits of a coefficient, counted by shifting.
pub fn get_num_bits(value: i16) -> (n: u8)
    requires
        value != i16::MIN,
    ensures
        n as nat == category(abs(value as int)),
{
    let mut value = value;
    if value < 0 {
        value = -value;
    }
    let ghost start = value;
    proof {
        lemma2_to64();
        lemma_category_le(value as nat, 15);
    }
    let mut num_bits: u8 = 0;
    while value > 0
        invariant
            value >= 0,
            num_bits + category(value as nat) == category(abs(start as int)),
            num_bits <= 15 - category(value as nat),
            category(value as nat) <= 15,
        decreases value,
    {
        proof {
            assert(value >= 0 ==> value >> 1 == value / 2) by (bit_vector);
        }
        num_bits += 1;
        value >>= 1;
    }
    num_bits
}


/// A component with the given id, table index and sampling factors.
pub open spec fn component_spec(id: u8, dest: u8, h: u8, v: u8) -> Component {
    Component {
        id,
        quantization_table: dest,
        dc_huffman_table: dest,
        ac_huffman_table: dest,
        horizontal_sampling_factor: h,
        vertical_sampling_factor: v,
    }
}

/// The components of a frame of the given color type: luma (or the K
/// channel of CMYK) at the chosen sampling factor and table 0, the other
/// channels at factor 1 and table 1.
pub open spec fn component_list(sampling_factor: SamplingFactor, color: JpegColorType) -> Seq<Component> {
    let (h, v) = factors(sampling_factor);
    match color {
        JpegColorType::Luma => seq![component_spec(0, 0, 1, 1)],
        JpegColorType::Ycbcr => seq![
            component_spec(0, 0, h, v),
            component_spec(1, 1, 1, 1),
            component_spec(2, 1, 1, 1),
        ],
        JpegColorType::Cmyk => seq![
            component_spec(0, 1, 1, 1),
            component_spec(1, 1, 1, 1),
            component_spec(2, 1, 1, 1),
            component_spec(3, 0, h, v),
        ],
        JpegColorType::Ycck => seq![
            component_spec(0, 0, h, v),
            component_spec(1, 1, 1, 1),
            component_spec(2, 1, 1, 1),
            component_spec(3, 0, h, v),
        ],
    }
}

fn make_component(id: u8, dest: u8, h: u8, v: u8) -> (c: Component)
    ensures
        c == component_spec(id, dest, h, v),
{
    Component {
        id,
        quantization_table: dest,
        dc_huffman_table: dest,
        ac_huffman_table: dest,
        horizontal_sampling_factor: h,
        vertical_sampling_factor: v,
    }
}

/// Appends the components of a frame of color type `color`.
pub fn init_components(components: &mut Vec<Component>, sampling_factor: SamplingFactor, color: JpegColorType)
    ensures
        final(components)@ == old(components)@ + component_list(sampling_factor, color),
{
    let (horizontal_sampling_factor, vertical_sampling_factor) = sampling_factor.get_sampling_factors();
    let ghost start = components@;
    match color {
        JpegColorType::Luma => {
            components.push(make_component(0, 0, 1, 1));
        },
        JpegColorType::Ycbcr => {
            components.push(make_component(0, 0, horizontal_sampling_factor, vertical_sampling_factor));
            components.push(make_component(1, 1, 1, 1));
            components.push(make_component(2, 1, 1, 1));
        },
        JpegColorType::Cmyk => {
            components.push(make_component(0, 1, 1, 1));
            components.push(make_component(1, 1, 1, 1));
            components.push(make_component(2, 1, 1, 1));
            components.push(make_component(3, 0, horizontal_sampling_factor, vertical_sampling_factor));
        },
        JpegColorType::Ycck => {
            components.push(make_component(0, 0, horizontal_sampling_factor, vertical_sampling_factor));
            components.push(make_component(1, 1, 1, 1));
            components.push(make_component(2, 1, 1, 1));
            components.push(make_component(3, 0, horizontal_sampling_factor, vertical_sampling_factor));
        },
    }
    assert(components@ =~= start + component_list(sampling_factor, color));
}

/// The largest horizontal sampling factor among the first `n` components, at least 1.
pub open spec fn max_h_factor(cs: Seq<Component>, n: nat) -> nat
    decreases n,
{
    if n == 0 {
        1
    } else {
        let m = max_h_factor(cs, (n - 1) as nat);
        let f = cs[n - 1].horizontal_sampling_factor as nat;
        if f > m { f } else { m }
    }
}

/// The largest vertical sampling factor among the first `n` components, at least 1.
pub open spec fn max_v_factor(cs: Seq<Component>, n: nat) -> nat
    decreases n,
{
    if n == 0 {
        1
    } else {
        let m = max_v_factor(cs, (n - 1) as nat);
        let f = cs[n - 1].vertical_sampling_factor as nat;
        if f > m { f } else { m }
    }
}

pub proof fn lemma_max_sampling_bounds(cs: Seq<Component>, n: nat)
    ensures
        1 <= max_h_factor(cs, n) <= 255,
        1 <= max_v_factor(cs, n) <= 255,
        forall|i: int| 0 <= i < n ==> #[trigger] cs[i].horizontal_sampling_factor <= max_h_factor(cs, n),
        forall|i: int| 0 <= i < n ==> #[trigger] cs[i].vertical_sampling_factor <= max_v_factor(cs, n),
    decreases n,
{
    if n > 0 {
        lemma_max_sampling_bounds(cs, (n - 1) as nat);
    }
}

/// The largest horizontal and vertical sampling factors of the components.
pub fn get_max_sampling_size(components: &[Component]) -> (r: (usize, usize))
    ensures
        r.0 == max_h_factor(components@, components@.len()),
        r.1 == max_v_factor(components@, components@.len()),
{
    let mut max_h_sampling: u8 = 1;
    let mut max_v_sampling: u8 = 1;
    let mut i: usize = 0;
    while i < components.len()
        invariant
            i <= components@.len(),
            max_h_sampling == max_h_factor(components@, i as nat),
            max_v_sampling == max_v_factor(components@, i as nat),
        decreases components@.len() - i,
    {
        let component = &components[i];
        if component.horizontal_sampling_factor > max_h_sampling {
            max_h_sampling = component.horizontal_sampling_factor;
        }
        if component.vertical_sampling_factor > max_v_sampling {
            max_v_sampling = component.vertical_sampling_factor;
        }
        i += 1;
    }
    (max_h_sampling as usize, max_v_sampling as usize)
}

/// Four empty buffers, one per possible component.
pub fn allocate_component_vecs<T>(components: &[Component], buffer_size: usize) -> (r: [Vec<T>; 4])
    requires
        components@.len() == 1 || components@.len() == 3 || components@.len() == 4,
    ensures
        forall|c: int| 0 <= c < 4 ==> #[trigger] r[c]@.len() == 0,
{
    // To simplify the code we always initialize 4 components;
    // an empty Vec doesn't allocate.
    match components.len() {
        1 => [Vec::with_capacity(buffer_size), Vec::new(), Vec::new(), Vec::new()],
        3 => [
            Vec::with_capacity(buffer_size),
            Vec::with_capacity(buffer_size),
            Vec::with_capacity(buffer_size),
            Vec::new(),
        ],
        _ => [
            Vec::with_capacity(buffer_size),
            Vec::with_capacity(buffer_size),
            Vec::with_capacity(buffer_size),
            Vec::with_capacity(buffer_size),
        ],
    }
}

/// The sample at row `y`, column `x` of the block whose top-left sample is
/// at (`start_x`, `start_y`) of a plane `width` samples wide, taking every
/// `col_stride`-th column and `row_stride`-th row, shifted to be signed.
pub open spec fn block_sample(data: Seq<u8>, start_x: int, start_y: int, col_stride: int, row_stride: int, width: int, y: int, x: int) -> i16 {
    (data[(start_y + y * row_stride) * width + start_x + x * col_stride] as int - 128) as i16
}

/// The 64 samples of such a block, row by row.
pub open spec fn block_samples(data: Seq<u8>, start_x: int, start_y: int, col_stride: int, row_stride: int, width: int) -> Seq<i16> {
    Seq::new(64, |i: int| block_sample(data, start_x, start_y, col_stride, row_stride, width, i / 8, i % 8))
}

/// Every sample of the block lies within the plane.
pub open spec fn block_in_bounds(len: int, start_x: int, start_y: int, col_stride: int, row_stride: int, width: int) -> bool {
    &&& 0 <= start_x && 0 <= start_y && 0 <= col_stride && 0 <= row_stride && 0 <= width
    &&& start_y + 7 * row_stride <= usize::MAX
    &&& (start_y + 7 * row_stride) * width + start_x + 7 * col_stride < len
}

pub proof fn lemma_block_index(len: int, start_x: int, start_y: int, col_stride: int, row_stride: int, width: int, y: int, x: int)
    requires
        block_in_bounds(len, start_x, start_y, col_stride, row_stride, width),
        0 <= y < 8,
        0 <= x < 8,
    ensures
        0 <= y * row_stride <= 7 * row_stride,
        0 <= start_y + y * row_stride,
        0 <= (start_y + y * row_stride) * width,
        0 <= x * col_stride,
        (start_y + y * row_stride) * width + start_x + x * col_stride < len,
        (start_y + y * row_stride) * width + start_x + 8 * col_stride <= len + col_stride,
{
    assert(0 <= y * row_stride <= 7 * row_stride) by (nonlinear_arith)
        requires
            0 <= y < 8,
            0 <= row_stride,
    ;
    assert(0 <= x * col_stride <= 7 * col_stride) by (nonlinear_arith)
        requires
            0 <= x < 8,
            0 <= col_stride,
    ;
    assert(0 <= (start_y + y * row_stride) * width <= (start_y + 7 * row_stride) * width) by (nonlinear_arith)
        requires
            0 <= start_y + y * row_stride <= start_y + 7 * row_stride,
            0 <= width,
    ;
}

/// Reads one 8x8 block of samples.
pub fn get_block_linear(
    data: &[u8],
    start_x: usize,
    start_y: usize,
    col_stride: usize,
    row_stride: usize,
    width: usize,
) -> (b: AlignedBlock)
    requires
        block_in_bounds(data@.len() as int, start_x as int, start_y as int, col_stride as int, row_stride as int, width as int),
    ensures
        b.data@ == block_samples(data@, start_x as int, start_y as int, col_stride as int, row_stride as int, width as int),
{
    let mut block = [0i16; 64];
    proof {
        assert(data@.len() == data.len());
    }
    let mut y: usize = 0;
    while y < 8
        invariant
            y <= 8,
            data@.len() == data.len(),
            block_in_bounds(data@.len() as int, start_x as int, start_y as int, col_stride as int, row_stride as int, width as int),
            forall|i: int| 0 <= i < y * 8 ==> #[trigger] block[i] == block_sample(data@, start_x as int, start_y as int, col_stride as int, row_stride as int, width as int, i / 8, i % 8),
        decreases 8 - y,
    {
        let mut x: usize = 0;
        while x < 8
            invariant
                x <= 8,
                y < 8,
                data@.len() == data.len(),
                block_in_bounds(data@.len() as int, start_x as int, start_y as int, col_stride as int, row_stride as int, width as int),
                forall|i: int| 0 <= i < y * 8 + x ==> #[trigger] block[i] == block_sample(data@, start_x as int, start_y as int, col_stride as int, row_stride as int, width as int, i / 8, i % 8),
            decreases 8 - x,
        {
            proof {
                lemma_block_index(data@.len() as int, start_x as int, start_y as int, col_stride as int, row_stride as int, width as int, y as int, x as int);
            }
            let ix = start_x + (x * col_stride);
            let iy = start_y + (y * row_stride);
            block[y * 8 + x] = (data[iy * width + ix] as i16) - 128;
            proof {
                let i = y * 8 + x;
                assert(i / 8 == y && i % 8 == x);
            }
            x += 1;
        }
        y += 1;
    }
    proof {
        assert(block@ =~= block_samples(data@, start_x as int, start_y as int, col_stride as int, row_stride as int, width as int));
    }
    AlignedBlock::new(block)
}

/// Reads one 8x8 block of adjacent columns a row at a time.
pub fn get_block_simd(
    data: &[u8],
    start_x: usize,
    start_y: usize,
    col_stride: usize,
    row_stride: usize,
    width: usize,
) -> (b: AlignedBlock)
    requires
        col_stride == 1,
        block_in_bounds(data@.len() as int, start_x as int, start_y as int, col_stride as int, row_stride as int, width as int),
    ensures
        b.data@ == block_samples(data@, start_x as int, start_y as int, col_stride as int, row_stride as int, width as int),
{
    let mut block = [0i16; 64];
    proof {
        assert(data@.len() == data.len());
    }
    let mut y: usize = 0;
    while y < 8
        invariant
            y <= 8,
            col_stride == 1,
            data@.len() == data.len(),
            block_in_bounds(data@.len() as int, start_x as int, start_y as int, col_stride as int, row_stride as int, width as int),
            forall|i: int| 0 <= i < y * 8 ==> #[trigger] block[i] == block_sample(data@, start_x as int, start_y as int, col_stride as int, row_stride as int, width as int, i / 8, i % 8),
        decreases 8 - y,
    {
        proof {
            lemma_block_index(data@.len() as int, start_x as int, start_y as int, col_stride as int, row_stride as int, width as int, y as int, 7);
        }
        let iy = start_y + (y * row_stride);
        let row_start = iy * width + start_x;
        // Eight adjacent bytes, widened and shifted together.
        let mut row = [0i16; 8];
        let mut k: usize = 0;
        while k < 8
            invariant
                k <= 8,
                row_start + 7 < data@.len(),
                data@.len() == data.len(),
                forall|j: int| 0 <= j < k ==> #[trigger] row[j] == (data@[row_start + j] as int - 128) as i16,
            decreases 8 - k,
        {
            row[k] = (data[row_start + k] as i16) - 128;
            k += 1;
        }
        let mut x: usize = 0;
        while x < 8
            invariant
                x <= 8,
                y < 8,
                col_stride == 1,
                row_start == (start_y + y * row_stride) * width + start_x,
                forall|j: int| 0 <= j < 8 ==> #[trigger] row[j] == (data@[row_start + j] as int - 128) as i16,
                forall|i: int| 0 <= i < y * 8 + x ==> #[trigger] block[i] == block_sample(data@, start_x as int, start_y as int, col_stride as int, row_stride as int, width as int, i / 8, i % 8),
            decreases 8 - x,
        {
            block[y * 8 + x] = row[x];
            proof {
                let i = y * 8 + x;
                assert(i / 8 == y && i % 8 == x);
            }
            x += 1;
        }
        y += 1;
    }
    proof {
        assert(block@ =~= block_samples(data@, start_x as int, start_y as int, col_stride as int, row_stride as int, width as int));
    }
    AlignedBlock::new(block)
}

/// Reads one 8x8 block, a row at a time where the columns are adjacent.
pub fn get_block(
    data: &[u8],
    start_x: usize,
    start_y: usize,
    col_stride: usize,
    row_stride: usize,
    width: usize,
) -> (b: AlignedBlock)
    requires
        block_in_bounds(data@.len() as int, start_x as int, start_y as int, col_stride as int, row_stride as int, width as int),
    ensures
        b.data@ == block_samples(data@, start_x as int, start_y as int, col_stride as int, row_stride as int, width as int),
{
    if col_stride == 1 {
        get_block_simd(data, start_x, start_y, col_stride, row_stride, width)
    } else {
        get_block_linear(data, start_x, start_y, col_stride, row_stride, width)
    }
}

/// The bytes that open an ICC profile chunk: "ICC_PROFILE" and a zero.
pub const ICC_MARKER: [u8; 12] = [0x49, 0x43, 0x43, 0x5F, 0x50, 0x52, 0x4F, 0x46, 0x49, 0x4C, 0x45, 0x00];

/// The most profile bytes one APP2 segment carries.
pub const MAX_ICC_CHUNK_LENGTH: usize = 65519;

/// The bytes that open an APP1 segment with Exif metadata: "Exif" and two zeros.
pub const EXIF_HEADER: [u8; 6] = [0x45, 0x78, 0x69, 0x66, 0x00, 0x00];

/// The number of chunks an ICC profile of `len` bytes is split into.
pub open spec fn icc_chunk_count(len: nat) -> nat {
    ((len + MAX_ICC_CHUNK_LENGTH - 1) / (MAX_ICC_CHUNK_LENGTH as int)) as nat
}

/// The APP2 segments that carry an ICC profile: each chunk of at most
/// `MAX_ICC_CHUNK_LENGTH` bytes behind the marker, its 1-based number and
/// the number of chunks.
pub open spec fn icc_segments(data: Seq<u8>) -> Seq<(u8, Seq<u8>)> {
    let n = icc_chunk_count(data.len());
    Seq::new(n, |i: int| {
        let start = i * MAX_ICC_CHUNK_LENGTH;
        let end = if (i + 1) * MAX_ICC_CHUNK_LENGTH < data.len() { (i + 1) * MAX_ICC_CHUNK_LENGTH } else { data.len() as int };
        (2u8, ICC_MARKER@ + seq![(i + 1) as u8, n as u8] + data.subrange(start, end))
    })
}

/// The valid application segments: numbers 1..=15, at most 2^16 - 2 bytes.
pub open spec fn app_segment_ok(seg: (u8, Seq<u8>)) -> bool {
    1 <= seg.0 <= 15 && seg.1.len() <= 65534
}

/// The components the encoder can write: one, three or four of them,
/// sampling factors 1, 2 or 4, table indexes 0 or 1.
pub open spec fn components_wf(cs: Seq<Component>) -> bool {
    &&& cs.len() == 1 || cs.len() == 3 || cs.len() == 4
    &&& forall|i: int| 0 <= i < cs.len() ==> {
        let c = #[trigger] cs[i];
        &&& c.horizontal_sampling_factor == 1 || c.horizontal_sampling_factor == 2 || c.horizontal_sampling_factor == 4
        &&& c.vertical_sampling_factor == 1 || c.vertical_sampling_factor == 2 || c.vertical_sampling_factor == 4
        &&& c.quantization_table <= 1 && c.dc_huffman_table <= 1 && c.ac_huffman_table <= 1
    }
}

/// # The JPEG encoder
pub struct Encoder<W: BitStream> {
    writer: JfifWriter<W>,
    density: PixelDensity,
    quality: u8,
    components: Vec<Component>,
    quantization_tables: [QuantizationTableType; 2],
    huffman_tables: [(HuffmanTable, HuffmanTable); 2],
    sampling_factor: SamplingFactor,
    progressive_scans: Option<u8>,
    restart_interval: Option<u16>,
    optimize_huffman_table: bool,
    app_segments: Vec<(u8, Vec<u8>)>,
}

/// The state of an [`Encoder`]: its bit stream and its settings.
pub struct EncoderState<W: BitStream> {
    pub stream: W,
    pub density: PixelDensity,
    pub quality: u8,
    pub components: Seq<Component>,
    pub quantization_tables: [QuantizationTableType; 2],
    pub huffman_tables: [(HuffmanTable, HuffmanTable); 2],
    pub sampling_factor: SamplingFactor,
    pub progressive_scans: Option<u8>,
    pub restart_interval: Option<u16>,
    pub optimize_huffman_table: bool,
    /// The application segments, in the order they were added.
    pub app_segments: Seq<(u8, Seq<u8>)>,
}

impl<W: BitStream> View for Encoder<W> {
    type V = EncoderState<W>;

    closed spec fn view(&self) -> EncoderState<W> {
        EncoderState {
            stream: self.writer.stream(),
            density: self.density,
            quality: self.quality,
            components: self.components@,
            quantization_tables: self.quantization_tables,
            huffman_tables: self.huffman_tables,
            sampling_factor: self.sampling_factor,
            progressive_scans: self.progressive_scans,
            restart_interval: self.restart_interval,
            optimize_huffman_table: self.optimize_huffman_table,
            app_segments: self.app_segments@.map_values(|s: (u8, Vec<u8>)| (s.0, s.1@)),
        }
    }
}

impl<W: BitStream> Encoder<W> {
    /// The encoder is between two writes, and its settings can be written.
    pub closed spec fn wf(&self) -> bool {
        &&& self.writer.stream().inv()
        &&& self.writer.stream().settled()
        &&& self.writer.stream().tail() == Seq::<bool>::empty()
        &&& self.progressive_scans matches Some(s) ==> 2 <= s <= 64
        &&& self.restart_interval != Some(0u16)
        &&& forall|i: int| 0 <= i < self.app_segments@.len() ==> app_segment_ok(#[trigger] self@.app_segments[i])
    }

    /// Create a new encoder with the given quality
    ///
    /// The quality must be between 1 and 100 where 100 is the highest image quality.<br>
    /// By default, quality settings below 90 use a chroma subsampling (2x2 / 4:2:0) which can
    /// be changed with [set_sampling_factor](Encoder::set_sampling_factor)
    pub fn new(w: W, quality: u8) -> (e: Encoder<W>)
        ensures
            e@.stream == w,
            e.wf() <==> at_rest(w),
            e@.quality == quality,
            e@.density.density == (1u16, 1u16),
            e@.density.unit == crate::writer::PixelDensityUnit::PixelAspectRatio,
            e@.components.len() == 0,
            e@.quantization_tables[0] is Default,
            e@.quantization_tables[1] is Default,
            default_tables(e@.huffman_tables),
            e@.sampling_factor == (if quality < 90 { SamplingFactor::F_2_2 } else { SamplingFactor::F_1_1 }),
            e@.progressive_scans is None,
            e@.restart_interval is None,
            !e@.optimize_huffman_table,
            e@.app_segments.len() == 0,
    {
        let huffman_tables = [
            (HuffmanTable::default_luma_dc(), HuffmanTable::default_luma_ac()),
            (HuffmanTable::default_chroma_dc(), HuffmanTable::default_chroma_ac()),
        ];
        let quantization_tables = [QuantizationTableType::Default, QuantizationTableType::Default];
        let sampling_factor = if quality < 90 {
            SamplingFactor::F_2_2
        } else {
            SamplingFactor::F_1_1
        };
        let e = Encoder {
            writer: JfifWriter::new(w),
            density: PixelDensity::default(),
            quality,
            components: Vec::new(),
            quantization_tables,
            huffman_tables,
            sampling_factor,
            progressive_scans: None,
            restart_interval: None,
            optimize_huffman_table: false,
            app_segments: Vec::new(),
        };
        proof {
            assert(e@.app_segments =~= Seq::<(u8, Seq<u8>)>::empty());
        }
        e
    }

    /// Set pixel density for the image
    ///
    /// By default, this value is None which is equal to "1 pixel per pixel".
    pub fn set_density(&mut self, density: PixelDensity)
        ensures
            final(self)@.density == density,
            final(self)@ == (EncoderState { density, ..old(self)@ }),
    {
        self.density = density;
    }

    /// Return pixel density
    pub fn density(&self) -> (d: PixelDensity)
        ensures
            d == self@.density,
    {
        self.density
    }

    /// Set chroma subsampling factor
    pub fn set_sampling_factor(&mut self, sampling: SamplingFactor)
        ensures
            final(self)@.sampling_factor == sampling,
            final(self)@ == (EncoderState { sampling_factor: sampling, ..old(self)@ }),
    {
        self.sampling_factor = sampling;
    }

    /// Get chroma subsampling factor
    pub fn sampling_factor(&self) -> (s: SamplingFactor)
        ensures
            s == self@.sampling_factor,
    {
        self.sampling_factor
    }

    /// Set quantization tables for luma and chroma components
    pub fn set_quantization_tables(&mut self, luma: QuantizationTableType, chroma: QuantizationTableType)
        ensures
            final(self)@.quantization_tables == [luma, chroma],
            final(self)@ == (EncoderState { quantization_tables: [luma, chroma], ..old(self)@ }),
    {
        self.quantization_tables = [luma, chroma];
    }

    /// Get configured quantization tables
    pub fn quantization_tables(&self) -> (t: &[QuantizationTableType; 2])
        ensures
            *t == self@.quantization_tables,
    {
        &self.quantization_tables
    }

    /// Controls if progressive encoding is used.
    ///
    /// By default, progressive encoding uses 4 scans.<br>
    /// Use [set_progressive_scans](Encoder::set_progressive_scans) to use a different number of scans
    pub fn set_progressive(&mut self, progressive: bool)
        ensures
            final(self)@.progressive_scans == (if progressive { Some(4u8) } else { None }),
            final(self)@ == (EncoderState { progressive_scans: final(self)@.progressive_scans, ..old(self)@ }),
    {
        self.progressive_scans = if progressive { Some(4) } else { None };
    }

    /// Set number of scans per component for progressive encoding
    ///
    /// Number of scans must be between 2 and 64.
    /// There is at least one scan for the DC coefficients and one for the remaining 63 AC coefficients.
    pub fn set_progressive_scans(&mut self, scans: u8)
        requires
            2 <= scans <= 64,
        ensures
            final(self)@.progressive_scans == Some(scans),
            final(self)@ == (EncoderState { progressive_scans: Some(scans), ..old(self)@ }),
    {
        self.progressive_scans = Some(scans);
    }

    /// Return number of progressive scans if progressive encoding is enabled
    pub fn progressive_scans(&self) -> (s: Option<u8>)
        ensures
            s == self@.progressive_scans,
    {
        self.progressive_scans
    }

    /// Set restart interval
    ///
    /// Set numbers of MCUs between restart markers.
    pub fn set_restart_interval(&mut self, interval: u16)
        ensures
            final(self)@.restart_interval == (if interval == 0 { None } else { Some(interval) }),
            final(self)@ == (EncoderState { restart_interval: final(self)@.restart_interval, ..old(self)@ }),
    {
        self.restart_interval = if interval == 0 { None } else { Some(interval) };
    }

    /// Return the restart interval
    pub fn restart_interval(&self) -> (r: Option<u16>)
        ensures
            r == self@.restart_interval,
    {
        self.restart_interval
    }

    /// Set if optimized huffman table should be created
    ///
    /// Optimized tables result in slightly smaller file sizes but decrease encoding performance.
    pub fn set_optimized_huffman_tables(&mut self, optimize_huffman_table: bool)
        ensures
            final(self)@.optimize_huffman_table == optimize_huffman_table,
            final(self)@ == (EncoderState { optimize_huffman_table, ..old(self)@ }),
    {
        self.optimize_huffman_table = optimize_huffman_table;
    }

    /// Returns if optimized huffman table should be generated
    pub fn optimized_huffman_tables(&self) -> (r: bool)
        ensures
            r == self@.optimize_huffman_table,
    {
        self.optimize_huffman_table
    }

    /// Appends a custom app segment to the JFIF file
    ///
    /// Segment numbers need to be in the range between 1 and 15<br>
    /// The maximum allowed data length is 2^16 - 2 bytes.
    ///
    /// # Errors
    ///
    /// Returns an error if the segment number is invalid or data exceeds the allowed size
    pub fn add_app_segment(&mut self, segment_nr: u8, data: Vec<u8>) -> (r: Result<(), EncodingError>)
        ensures
            segment_nr == 0 || segment_nr > 15 ==> r == Err::<(), EncodingError>(EncodingError::InvalidAppSegment(segment_nr)),
            1 <= segment_nr <= 15 && data@.len() > 65534 ==> r == Err::<(), EncodingError>(EncodingError::AppSegmentTooLarge(data@.len() as usize)),
            r is Ok <==> app_segment_ok((segment_nr, data@)),
            r is Ok ==> final(self)@.app_segments == old(self)@.app_segments.push((segment_nr, data@)),
            r is Err ==> final(self)@.app_segments == old(self)@.app_segments,
            final(self)@ == (EncoderState { app_segments: final(self)@.app_segments, ..old(self)@ }),
            old(self).wf() ==> final(self).wf(),
    {
        if segment_nr == 0 || segment_nr > 15 {
            Err(EncodingError::InvalidAppSegment(segment_nr))
        } else if data.len() > 65534 {
            Err(EncodingError::AppSegmentTooLarge(data.len()))
        } else {
            let ghost before = self@.app_segments;
            self.app_segments.push((segment_nr, data));
            proof {
                assert(self@.app_segments =~= before.push((segment_nr, data@)));
            }
            Ok(())
        }
    }

    /// Add an ICC profile
    ///
    /// The maximum allowed data length is 16,707,345 bytes.
    ///
    /// # Errors
    ///
    /// Returns an Error if the data exceeds the maximum size for the ICC profile
    pub fn add_icc_profile(&mut self, data: &[u8]) -> (r: Result<(), EncodingError>)
        ensures
            icc_chunk_count(data@.len()) > 255 ==> r == Err::<(), EncodingError>(EncodingError::IccTooLarge(data@.len() as usize)),
            icc_chunk_count(data@.len()) <= 255 ==> r is Ok,
            r is Ok ==> final(self)@.app_segments == old(self)@.app_segments + icc_segments(data@),
            r is Err ==> final(self)@.app_segments == old(self)@.app_segments,
            final(self)@ == (EncoderState { app_segments: final(self)@.app_segments, ..old(self)@ }),
            old(self).wf() ==> final(self).wf(),
    {
        // Based on https://www.color.org/ICC_Minor_Revision_for_Web.pdf
        // B.4  Embedding ICC profiles in JFIF files
        proof {
            assert(data@.len() == data.len());
        }
        let num_chunks = data.len() / MAX_ICC_CHUNK_LENGTH + if data.len() % MAX_ICC_CHUNK_LENGTH == 0 { 0 } else { 1 };
        assert(num_chunks == icc_chunk_count(data@.len()));

        // Sequence number is stored as a byte and starts with 1
        if num_chunks > 255 {
            return Err(EncodingError::IccTooLarge(data.len()));
        }
        let ghost start = *self;
        let ghost segs = icc_segments(data@);
        let mut i: usize = 0;
        while i < num_chunks
            invariant
                i <= num_chunks <= 255,
                num_chunks == icc_chunk_count(data@.len()),
                data@.len() == data.len(),
                segs == icc_segments(data@),
                self@.app_segments == start@.app_segments + segs.take(i as int),
                self@ == (EncoderState { app_segments: self@.app_segments, ..start@ }),
                start.wf() ==> self.wf(),
            decreases num_chunks - i,
        {
            let chunk_start = i * MAX_ICC_CHUNK_LENGTH;
            let chunk_end = if (i + 1) * MAX_ICC_CHUNK_LENGTH < data.len() { (i + 1) * MAX_ICC_CHUNK_LENGTH } else { data.len() };
            let mut chunk_data: Vec<u8> = Vec::with_capacity(MAX_ICC_CHUNK_LENGTH);
            let mut k: usize = 0;
            while k < 12
                invariant
                    k <= 12,
                    chunk_data@ == ICC_MARKER@.take(k as int),
                decreases 12 - k,
            {
                chunk_data.push(ICC_MARKER[k]);
                k += 1;
                assert(ICC_MARKER@.take(k as int) =~= ICC_MARKER@.take(k - 1).push(ICC_MARKER@[k - 1]));
            }
            chunk_data.push(i as u8 + 1);
            chunk_data.push(num_chunks as u8);
            let ghost head = chunk_data@;
            let mut j: usize = chunk_start;
            while j < chunk_end
                invariant
                    chunk_start <= j <= chunk_end <= data@.len(),
                    chunk_data@ == head + data@.subrange(chunk_start as int, j as int),
                decreases chunk_end - j,
            {
                chunk_data.push(data[j]);
                j += 1;
                assert(head + data@.subrange(chunk_start as int, j as int) =~= (head + data@.subrange(chunk_start as int, j - 1)).push(data@[j - 1]));
            }
            proof {
                assert(ICC_MARKER@.take(12) =~= ICC_MARKER@);
                assert(chunk_data@ =~= segs[i as int].1);
                assert(chunk_data@.len() <= 65533);
            }
            let r = self.add_app_segment(2, chunk_data);
            proof {
                assert(segs.take(i + 1) =~= segs.take(i as int).push(segs[i as int]));
            }
            i += 1;
        }
        proof {
            assert(segs.take(i as int) =~= segs);
        }
        Ok(())
    }

    /// Embeds Exif metadata into the image
    ///
    /// The maximum allowed data length is 65,528 bytes.
    ///
    /// # Errors
    ///
    /// Returns an Error if the data exceeds the maximum size for the Exif metadata
    pub fn add_exif_metadata(&mut self, data: &[u8]) -> (r: Result<(), EncodingError>)
        ensures
            data@.len() > 65528 ==> r == Err::<(), EncodingError>(EncodingError::AppSegmentTooLarge((data@.len() + 6) as usize)),
            r is Ok <==> data@.len() <= 65528,
            r is Ok ==> final(self)@.app_segments == old(self)@.app_segments.push((1u8, EXIF_HEADER@ + data@)),
            r is Err ==> final(self)@.app_segments == old(self)@.app_segments,
            final(self)@ == (EncoderState { app_segments: final(self)@.app_segments, ..old(self)@ }),
            old(self).wf() ==> final(self).wf(),
    {
        proof {
            assert(data@.len() == data.len());
        }
        let mut formatted: Vec<u8> = Vec::new();
        let mut k: usize = 0;
        while k < 6
            invariant
                k <= 6,
                formatted@ == EXIF_HEADER@.take(k as int),
            decreases 6 - k,
        {
            formatted.push(EXIF_HEADER[k]);
            k += 1;
            assert(EXIF_HEADER@.take(k as int) =~= EXIF_HEADER@.take(k - 1).push(EXIF_HEADER@[k - 1]));
        }
        assert(EXIF_HEADER@.take(6) =~= EXIF_HEADER@);
        let mut j: usize = 0;
        while j < data.len()
            invariant
                j <= data@.len(),
                data@.len() == data.len(),
                formatted@ == EXIF_HEADER@ + data@.take(j as int),
            decreases data@.len() - j,
        {
            formatted.push(data[j]);
            j += 1;
            assert(EXIF_HEADER@ + data@.take(j as int) =~= (EXIF_HEADER@ + data@.take(j - 1)).push(data@[j - 1]));
        }
        assert(data@.take(j as int) =~= data@);
        self.add_app_segment(1, formatted)
    }
}

/// `v`, or `n - 1` where `v` lies beyond it: the edge sample is repeated.
pub open spec fn clamp_index(v: int, n: int) -> int {
    if v < n { v } else { n - 1 }
}

pub open spec fn ceil_div(a: int, b: int) -> int {
    (a + (b - 1)) / b
}

/// The first `n` samples of that plane.
pub open spec fn plane<I: ImageBuffer>(image: &I, c: int, bw: int, n: int) -> Seq<u8> {
    plane_at(image, c, bw, 0, n)
}

/// Sample `i` of the part of the plane of component `c`, `bw` samples wide,
/// that starts at row `y0`: row `y0 + i / bw`, column `i % bw`, with the
/// last row and column of the image repeated beyond its edges.
pub open spec fn plane_sample_at<I: ImageBuffer>(image: &I, c: int, bw: int, y0: int, i: int) -> u8 {
    image.sample(clamp_index(i % bw, image.spec_width() as int), clamp_index(y0 + i / bw, image.spec_height() as int), c)
}

/// The first `n` samples of the part of the plane that starts at row `y0`.
pub open spec fn plane_at<I: ImageBuffer>(image: &I, c: int, bw: int, y0: int, n: int) -> Seq<u8> {
    Seq::new(n as nat, |i: int| plane_sample_at(image, c, bw, y0, i))
}

/// The samples of block (`bx`, `by`) of component `c`, taking every
/// `h_scale`-th column and `v_scale`-th row of the image, shifted to be signed.
pub open spec fn image_block<I: ImageBuffer>(image: &I, c: int, bx: int, by: int, h_scale: int, v_scale: int) -> Seq<i16> {
    Seq::new(
        64,
        |i: int|
            (image.sample(
                clamp_index(bx * 8 * h_scale + (i % 8) * h_scale, image.spec_width() as int),
                clamp_index(by * 8 * v_scale + (i / 8) * v_scale, image.spec_height() as int),
                c,
            ) as int - 128) as i16,
    )
}

/// A block transformed and quantized: the coefficients in zig-zag order.
pub open spec fn coded_block(samples: Seq<i16>, table: QuantizationTable) -> Seq<i16> {
    Seq::new(
        64,
        |k: int| quantize_value(fdct_spec(samples)[ZIGZAG[k] as int], table.reciprocal(k), table.correction(k)),
    )
}

/// How many columns of the image one sample of component `c` covers.
pub open spec fn h_scale(cs: Seq<Component>, c: int) -> int {
    (max_h_factor(cs, cs.len()) as int) / (cs[c].horizontal_sampling_factor as int)
}

/// How many rows of the image one sample of component `c` covers.
pub open spec fn v_scale(cs: Seq<Component>, c: int) -> int {
    (max_v_factor(cs, cs.len()) as int) / (cs[c].vertical_sampling_factor as int)
}

/// The number of block columns of component `c`.
pub open spec fn component_cols(width: int, cs: Seq<Component>, c: int) -> int {
    ceil_div(ceil_div(width, 8), h_scale(cs, c))
}

/// The number of block rows of component `c`.
pub open spec fn component_rows(height: int, cs: Seq<Component>, c: int) -> int {
    ceil_div(ceil_div(height, 8), v_scale(cs, c))
}

/// The coded blocks of component `c`, row by row.
pub open spec fn component_blocks<I: ImageBuffer>(image: &I, cs: Seq<Component>, q_tables: [QuantizationTable; 2], c: int) -> Seq<Seq<i16>> {
    let cols = component_cols(image.spec_width() as int, cs, c);
    let rows = component_rows(image.spec_height() as int, cs, c);
    Seq::new(
        (cols * rows) as nat,
        |j: int|
            coded_block(
                image_block(image, c, j % cols, j / cols, h_scale(cs, c), v_scale(cs, c)),
                q_tables[cs[c].quantization_table as int],
            ),
    )
}

/// Sample `k` of a block read from the plane is the image sample it stands for.
pub proof fn lemma_block_from_plane<I: ImageBuffer>(
    image: &I,
    c: int,
    bw: int,
    n: int,
    bx: int,
    by: int,
    hs: int,
    vs: int,
)
    requires
        bw > 0,
        hs >= 1,
        vs >= 1,
        bx >= 0,
        by >= 0,
        (bx + 1) * 8 * hs <= bw,
        ((by + 1) * 8 * vs) * bw <= n,
        n <= usize::MAX,
    ensures
        block_in_bounds(n, bx * 8 * hs, by * 8 * vs, hs, vs, bw),
        block_samples(plane(image, c, bw, n), bx * 8 * hs, by * 8 * vs, hs, vs, bw) == image_block(image, c, bx, by, hs, vs),
{
    let sx = bx * 8 * hs;
    let sy = by * 8 * vs;
    assert(0 <= sx && 0 <= sy) by (nonlinear_arith)
        requires
            bx >= 0,
            by >= 0,
            hs >= 1,
            vs >= 1,
            sx == bx * 8 * hs,
            sy == by * 8 * vs,
    ;
    assert(sx + 8 * hs <= bw && sy + 8 * vs == (by + 1) * 8 * vs) by (nonlinear_arith)
        requires
            (bx + 1) * 8 * hs <= bw,
            sx == bx * 8 * hs,
            sy == by * 8 * vs,
    ;
    assert((sy + 8 * vs) * bw <= n);
    assert((sy + 7 * vs) * bw + sx + 7 * hs < n) by (nonlinear_arith)
        requires
            (sy + 8 * vs) * bw <= n,
            sx + 8 * hs <= bw,
            vs >= 1,
            hs >= 1,
            bw > 0,
    ;
    assert(sy + 8 * vs <= (sy + 8 * vs) * bw) by (nonlinear_arith)
        requires
            bw > 0,
            sy + 8 * vs >= 0,
    ;
    assert(block_in_bounds(n, sx, sy, hs, vs, bw));
    let p = plane(image, c, bw, n);
    assert forall|k: int| 0 <= k < 64 implies block_samples(p, sx, sy, hs, vs, bw)[k] == image_block(image, c, bx, by, hs, vs)[k] by {
        let y = k / 8;
        let x = k % 8;
        lemma_block_index(n, sx, sy, hs, vs, bw, y, x);
        let idx = (sy + y * vs) * bw + sx + x * hs;
        assert(sx + x * hs < bw) by (nonlinear_arith)
            requires
                0 <= x < 8,
                sx + 8 * hs <= bw,
                hs >= 1,
        ;
        lemma_fundamental_div_mod_converse(idx, bw, sy + y * vs, sx + x * hs);
        assert(sy + y * vs == by * 8 * vs + (k / 8) * vs);
    }
    assert(block_samples(p, sx, sy, hs, vs, bw) =~= image_block(image, c, bx, by, hs, vs));
}

/// Fills the planes of all components, `bw` samples wide and `rows` rows
/// high, repeating the last column and row of the image.
fn fill_planes<I: ImageBuffer>(image: &I, components: &[Component], rows: usize, bw: usize, buffer_size: usize) -> (planes: [Vec<u8>; 4])
    requires
        image.valid(),
        image.spec_width() > 0,
        image.spec_height() > 0,
        image.spec_width() <= bw,
        components@.len() == 1 || components@.len() == 3 || components@.len() == 4,
        components@.len() == num_components(image.spec_color_type()),
    ensures
        forall|c: int|
            0 <= c < 4 ==> #[trigger] planes[c]@ == if c < components@.len() {
                plane(image, c, bw as int, rows * bw)
            } else {
                Seq::<u8>::empty()
            },
{
    let mut row: [Vec<u8>; 4] = allocate_component_vecs(components, buffer_size);
    fill_rows(image, components.len(), 0, rows, bw, &mut row);
    row
}

/// Appends rows `y0..y0 + rows` of all components to empty buffers, `bw`
/// samples wide, repeating the last column and row of the image.
pub(crate) fn fill_rows<I: ImageBuffer>(image: &I, n: usize, y0: usize, rows: usize, bw: usize, row: &mut [Vec<u8>; 4])
    requires
        image.valid(),
        image.spec_width() > 0,
        image.spec_height() > 0,
        image.spec_width() <= bw,
        n == 1 || n == 3 || n == 4,
        n == num_components(image.spec_color_type()),
        y0 + rows <= usize::MAX,
        forall|c: int| 0 <= c < 4 ==> #[trigger] old(row)[c]@.len() == 0,
    ensures
        forall|c: int|
            0 <= c < 4 ==> #[trigger] final(row)[c]@ == if c < n {
                plane_at(image, c, bw as int, y0 as int, rows * bw)
            } else {
                Seq::<u8>::empty()
            },
{
    let width = image.width();
    let height = image.height();
    proof {
        assert forall|c: int| 0 <= c < 4 implies #[trigger] row[c]@ == if c < n {
            plane_at(image, c, bw as int, y0 as int, 0 * bw)
        } else {
            Seq::<u8>::empty()
        } by {
            assert(row[c]@ =~= Seq::<u8>::empty());
            assert(plane_at(image, c, bw as int, y0 as int, 0 * bw) =~= Seq::<u8>::empty());
        }
    }
    let mut y: usize = 0;
    while y < rows
        invariant
            y <= rows,
            image.valid(),
            width == image.spec_width(),
            height == image.spec_height(),
            0 < width <= bw,
            height > 0,
            n == num_components(image.spec_color_type()),
            n == 1 || n == 3 || n == 4,
            y0 + rows <= usize::MAX,
            forall|c: int|
                0 <= c < 4 ==> #[trigger] row[c]@ == if c < n {
                    plane_at(image, c, bw as int, y0 as int, y * bw)
                } else {
                    Seq::<u8>::empty()
                },
        decreases rows - y,
    {
        let line = if y0 + y < height as usize - 1 { (y0 + y) as u16 } else { height - 1 };
        image.fill_buffers(line, row);
        proof {
            assert(y * bw + bw <= rows * bw) by (nonlinear_arith)
                requires
                    y < rows,
            ;
            assert forall|c: int| 0 <= c < 4 implies #[trigger] row[c]@ == if c < n {
                plane_at(image, c, bw as int, y0 as int, y * bw + width)
            } else {
                Seq::<u8>::empty()
            } by {
                if c < n {
                    assert forall|i: int| y * bw <= i < y * bw + width implies #[trigger] row[c]@[i] == plane_sample_at(image, c, bw as int, y0 as int, i) by {
                        lemma_fundamental_div_mod_converse(i, bw as int, y as int, i - y * bw);
                    }
                    assert(row[c]@ =~= plane_at(image, c, bw as int, y0 as int, y * bw + width));
                }
            }
        }
        // pad out the row
        let mut x: usize = width as usize;
        while x < bw
            invariant
                width <= x <= bw,
                y < rows,
                0 < width,
                height > 0,
                y * bw + bw <= rows * bw,
                n == 1 || n == 3 || n == 4,
                width == image.spec_width(),
                height == image.spec_height(),
                forall|c: int|
                    0 <= c < 4 ==> #[trigger] row[c]@ == if c < n {
                        plane_at(image, c, bw as int, y0 as int, y * bw + x)
                    } else {
                        Seq::<u8>::empty()
                    },
            decreases bw - x,
        {
            let mut ch: usize = 0;
            while ch < 4
                invariant
                    ch <= 4,
                    width <= x < bw,
                    0 < width,
                    y * bw + bw <= rows * bw,
                    n == 1 || n == 3 || n == 4,
                    width == image.spec_width(),
                    height == image.spec_height(),
                    forall|c: int|
                        0 <= c < 4 ==> #[trigger] row[c]@ == if c < n {
                            plane_at(image, c, bw as int, y0 as int, y * bw + x + if c < ch { 1int } else { 0int })
                        } else {
                            Seq::<u8>::empty()
                        },
                decreases 4 - ch,
            {
                if row[ch].len() > 0 {
                    let last = row[ch][row[ch].len() - 1];
                    proof {
                        let c = ch as int;
                        let i = y * bw + x;
                        lemma_fundamental_div_mod_converse(i - 1, bw as int, y as int, x - 1);
                        lemma_fundamental_div_mod_converse(i, bw as int, y as int, x as int);
                        assert(plane_sample_at(image, c, bw as int, y0 as int, i) == plane_sample_at(image, c, bw as int, y0 as int, i - 1));
                        assert(plane_at(image, c, bw as int, y0 as int, i + 1) =~= plane_at(image, c, bw as int, y0 as int, i).push(last));
                    }
                    row[ch].push(last);
                }
                ch += 1;
            }
            x += 1;
        }
        y += 1;
        proof {
            assert((y - 1) * bw + bw == y * bw) by (nonlinear_arith);
        }
    }
}

/// Transforms and quantizes the blocks of one component, row by row.
#[verifier::spinoff_prover]
#[verifier::rlimit(40)]
fn code_component_blocks<I: ImageBuffer, F: FDCT, Q: BlockQuantizer>(
    image: &I,
    plane_data: &Vec<u8>,
    c: usize,
    bw: usize,
    plane_len: usize,
    cols: usize,
    rows: usize,
    hs: usize,
    vs: usize,
    table: &QuantizationTable,
    blocks: &mut Vec<AlignedBlock>,
)
    requires
        bw > 0,
        hs >= 1,
        vs >= 1,
        plane_data@ == plane(image, c as int, bw as int, plane_len as int),
        cols * 8 * hs <= bw,
        (rows * 8 * vs) * bw <= plane_len,
        old(blocks)@.len() == 0,
    ensures
        final(blocks)@.len() == cols * rows,
        forall|j: int|
            0 <= j < cols * rows ==> #[trigger] final(blocks)@[j].data@ == coded_block(
                image_block(image, c as int, j % (cols as int), j / (cols as int), hs as int, vs as int),
                *table,
            ),
{
    let mut block_y: usize = 0;
    while block_y < rows
        invariant
            block_y <= rows,
            bw > 0,
            hs >= 1,
            vs >= 1,
            plane_data@ == plane(image, c as int, bw as int, plane_len as int),
            cols * 8 * hs <= bw,
            (rows * 8 * vs) * bw <= plane_len,
            blocks@.len() == block_y * cols,
            forall|j: int|
                0 <= j < block_y * cols ==> #[trigger] blocks@[j].data@ == coded_block(
                    image_block(image, c as int, j % (cols as int), j / (cols as int), hs as int, vs as int),
                    *table,
                ),
        decreases rows - block_y,
    {
        proof {
            assert(((block_y + 1) * 8 * vs) * bw <= (rows * 8 * vs) * bw) by (nonlinear_arith)
                requires
                    block_y < rows,
                    vs >= 1,
                    bw > 0,
            ;
            assert(block_y * 8 * vs <= (block_y + 1) * 8 * vs && 0 <= block_y * 8 * vs) by (nonlinear_arith)
                requires
                    vs >= 1,
            ;
            assert((block_y + 1) * cols == block_y * cols + cols) by (nonlinear_arith);
        }
        let mut block_x: usize = 0;
        while block_x < cols
            invariant
                block_x <= cols,
                block_y < rows,
                bw > 0,
                hs >= 1,
                vs >= 1,
                plane_data@ == plane(image, c as int, bw as int, plane_len as int),
                cols * 8 * hs <= bw,
                ((block_y + 1) * 8 * vs) * bw <= plane_len,
                block_y * 8 * vs <= (block_y + 1) * 8 * vs,
                blocks@.len() == block_y * cols + block_x,
                forall|j: int|
                    0 <= j < block_y * cols + block_x ==> #[trigger] blocks@[j].data@ == coded_block(
                        image_block(image, c as int, j % (cols as int), j / (cols as int), hs as int, vs as int),
                        *table,
                    ),
            decreases cols - block_x,
        {
            proof {
                assert((block_x + 1) * 8 * hs <= cols * 8 * hs && 0 <= block_x * 8 <= block_x * 8 * hs <= bw) by (nonlinear_arith)
                    requires
                        block_x < cols,
                        hs >= 1,
                        cols * 8 * hs <= bw,
                ;
                assert(block_y * 8 <= block_y * 8 * vs <= (block_y * 8 * vs) * bw <= plane_len) by (nonlinear_arith)
                    requires
                        vs >= 1,
                        bw >= 1,
                        block_y * 8 * vs <= (block_y + 1) * 8 * vs,
                        ((block_y + 1) * 8 * vs) * bw <= plane_len,
                ;
                lemma_block_from_plane(image, c as int, bw as int, plane_len as int, block_x as int, block_y as int, hs as int, vs as int);
            }
            let mut block = get_block(plane_data.as_slice(), block_x * 8 * hs, block_y * 8 * vs, hs, vs, bw);
            F::fdct(&mut block);
            let mut q_block = AlignedBlock::default();
            Q::quantize_block(&block, &mut q_block, table);
            blocks.push(q_block);
            proof {
                let j = block_y * cols + block_x;
                lemma_fundamental_div_mod_converse(j, cols as int, block_y as int, block_x as int);
                assert(q_block.data@ =~= coded_block(
                    image_block(image, c as int, block_x as int, block_y as int, hs as int, vs as int),
                    *table,
                ));
            }
            block_x += 1;
        }
        block_y += 1;
    }
}

pub proof fn lemma_max_factor_choices(cs: Seq<Component>, n: nat)
    requires
        n <= cs.len(),
        forall|i: int| 0 <= i < cs.len() ==> {
            let f = #[trigger] cs[i].horizontal_sampling_factor;
            f == 1 || f == 2 || f == 4
        },
        forall|i: int| 0 <= i < cs.len() ==> {
            let f = #[trigger] cs[i].vertical_sampling_factor;
            f == 1 || f == 2 || f == 4
        },
    ensures
        max_h_factor(cs, n) == 1 || max_h_factor(cs, n) == 2 || max_h_factor(cs, n) == 4,
        max_v_factor(cs, n) == 1 || max_v_factor(cs, n) == 2 || max_v_factor(cs, n) == 4,
    decreases n,
{
    if n > 0 {
        lemma_max_factor_choices(cs, (n - 1) as nat);
        let f = cs[n - 1].horizontal_sampling_factor;
        let g = cs[n - 1].vertical_sampling_factor;
    }
}

/// `a / b`, rounded up.
fn div_ceil(a: usize, b: usize) -> (r: usize)
    requires
        b > 0,
        a + b - 1 <= usize::MAX,
    ensures
        r == ceil_div(a as int, b as int),
{
    (a + (b - 1)) / b
}

impl<W: BitStream> Encoder<W> {
    /// Adds the components of a frame of color type `color`, sampled at the
    /// configured sampling factor.
    pub fn init_components(&mut self, color: JpegColorType)
        ensures
            final(self)@ == (EncoderState {
                components: old(self)@.components + component_list(old(self)@.sampling_factor, color),
                ..old(self)@
            }),
            old(self).wf() ==> final(self).wf(),
    {
        init_components(&mut self.components, self.sampling_factor, color);
    }

    /// Transforms and quantizes all blocks of the image, component by
    /// component and row by row.
    #[verifier::spinoff_prover]
    #[verifier::rlimit(40)]
    pub fn encode_blocks<I: ImageBuffer, F: FDCT, Q: BlockQuantizer>(
        &mut self,
        image: &I,
        q_tables: &[QuantizationTable; 2],
    ) -> (blocks: [Vec<AlignedBlock>; 4])
        requires
            components_wf(old(self)@.components),
            old(self)@.components.len() == num_components(image.spec_color_type()),
            image.valid(),
            image.spec_width() > 0,
            image.spec_height() > 0,
        ensures
            final(self)@ == old(self)@,
            forall|c: int|
                0 <= c < 4 ==> #[trigger] blocks[c]@.len() == if c < old(self)@.components.len() {
                    component_blocks(image, old(self)@.components, *q_tables, c).len()
                } else {
                    0
                },
            forall|c: int, j: int|
                0 <= c < old(self)@.components.len() && 0 <= j < blocks[c]@.len() ==> #[trigger] blocks[c]@[j].data@
                    == component_blocks(image, old(self)@.components, *q_tables, c)[j],
    {
        let ghost cs = self@.components;
        let width = image.width();
        let height = image.height();
        let (max_h_sampling, max_v_sampling) = get_max_sampling_size(self.components.as_slice());
        proof {
            lemma_max_factor_choices(cs, cs.len());
            lemma_max_sampling_bounds(cs, cs.len());
            lemma_block_geometry(width as int, max_h_sampling as int, max_h_sampling as int);
            lemma_block_geometry(height as int, max_v_sampling as int, max_v_sampling as int);
        }

        let padded_cols = div_ceil(width as usize, 8 * max_h_sampling) * max_h_sampling;
        let padded_rows = div_ceil(height as usize, 8 * max_v_sampling) * max_v_sampling;

        let buffer_width = padded_cols * 8;
        // The number of samples per component, as a capacity hint.
        let buffer_size = match padded_cols.checked_mul(padded_rows * 64) {
            Some(size) => size,
            None => 0,
        };

        let row = fill_planes(image, self.components.as_slice(), padded_rows * 8, buffer_width, buffer_size);
        let plane_len = row[0].len();

        let num_cols = div_ceil(width as usize, 8);
        let num_rows = div_ceil(height as usize, 8);

        let mut blocks: [Vec<AlignedBlock>; 4] = allocate_component_vecs(self.components.as_slice(), buffer_size / 64);
        let n = self.components.len();
        let mut i: usize = 0;
        while i < n
            invariant
                i <= n,
                n == cs.len(),
                self@.components == cs,
                components_wf(cs),
                image.valid(),
                width == image.spec_width(),
                height == image.spec_height(),
                width > 0,
                height > 0,
                max_h_sampling == max_h_factor(cs, cs.len()),
                max_v_sampling == max_v_factor(cs, cs.len()),
                max_h_sampling == 1 || max_h_sampling == 2 || max_h_sampling == 4,
                max_v_sampling == 1 || max_v_sampling == 2 || max_v_sampling == 4,
                forall|k: int| 0 <= k < cs.len() ==> #[trigger] cs[k].horizontal_sampling_factor <= max_h_sampling,
                forall|k: int| 0 <= k < cs.len() ==> #[trigger] cs[k].vertical_sampling_factor <= max_v_sampling,
                num_cols == ceil_div(width as int, 8),
                num_rows == ceil_div(height as int, 8),
                padded_cols == ceil_div(width as int, 8 * max_h_sampling) * max_h_sampling,
                padded_rows == ceil_div(height as int, 8 * max_v_sampling) * max_v_sampling,
                buffer_width == padded_cols * 8,
                plane_len == padded_rows * 8 * buffer_width,
                forall|c: int|
                    0 <= c < 4 ==> #[trigger] row[c]@ == if c < n {
                        plane(image, c, buffer_width as int, plane_len as int)
                    } else {
                        Seq::<u8>::empty()
                    },
                forall|c: int|
                    0 <= c < 4 ==> #[trigger] blocks[c]@.len() == if c < i {
                        component_blocks(image, cs, *q_tables, c).len()
                    } else {
                        0
                    },
                forall|c: int, j: int|
                    0 <= c < i && 0 <= j < blocks[c]@.len() ==> #[trigger] blocks[c]@[j].data@
                        == component_blocks(image, cs, *q_tables, c)[j],
            decreases n - i,
        {
            let component = &self.components[i];
            let h_scale = max_h_sampling / component.horizontal_sampling_factor as usize;
            let v_scale = max_v_sampling / component.vertical_sampling_factor as usize;
            proof {
                lemma_block_geometry(width as int, max_h_sampling as int, component.horizontal_sampling_factor as int);
                lemma_block_geometry(height as int, max_v_sampling as int, component.vertical_sampling_factor as int);
            }
            let cols = div_ceil(num_cols, h_scale);
            let rows = div_ceil(num_rows, v_scale);
            proof {
                assert(cols * 8 * h_scale <= buffer_width) by (nonlinear_arith)
                    requires
                        cols * h_scale <= padded_cols,
                        buffer_width == padded_cols * 8,
                ;
                assert((rows * 8 * v_scale) * buffer_width <= plane_len) by (nonlinear_arith)
                    requires
                        rows * v_scale <= padded_rows,
                        plane_len == padded_rows * 8 * buffer_width,
                ;
            }
            let ghost before = blocks;
            code_component_blocks::<I, F, Q>(
                image,
                &row[i],
                i,
                buffer_width,
                plane_len,
                cols,
                rows,
                h_scale,
                v_scale,
                &q_tables[component.quantization_table as usize],
                &mut blocks[i],
            );
            proof {
                assert(blocks[i as int]@.len() == component_blocks(image, cs, *q_tables, i as int).len());
                assert forall|j: int| 0 <= j < blocks[i as int]@.len() implies #[trigger] blocks[i as int]@[j].data@
                    == component_blocks(image, cs, *q_tables, i as int)[j] by {}
            }
            i += 1;
        }
        blocks
    }

    /// The same blocks as `encode_blocks`, drawn from one block iterator
    /// per component.
    #[verifier::spinoff_prover]
    #[verifier::rlimit(40)]
    pub fn encode_blocks_iter<I: ImageBuffer, F: FDCT, Q: BlockQuantizer>(
        &mut self,
        image: &I,
        q_tables: &[QuantizationTable; 2],
    ) -> (blocks: [Vec<AlignedBlock>; 4])
        requires
            components_wf(old(self)@.components),
            old(self)@.components.len() == num_components(image.spec_color_type()),
            image.valid(),
            image.spec_width() > 0,
            image.spec_height() > 0,
        ensures
            final(self)@ == old(self)@,
            forall|c: int|
                0 <= c < 4 ==> #[trigger] blocks[c]@.len() == if c < old(self)@.components.len() {
                    component_blocks(image, old(self)@.components, *q_tables, c).len()
                } else {
                    0
                },
            forall|c: int, j: int|
                0 <= c < old(self)@.components.len() && 0 <= j < blocks[c]@.len() ==> #[trigger] blocks[c]@[j].data@
                    == component_blocks(image, old(self)@.components, *q_tables, c)[j],
    {
        let ghost cs = self@.components;
        let mut iters = block_iterators::<I, F, Q>(image, q_tables, self.components.as_slice());
        let mut lists = block_lists_new();
        let n = iters.len();
        let mut k: usize = 0;
        while k < n
            invariant
                k <= n,
                n == cs.len(),
                components_wf(cs),
                iters@.len() == n - k,
                forall|c: int| 0 <= c < n - k ==> component_iter(image, q_tables, cs, c + k, #[trigger] iters@[c]),
                block_lists(lists).len() == k,
                forall|c: int|
                    0 <= c < k ==> #[trigger] block_lists(lists)[c].len() == component_blocks(image, cs, *q_tables, c).len(),
                forall|c: int, j: int|
                    0 <= c < k && 0 <= j < block_lists(lists)[c].len() ==> #[trigger] block_lists(lists)[c][j].data@
                        == component_blocks(image, cs, *q_tables, c)[j],
            decreases n - k,
        {
            let ghost old_iters = iters@;
            let mut it = iters.remove(0);
            proof {
                assert(it == old_iters[0]);
                assert(component_iter(image, q_tables, cs, 0 + k, old_iters[0]));
                lemma_iter_blocks(image, q_tables, cs, k as int, it);
                assert forall|c: int| 0 <= c < n - (k + 1) implies component_iter(image, q_tables, cs, c + (k + 1), #[trigger] iters@[c]) by {
                    assert(iters@[c] == old_iters[c + 1]);
                }
            }
            let list = collect_blocks(&mut it);
            let ghost before = block_lists(lists);
            let pushed = block_lists_push(&mut lists, list);
            proof {
                assert(pushed);
                assert forall|j: int| 0 <= j < block_lists(lists)[k as int].len() implies #[trigger] block_lists(lists)[k as int][j].data@
                    == component_blocks(image, cs, *q_tables, k as int)[j] by {
                    assert(block_lists(lists)[k as int] == list@);
                }
            }
            k += 1;
        }
        let mut m = block_lists_len(&lists);
        while m < 4
            invariant
                n <= m <= 4,
                n == cs.len(),
                m == block_lists(lists).len(),
                forall|c: int|
                    0 <= c < m ==> #[trigger] block_lists(lists)[c].len() == if c < n {
                        component_blocks(image, cs, *q_tables, c).len()
                    } else {
                        0
                    },
                forall|c: int, j: int|
                    0 <= c < n && 0 <= j < block_lists(lists)[c].len() ==> #[trigger] block_lists(lists)[c][j].data@
                        == component_blocks(image, cs, *q_tables, c)[j],
            decreases 4 - m,
        {
            block_lists_push(&mut lists, Vec::new());
            m = block_lists_len(&lists);
        }
        match block_lists_into_array(lists) {
            Some(arr) => arr,
            None => {
                proof {
                    assert(false);
                }
                [Vec::new(), Vec::new(), Vec::new(), Vec::new()]
            },
        }
    }
}

/// The stream is between two segments: no bits are held back.
pub open spec fn at_rest<B: BitStream>(s: B) -> bool {
    &&& s.inv()
    &&& s.settled()
    &&& s.tail() == Seq::<bool>::empty()
}

/// The segments in front of the scans: the frame header, both quantization
/// tables, the Huffman tables in use and the restart interval.
pub open spec fn frame_segments(
    width: u16,
    height: u16,
    cs: Seq<Component>,
    progressive: bool,
    q_tables: [QuantizationTable; 2],
    tables: [(HuffmanTable, HuffmanTable); 2],
    color_components: nat,
    restart_interval: Option<u16>,
) -> Seq<u8> {
    frame_header_bytes(width, height, cs, progressive)
        + quantization_segment_bytes(0, q_tables[0])
        + quantization_segment_bytes(1, q_tables[1])
        + huffman_segment_bytes(CodingClass::Dc, 0, tables[0].0)
        + huffman_segment_bytes(CodingClass::Ac, 0, tables[0].1)
        + (if color_components >= 3 {
            huffman_segment_bytes(CodingClass::Dc, 1, tables[1].0) + huffman_segment_bytes(CodingClass::Ac, 1, tables[1].1)
        } else {
            Seq::<u8>::empty()
        })
        + match restart_interval {
            Some(r) => dri_bytes(r),
            None => Seq::<u8>::empty(),
        }
}

/// The coefficients of each block.
pub open spec fn block_data(blocks: Seq<AlignedBlock>) -> Seq<Seq<i16>> {
    Seq::new(blocks.len(), |j: int| blocks[j].data@)
}

/// Every coefficient has at most 13 magnitude bits.
pub open spec fn blocks_bounded(blocks: Seq<Seq<i16>>) -> bool {
    forall|j: int, k: int| 0 <= j < blocks.len() && 0 <= k < 64 ==> -5120 <= #[trigger] blocks[j][k] <= 5120
}

/// The DC value that block `j` is coded against: the previous block's,
/// or zero at the start of the scan and after each restart marker.
pub open spec fn prev_dc_of(blocks: Seq<Seq<i16>>, r: nat, j: int) -> i16 {
    if j == 0 || restart_before(r, j) {
        0
    } else {
        blocks[j - 1][0]
    }
}

/// The entropy-coded bits of a block given as a sequence of coefficients.
pub open spec fn seq_block_bits(dc: HuffmanTable, ac: HuffmanTable, d: Seq<i16>, prev_dc: i16) -> Seq<bool> {
    dc_bits(dc, d[0], prev_dc) + ac_bits(ac, d.subrange(1, 64), 0)
}

/// The units of a sequential scan: the blocks of one component.
pub open spec fn sequential_units(blocks: Seq<Seq<i16>>, dc: HuffmanTable, ac: HuffmanTable, r: nat) -> Seq<Seq<bool>> {
    Seq::new(blocks.len(), |j: int| seq_block_bits(dc, ac, blocks[j], prev_dc_of(blocks, r, j)))
}

/// The units of a progressive DC scan: the DC coefficient of each block.
pub open spec fn dc_units(blocks: Seq<Seq<i16>>, dc: HuffmanTable, r: nat) -> Seq<Seq<bool>> {
    Seq::new(blocks.len(), |j: int| dc_bits(dc, blocks[j][0], prev_dc_of(blocks, r, j)))
}

/// The units of a progressive AC scan: coefficients `start..end` of each block.
pub open spec fn ac_units(blocks: Seq<Seq<i16>>, ac: HuffmanTable, start: int, end: int) -> Seq<Seq<bool>> {
    Seq::new(blocks.len(), |j: int| ac_bits(ac, blocks[j].subrange(start, end), 0))
}

/// One scan per component, each holding the component's blocks.
pub open spec fn sequential_scans(
    cs: Seq<Component>,
    blocks: Seq<Seq<Seq<i16>>>,
    tables: [(HuffmanTable, HuffmanTable); 2],
    r: nat,
    n: nat,
) -> Seq<u8>
    decreases n,
{
    if n == 0 {
        Seq::<u8>::empty()
    } else {
        let i = n - 1;
        let c = cs[i];
        sequential_scans(cs, blocks, tables, r, (n - 1) as nat) + scan_header_bytes(seq![&c], None)
            + scan_bytes(
            sequential_units(blocks[i], tables[c.dc_huffman_table as int].0, tables[c.ac_huffman_table as int].1, r),
            r,
        )
    }
}

/// The first scans of a progressive image: the DC coefficients of each component.
pub open spec fn dc_scans(
    cs: Seq<Component>,
    blocks: Seq<Seq<Seq<i16>>>,
    tables: [(HuffmanTable, HuffmanTable); 2],
    r: nat,
    n: nat,
) -> Seq<u8>
    decreases n,
{
    if n == 0 {
        Seq::<u8>::empty()
    } else {
        let i = n - 1;
        let c = cs[i];
        dc_scans(cs, blocks, tables, r, (n - 1) as nat) + scan_header_bytes(seq![&c], Some((0u8, 0u8)))
            + scan_bytes(dc_units(blocks[i], tables[c.dc_huffman_table as int].0, r), r)
    }
}

/// The coefficient range `start..end` of AC scan `s` when the 63 AC
/// coefficients are spread over `ac_scans` scans: `64 / ac_scans` per scan,
/// the first scan starting at 1 and the last one taking what rounding left.
/// With 33 or more AC scans (one coefficient each) scan `s` takes
/// coefficient `s + 1`, so that no scan is empty.
pub open spec fn ac_range(ac_scans: int, s: int) -> (int, int) {
    let per_scan = 64int / ac_scans;
    if per_scan == 1 {
        (s + 1, if s == ac_scans - 1 { 64 } else { s + 2 })
    } else {
        let start = if s * per_scan > 1 { s * per_scan } else { 1 };
        let end = if s == ac_scans - 1 { 64 } else { (s + 1) * per_scan };
        (start, end)
    }
}

/// The coefficient range of AC scan `scan` out of `ac_scans`.
fn ac_band(ac_scans: usize, scan: usize) -> (r: (usize, usize))
    requires
        1 <= ac_scans <= 63,
        scan < ac_scans,
    ensures
        (r.0 as int, r.1 as int) == ac_range(ac_scans as int, scan as int),
        1 <= r.0 < r.1 <= 64,
{
    proof {
        lemma_ac_range(ac_scans as int, scan as int);
    }
    let per_scan = 64 / ac_scans;
    if per_scan == 1 {
        let end = if scan == ac_scans - 1 { 64 } else { scan + 2 };
        (scan + 1, end)
    } else {
        proof {
            assert(per_scan * ac_scans <= 64 && scan * per_scan <= (scan + 1) * per_scan <= ac_scans * per_scan)
                by (nonlinear_arith)
                requires
                    per_scan == 64usize / ac_scans,
                    1 <= ac_scans,
                    scan < ac_scans,
            ;
        }
        let start = if scan * per_scan > 1 { scan * per_scan } else { 1 };
        let end = if scan == ac_scans - 1 { 64 } else { (scan + 1) * per_scan };
        (start, end)
    }
}

/// The scans of coefficients `start..end`, one per component.
pub open spec fn ac_scans_of_range(
    cs: Seq<Component>,
    blocks: Seq<Seq<Seq<i16>>>,
    tables: [(HuffmanTable, HuffmanTable); 2],
    r: nat,
    start: int,
    end: int,
    n: nat,
) -> Seq<u8>
    decreases n,
{
    if n == 0 {
        Seq::<u8>::empty()
    } else {
        let i = n - 1;
        let c = cs[i];
        ac_scans_of_range(cs, blocks, tables, r, start, end, (n - 1) as nat) + scan_header_bytes(
            seq![&c],
            Some((start as u8, (end - 1) as u8)),
        ) + scan_bytes(ac_units(blocks[i], tables[c.ac_huffman_table as int].1, start, end), r)
    }
}

/// The AC scans of a progressive image, range by range.
pub open spec fn ac_scans(
    cs: Seq<Component>,
    blocks: Seq<Seq<Seq<i16>>>,
    tables: [(HuffmanTable, HuffmanTable); 2],
    r: nat,
    num_ac_scans: int,
    s: nat,
) -> Seq<u8>
    decreases s,
{
    if s == 0 {
        Seq::<u8>::empty()
    } else {
        let (start, end) = ac_range(num_ac_scans, s - 1);
        ac_scans(cs, blocks, tables, r, num_ac_scans, (s - 1) as nat) + ac_scans_of_range(
            cs,
            blocks,
            tables,
            r,
            start,
            end,
            cs.len(),
        )
    }
}

/// AC scan `s` covers a non-empty range within 1..64 that starts where the
/// scan before it ended; the first starts at 1 and the last ends at 64.
pub proof fn lemma_ac_range(ac_scans: int, s: int)
    requires
        1 <= ac_scans <= 63,
        0 <= s < ac_scans,
    ensures
        1 <= ac_range(ac_scans, s).0 < ac_range(ac_scans, s).1 <= 64,
        s == 0 ==> ac_range(ac_scans, s).0 == 1,
        s > 0 ==> ac_range(ac_scans, s).0 == ac_range(ac_scans, s - 1).1,
        s == ac_scans - 1 ==> ac_range(ac_scans, s).1 == 64,
{
    let per = 64int / ac_scans;
    assert(1 <= per && per * ac_scans <= 64) by (nonlinear_arith)
        requires
            1 <= ac_scans <= 63,
            per == 64int / ac_scans,
    ;
    if per > 1 {
        assert(0 <= s * per && (s == 0 ==> s * per == 0) && s * per + per == (s + 1) * per && (s + 1) * per
            <= ac_scans * per && (s > 0 ==> s * per >= per) && (s - 1) * per + per == s * per) by (nonlinear_arith)
            requires
                0 <= s < ac_scans,
                2 <= per,
        ;
    }
}

/// The coded blocks of every component have coefficients of at most 13 bits.
pub proof fn lemma_component_blocks_bounded<I: ImageBuffer>(image: &I, cs: Seq<Component>, q_tables: [QuantizationTable; 2], c: int)
    requires
        0 <= c < cs.len(),
        cs[c].quantization_table <= 1,
        table_in_range(q_tables[0]),
        table_in_range(q_tables[1]),
    ensures
        blocks_bounded(component_blocks(image, cs, q_tables, c)),
        forall|j: int| 0 <= j < component_blocks(image, cs, q_tables, c).len() ==> #[trigger] component_blocks(image, cs, q_tables, c)[j].len() == 64,
{
    let blocks = component_blocks(image, cs, q_tables, c);
    let t = q_tables[cs[c].quantization_table as int];
    assert forall|j: int, k: int| 0 <= j < blocks.len() && 0 <= k < 64 implies -5120 <= #[trigger] blocks[j][k] <= 5120 by {
        let cols = component_cols(image.spec_width() as int, cs, c);
        let samples = image_block(image, c, j % cols, j / cols, h_scale(cs, c), v_scale(cs, c));
        lemma_quantize_value_bounds(fdct_spec(samples)[ZIGZAG[k] as int], t.reciprocal(k), t.correction(k));
    }
}

/// A block of bounded coefficients can be coded against any bounded DC value.
pub proof fn lemma_block_codable(a: AlignedBlock, prev_dc: i16)
    requires
        forall|k: int| 0 <= k < 64 ==> -5120 <= #[trigger] a.data[k] <= 5120,
        -5120 <= prev_dc <= 5120,
    ensures
        block_codable(a.data, prev_dc),
        codable(a.data[0] - prev_dc),
        forall|s: int, e: int| 0 <= s <= e <= 64 ==> all_codable(#[trigger] a.data@.subrange(s, e)),
        block_bits(arbitrary(), arbitrary(), a.data, prev_dc) == seq_block_bits(arbitrary(), arbitrary(), a.data@, prev_dc),
{
    assert forall|s: int, e: int| 0 <= s <= e <= 64 implies all_codable(#[trigger] a.data@.subrange(s, e)) by {
        assert forall|i: int| 0 <= i < e - s implies codable(#[trigger] a.data@.subrange(s, e)[i] as int) by {
            assert(a.data@.subrange(s, e)[i] == a.data[s + i]);
        }
    }
}

impl<W: BitStream> Encoder<W> {
    fn write_frame_header<I: ImageBuffer>(&mut self, image: &I, q_tables: &[QuantizationTable; 2]) -> (r: Result<(), EncodingError>)
        requires
            at_rest(old(self)@.stream),
            old(self)@.components.len() <= 4,
        ensures
            W::infallible() ==> r is Ok,
            final(self)@ == (EncoderState { stream: final(self)@.stream, ..old(self)@ }),
            r is Ok ==> at_rest(final(self)@.stream),
            r is Ok ==> final(self)@.stream.out() == old(self)@.stream.out() + frame_segments(
                image.spec_width(),
                image.spec_height(),
                old(self)@.components,
                old(self)@.progressive_scans is Some,
                *q_tables,
                old(self)@.huffman_tables,
                num_components(image.spec_color_type()),
                old(self)@.restart_interval,
            ),
    {
        let ghost s0 = self.writer.stream();
        self.writer.write_frame_header(image.width(), image.height(), self.components.as_slice(), self.progressive_scans.is_some())?;
        let ghost s1 = self.writer.stream();
        self.writer.write_quantization_segment(0, &q_tables[0])?;
        let ghost s2 = self.writer.stream();
        self.writer.write_quantization_segment(1, &q_tables[1])?;
        let ghost s3 = self.writer.stream();
        self.writer.write_huffman_segment(CodingClass::Dc, 0, &self.huffman_tables[0].0)?;
        let ghost s4 = self.writer.stream();
        self.writer.write_huffman_segment(CodingClass::Ac, 0, &self.huffman_tables[0].1)?;
        let ghost s5 = self.writer.stream();
        let ghost p1 = frame_header_bytes(image.spec_width(), image.spec_height(), self@.components, self@.progressive_scans is Some);
        let ghost p2 = quantization_segment_bytes(0, q_tables[0]);
        let ghost p3 = quantization_segment_bytes(1, q_tables[1]);
        let ghost p4 = huffman_segment_bytes(CodingClass::Dc, 0, self@.huffman_tables[0].0);
        let ghost p5 = huffman_segment_bytes(CodingClass::Ac, 0, self@.huffman_tables[0].1);
        proof {
            lemma_wrote_bytes_trans(s0, s1, s2, p1, p2);
            lemma_wrote_bytes_trans(s0, s2, s3, p1 + p2, p3);
            lemma_wrote_bytes_trans(s0, s3, s4, p1 + p2 + p3, p4);
            lemma_wrote_bytes_trans(s0, s4, s5, p1 + p2 + p3 + p4, p5);
        }
        let ghost head = p1 + p2 + p3 + p4 + p5;
        let ghost p6 = if num_components(image.spec_color_type()) >= 3 {
            huffman_segment_bytes(CodingClass::Dc, 1, self@.huffman_tables[1].0) + huffman_segment_bytes(CodingClass::Ac, 1, self@.huffman_tables[1].1)
        } else {
            Seq::<u8>::empty()
        };
        if image.get_jpeg_color_type().get_num_components() >= 3 {
            self.writer.write_huffman_segment(CodingClass::Dc, 1, &self.huffman_tables[1].0)?;
            let ghost s6 = self.writer.stream();
            self.writer.write_huffman_segment(CodingClass::Ac, 1, &self.huffman_tables[1].1)?;
            proof {
                lemma_wrote_bytes_trans(s0, s5, s6, head, huffman_segment_bytes(CodingClass::Dc, 1, self@.huffman_tables[1].0));
                lemma_wrote_bytes_trans(s0, s6, self.writer.stream(), head + huffman_segment_bytes(CodingClass::Dc, 1, self@.huffman_tables[1].0),
                    huffman_segment_bytes(CodingClass::Ac, 1, self@.huffman_tables[1].1));
                assert(head + huffman_segment_bytes(CodingClass::Dc, 1, self@.huffman_tables[1].0) + huffman_segment_bytes(CodingClass::Ac, 1, self@.huffman_tables[1].1) =~= head + p6);
            }
        } else {
            proof {
                assert(head + p6 =~= head);
            }
        }
        let ghost s7 = self.writer.stream();
        match self.restart_interval {
            Some(restart_interval) => {
                self.writer.write_dri(restart_interval)?;
                proof {
                    lemma_wrote_bytes_trans(s0, s7, self.writer.stream(), head + p6, dri_bytes(restart_interval));
                }
            },
            None => {
                proof {
                    assert(head + p6 + Seq::<u8>::empty() =~= head + p6);
                }
            },
        }
        Ok(())
    }
}

/// The coded blocks of all components, as `encode_blocks` computes them.
pub open spec fn image_blocks<I: ImageBuffer>(image: &I, cs: Seq<Component>, q_tables: [QuantizationTable; 2]) -> Seq<Seq<Seq<i16>>> {
    Seq::new(cs.len(), |c: int| component_blocks(image, cs, q_tables, c))
}

/// The restart interval in MCUs, zero when restarts are off.
pub open spec fn interval_of(r: Option<u16>) -> nat {
    match r {
        Some(v) => v as nat,
        None => 0,
    }
}

/// Advances the restart counters past one unit.
fn count_unit(restart_interval: u16, restarts_to_go: &mut u16, restarts: &mut u8, Ghost(j): Ghost<int>)
    requires
        j >= 0,
        counters_ok(restart_interval as nat, j, *old(restarts_to_go) as int, *old(restarts) as int),
    ensures
        counters_ok(restart_interval as nat, j + 1, *final(restarts_to_go) as int, *final(restarts) as int),
{
    if restart_interval > 0 {
        proof {
            lemma_counters_step(restart_interval as nat, j, *restarts_to_go as int, *restarts as int);
        }
        if *restarts_to_go == 0 {
            *restarts_to_go = restart_interval;
            *restarts += 1;
            proof {
                let v = *restarts;
                assert(v <= 8 ==> v & 7 == v % 8) by (bit_vector);
            }
            *restarts &= 7;
        }
        *restarts_to_go -= 1;
    }
}

/// Writes the entropy-coded data of a sequential scan of one component.
fn write_sequential_scan<B: BitStream, H: HuffmanEncoder>(
    writer: &mut JfifWriter<B>,
    blocks: &Vec<AlignedBlock>,
    dc_table: &HuffmanTable,
    ac_table: &HuffmanTable,
    restart_interval: u16,
) -> (r: Result<(), EncodingError>)
    requires
        at_rest(old(writer).stream()),
        blocks_bounded(block_data(blocks@)),
    ensures
        B::infallible() ==> r is Ok,
        r is Ok ==> at_rest(final(writer).stream()),
        r is Ok ==> final(writer).stream().out() == old(writer).stream().out() + scan_bytes(
            sequential_units(block_data(blocks@), *dc_table, *ac_table, restart_interval as nat),
            restart_interval as nat,
        ),
{
    let ghost rr = restart_interval as nat;
    let ghost bd = block_data(blocks@);
    let ghost units = sequential_units(bd, *dc_table, *ac_table, rr);
    let ghost base = writer.stream().out();
    proof {
        lemma_scan_start(writer.stream());
    }
    let mut restarts: u8 = 0;
    let mut restarts_to_go: u16 = restart_interval;
    let mut prev_dc: i16 = 0;
    let mut j: usize = 0;
    while j < blocks.len()
        invariant
            j <= blocks@.len(),
            rr == restart_interval,
            bd == block_data(blocks@),
            blocks_bounded(bd),
            units == sequential_units(bd, *dc_table, *ac_table, rr),
            counters_ok(rr, j as int, restarts_to_go as int, restarts as int),
            holds_scan(writer.stream(), base, scan_state(units, rr, j as nat).0, scan_state(units, rr, j as nat).1),
            prev_dc == if j == 0 { 0 } else { bd[j - 1][0] },
        decreases blocks@.len() - j,
    {
        restart_if_due(writer, restart_interval, restarts_to_go, restarts, Ghost(units), Ghost(j as int), Ghost(base))?;
        let ghost s1 = writer.stream();
        if restart_interval > 0 && restarts_to_go == 0 {
            prev_dc = 0;
        }
        proof {
            if restart_interval > 0 {
                lemma_counters_step(rr, j as int, restarts_to_go as int, restarts as int);
            }
            assert(prev_dc == prev_dc_of(bd, rr, j as int));
            assert(forall|k: int| 0 <= k < 64 ==> -5120 <= #[trigger] blocks@[j as int].data[k] <= 5120) by {
                assert forall|k: int| 0 <= k < 64 implies -5120 <= #[trigger] blocks@[j as int].data[k] <= 5120 by {
                    assert(bd[j as int][k] == blocks@[j as int].data[k]);
                }
            }
            if j > 0 {
                assert(bd[j - 1][0] == blocks@[j - 1].data[0]);
            }
            lemma_block_codable(blocks@[j as int], prev_dc);
        }
        H::write_block(writer, &blocks[j], prev_dc, dc_table, ac_table)?;
        proof {
            let open_bits = if restart_before(rr, j as int) {
                Seq::<bool>::empty()
            } else {
                scan_state(units, rr, j as nat).1
            };
            assert(units[j as int] == block_bits(*dc_table, *ac_table, blocks@[j as int].data, prev_dc));
            lemma_unit_written(s1, writer.stream(), base, scan_state(units, rr, (j + 1) as nat).0, open_bits, units[j as int]);
            assert(open_bits + units[j as int] =~= scan_state(units, rr, (j + 1) as nat).1);
        }
        prev_dc = blocks[j].data[0];
        count_unit(restart_interval, &mut restarts_to_go, &mut restarts, Ghost(j as int));
        j += 1;
    }
    finish_scan(writer, Ghost(units), Ghost(rr), Ghost(base))
}

/// Writes the entropy-coded data of a progressive DC scan of one component.
fn write_dc_scan<B: BitStream>(
    writer: &mut JfifWriter<B>,
    blocks: &Vec<AlignedBlock>,
    dc_table: &HuffmanTable,
    restart_interval: u16,
) -> (r: Result<(), EncodingError>)
    requires
        at_rest(old(writer).stream()),
        blocks_bounded(block_data(blocks@)),
    ensures
        B::infallible() ==> r is Ok,
        r is Ok ==> at_rest(final(writer).stream()),
        r is Ok ==> final(writer).stream().out() == old(writer).stream().out() + scan_bytes(
            dc_units(block_data(blocks@), *dc_table, restart_interval as nat),
            restart_interval as nat,
        ),
{
    let ghost rr = restart_interval as nat;
    let ghost bd = block_data(blocks@);
    let ghost units = dc_units(bd, *dc_table, rr);
    let ghost base = writer.stream().out();
    proof {
        lemma_scan_start(writer.stream());
    }
    let mut restarts: u8 = 0;
    let mut restarts_to_go: u16 = restart_interval;
    let mut prev_dc: i16 = 0;
    let mut j: usize = 0;
    while j < blocks.len()
        invariant
            j <= blocks@.len(),
            rr == restart_interval,
            bd == block_data(blocks@),
            blocks_bounded(bd),
            units == dc_units(bd, *dc_table, rr),
            counters_ok(rr, j as int, restarts_to_go as int, restarts as int),
            holds_scan(writer.stream(), base, scan_state(units, rr, j as nat).0, scan_state(units, rr, j as nat).1),
            prev_dc == if j == 0 { 0 } else { bd[j - 1][0] },
        decreases blocks@.len() - j,
    {
        restart_if_due(writer, restart_interval, restarts_to_go, restarts, Ghost(units), Ghost(j as int), Ghost(base))?;
        let ghost s1 = writer.stream();
        if restart_interval > 0 && restarts_to_go == 0 {
            prev_dc = 0;
        }
        proof {
            if restart_interval > 0 {
                lemma_counters_step(rr, j as int, restarts_to_go as int, restarts as int);
            }
            assert(prev_dc == prev_dc_of(bd, rr, j as int));
            assert(bd[j as int][0] == blocks@[j as int].data[0]);
            assert(-5120 <= bd[j as int][0] <= 5120);
            if j > 0 {
                assert(bd[j - 1][0] == blocks@[j - 1].data[0]);
                assert(-5120 <= bd[j - 1][0] <= 5120);
            }
        }
        DefaultHuffmanEncoder::write_dc(writer, blocks[j].data[0], prev_dc, dc_table)?;
        proof {
            let open_bits = if restart_before(rr, j as int) {
                Seq::<bool>::empty()
            } else {
                scan_state(units, rr, j as nat).1
            };
            lemma_unit_written(s1, writer.stream(), base, scan_state(units, rr, (j + 1) as nat).0, open_bits, units[j as int]);
            assert(open_bits + units[j as int] =~= scan_state(units, rr, (j + 1) as nat).1);
        }
        prev_dc = blocks[j].data[0];
        count_unit(restart_interval, &mut restarts_to_go, &mut restarts, Ghost(j as int));
        j += 1;
    }
    finish_scan(writer, Ghost(units), Ghost(rr), Ghost(base))
}

/// Writes the entropy-coded data of a progressive AC scan of one component:
/// coefficients `start..end` of each block.
fn write_ac_scan<B: BitStream>(
    writer: &mut JfifWriter<B>,
    blocks: &Vec<AlignedBlock>,
    start: usize,
    end: usize,
    ac_table: &HuffmanTable,
    restart_interval: u16,
) -> (r: Result<(), EncodingError>)
    requires
        at_rest(old(writer).stream()),
        blocks_bounded(block_data(blocks@)),
        start <= end <= 64,
    ensures
        B::infallible() ==> r is Ok,
        r is Ok ==> at_rest(final(writer).stream()),
        r is Ok ==> final(writer).stream().out() == old(writer).stream().out() + scan_bytes(
            ac_units(block_data(blocks@), *ac_table, start as int, end as int),
            restart_interval as nat,
        ),
{
    let ghost rr = restart_interval as nat;
    let ghost bd = block_data(blocks@);
    let ghost units = ac_units(bd, *ac_table, start as int, end as int);
    let ghost base = writer.stream().out();
    proof {
        lemma_scan_start(writer.stream());
    }
    let mut restarts: u8 = 0;
    let mut restarts_to_go: u16 = restart_interval;
    let mut j: usize = 0;
    while j < blocks.len()
        invariant
            j <= blocks@.len(),
            start <= end <= 64,
            rr == restart_interval,
            bd == block_data(blocks@),
            blocks_bounded(bd),
            units == ac_units(bd, *ac_table, start as int, end as int),
            counters_ok(rr, j as int, restarts_to_go as int, restarts as int),
            holds_scan(writer.stream(), base, scan_state(units, rr, j as nat).0, scan_state(units, rr, j as nat).1),
        decreases blocks@.len() - j,
    {
        restart_if_due(writer, restart_interval, restarts_to_go, restarts, Ghost(units), Ghost(j as int), Ghost(base))?;
        let ghost s1 = writer.stream();
        proof {
            assert(forall|k: int| 0 <= k < 64 ==> -5120 <= #[trigger] blocks@[j as int].data[k] <= 5120) by {
                assert forall|k: int| 0 <= k < 64 implies -5120 <= #[trigger] blocks@[j as int].data[k] <= 5120 by {
                    assert(bd[j as int][k] == blocks@[j as int].data[k]);
                }
            }
            lemma_block_codable(blocks@[j as int], 0);
            assert(all_codable(blocks@[j as int].data@.subrange(start as int, end as int)));
        }
        DefaultHuffmanEncoder::write_ac_block(writer, &blocks[j], start, end, ac_table)?;
        proof {
            let open_bits = if restart_before(rr, j as int) {
                Seq::<bool>::empty()
            } else {
                scan_state(units, rr, j as nat).1
            };
            lemma_unit_written(s1, writer.stream(), base, scan_state(units, rr, (j + 1) as nat).0, open_bits, units[j as int]);
            assert(open_bits + units[j as int] =~= scan_state(units, rr, (j + 1) as nat).1);
        }
        count_unit(restart_interval, &mut restarts_to_go, &mut restarts, Ghost(j as int));
        j += 1;
    }
    finish_scan(writer, Ghost(units), Ghost(rr), Ghost(base))
}

/// The blocks that `encode_blocks` returns are those of `image_blocks`.
pub open spec fn blocks_match<I: ImageBuffer>(image: &I, cs: Seq<Component>, q_tables: [QuantizationTable; 2], blocks: [Vec<AlignedBlock>; 4]) -> bool {
    forall|c: int| 0 <= c < cs.len() ==> block_data(#[trigger] blocks[c]@) == image_blocks(image, cs, q_tables)[c]
}

impl<W: BitStream> Encoder<W> {
    /// The blocks of the image, with the facts the scan writers need.
    fn encode_blocks_checked<I: ImageBuffer, F: FDCT, Q: BlockQuantizer>(
        &mut self,
        image: &I,
        q_tables: &[QuantizationTable; 2],
    ) -> (blocks: [Vec<AlignedBlock>; 4])
        requires
            components_wf(old(self)@.components),
            old(self)@.components.len() == num_components(image.spec_color_type()),
            image.valid(),
            image.spec_width() > 0,
            image.spec_height() > 0,
            table_in_range(q_tables[0]),
            table_in_range(q_tables[1]),
        ensures
            final(self)@ == old(self)@,
            blocks_match(image, old(self)@.components, *q_tables, blocks),
            forall|c: int| 0 <= c < old(self)@.components.len() ==> blocks_bounded(block_data(#[trigger] blocks[c]@)),
    {
        let ghost cs = self@.components;
        let blocks = self.encode_blocks::<I, F, Q>(image, q_tables);
        proof {
            assert forall|c: int| 0 <= c < cs.len() implies block_data(#[trigger] blocks[c]@) == image_blocks(image, cs, *q_tables)[c]
                && blocks_bounded(block_data(blocks[c]@)) by {
                assert(block_data(blocks[c]@) =~= component_blocks(image, cs, *q_tables, c));
                lemma_component_blocks_bounded(image, cs, *q_tables, c);
            }
        }
        blocks
    }

    /// Encode components with one scan per component
    fn encode_image_sequential<I: ImageBuffer, F: FDCT, Q: BlockQuantizer, H: HuffmanEncoder>(
        &mut self,
        image: I,
        q_tables: &[QuantizationTable; 2],
    ) -> (r: Result<(), EncodingError>)
        requires
            at_rest(old(self)@.stream),
            components_wf(old(self)@.components),
            old(self)@.components.len() == num_components(image.spec_color_type()),
            old(self)@.progressive_scans matches Some(s) ==> 2 <= s <= 64,
            image.valid(),
            image.spec_width() > 0,
            image.spec_height() > 0,
            table_in_range(q_tables[0]),
            table_in_range(q_tables[1]),
            old(self)@.optimize_huffman_table ==> 128 * total_blocks(
                image_blocks(&image, old(self)@.components, *q_tables),
                old(self)@.components.len(),
            ) + 70 < 0xFFFF_FFFF_FFFF,
        ensures
            W::infallible() ==> r is Ok,
            final(self)@ == (EncoderState {
                stream: final(self)@.stream,
                huffman_tables: final(self)@.huffman_tables,
                ..old(self)@
            }),
            old(self)@.optimize_huffman_table ==> tables_optimized(
                old(self)@.huffman_tables,
                final(self)@.huffman_tables,
                old(self)@.components,
                image_blocks(&image, old(self)@.components, *q_tables),
                old(self)@.progressive_scans,
            ),
            !old(self)@.optimize_huffman_table ==> final(self)@.huffman_tables == old(self)@.huffman_tables,
            r is Ok ==> at_rest(final(self)@.stream),
            r is Ok ==> final(self)@.stream.out() == old(self)@.stream.out() + frame_segments(
                image.spec_width(),
                image.spec_height(),
                old(self)@.components,
                old(self)@.progressive_scans is Some,
                *q_tables,
                final(self)@.huffman_tables,
                num_components(image.spec_color_type()),
                old(self)@.restart_interval,
            ) + sequential_scans(
                old(self)@.components,
                image_blocks(&image, old(self)@.components, *q_tables),
                final(self)@.huffman_tables,
                interval_of(old(self)@.restart_interval),
                old(self)@.components.len(),
            ),
    {
        let ghost cs = self@.components;
        let ghost all_blocks = image_blocks(&image, cs, *q_tables);
        let blocks = self.encode_blocks_checked::<I, F, Q>(&image, q_tables);
        if self.optimize_huffman_table {
            self.optimize_for_image(&image, q_tables, &blocks);
        }
        self.write_frame_header(&image, q_tables)?;
        let restart_interval: u16 = match self.restart_interval {
            Some(v) => v,
            None => 0,
        };
        write_sequential_scans::<W, H>(
            &mut self.writer,
            &self.components,
            &blocks,
            &self.huffman_tables,
            restart_interval,
            Ghost(all_blocks),
        )
    }
}

/// Writes one scan per component.
#[verifier::spinoff_prover]
#[verifier::rlimit(40)]
fn write_sequential_scans<B: BitStream, H: HuffmanEncoder>(
    writer: &mut JfifWriter<B>,
    components: &Vec<Component>,
    blocks: &[Vec<AlignedBlock>; 4],
    tables: &[(HuffmanTable, HuffmanTable); 2],
    restart_interval: u16,
    Ghost(all_blocks): Ghost<Seq<Seq<Seq<i16>>>>,
) -> (r: Result<(), EncodingError>)
    requires
        at_rest(old(writer).stream()),
        components_wf(components@),
        forall|c: int| 0 <= c < components@.len() ==> block_data(#[trigger] blocks[c]@) == all_blocks[c],
        forall|c: int| 0 <= c < components@.len() ==> blocks_bounded(block_data(#[trigger] blocks[c]@)),
    ensures
        B::infallible() ==> r is Ok,
        r is Ok ==> at_rest(final(writer).stream()),
        r is Ok ==> final(writer).stream().out() == old(writer).stream().out() + sequential_scans(
            components@,
            all_blocks,
            *tables,
            restart_interval as nat,
            components@.len(),
        ),
{
    let ghost cs = components@;
    let ghost head = writer.stream().out();
    let mut i: usize = 0;
    while i < components.len()
        invariant
            i <= cs.len(),
            cs == components@,
            components_wf(cs),
            at_rest(writer.stream()),
            forall|c: int| 0 <= c < cs.len() ==> block_data(#[trigger] blocks[c]@) == all_blocks[c],
            forall|c: int| 0 <= c < cs.len() ==> blocks_bounded(block_data(#[trigger] blocks[c]@)),
            writer.stream().out() == head + sequential_scans(cs, all_blocks, *tables, restart_interval as nat, i as nat),
        decreases cs.len() - i,
    {
        let component = &components[i];
        writer.write_scan_header(&[component], None)?;
        proof {
            assert(cs[i as int].dc_huffman_table <= 1 && cs[i as int].ac_huffman_table <= 1);
            assert(block_data(blocks[i as int]@) == all_blocks[i as int]);
            assert(blocks_bounded(block_data(blocks[i as int]@)));
        }
        write_sequential_scan::<B, H>(
            writer,
            &blocks[i],
            &tables[component.dc_huffman_table as usize].0,
            &tables[component.ac_huffman_table as usize].1,
            restart_interval,
        )?;
        proof {
            let c = cs[i as int];
            assert([component]@ =~= seq![&c]);
            assert(writer.stream().out() =~= head + sequential_scans(cs, all_blocks, *tables, restart_interval as nat, (i + 1) as nat));
        }
        i += 1;
    }
    Ok(())
}

pub proof fn lemma_total_blocks_agree(b1: Seq<Seq<Seq<i16>>>, b2: Seq<Seq<Seq<i16>>>, n: nat)
    requires
        forall|c: int| 0 <= c < n ==> #[trigger] b1[c] == b2[c],
    ensures
        total_blocks(b1, n) == total_blocks(b2, n),
    decreases n,
{
    if n > 0 {
        lemma_total_blocks_agree(b1, b2, (n - 1) as nat);
        assert(b1[n - 1] == b2[n - 1]);
    }
}

/// The buffers hold the coded blocks of each component.
pub proof fn lemma_block_data_agree(all_blocks: Seq<Seq<Seq<i16>>>, blocks: [Vec<AlignedBlock>; 4], n: nat)
    requires
        n <= 4,
        forall|c: int| 0 <= c < n ==> block_data(#[trigger] blocks[c]@) == all_blocks[c],
    ensures
        forall|c: int| 0 <= c < n ==> #[trigger] all_block_data(blocks)[c] == all_blocks[c],
{
}

pub proof fn lemma_tables_optimized_agree(
    before: [(HuffmanTable, HuffmanTable); 2],
    after: [(HuffmanTable, HuffmanTable); 2],
    cs: Seq<Component>,
    b1: Seq<Seq<Seq<i16>>>,
    b2: Seq<Seq<Seq<i16>>>,
    scans: Option<u8>,
)
    requires
        cs.len() <= 4,
        forall|c: int| 0 <= c < cs.len() ==> #[trigger] b1[c] == b2[c],
        tables_optimized(before, after, cs, b1, scans),
    ensures
        tables_optimized(before, after, cs, b2, scans),
{
    assert forall|t: u8| #[trigger] table_dc_symbols(cs, b1, t, cs.len()) == table_dc_symbols(cs, b2, t, cs.len())
        && table_ac_symbols(cs, b1, t, scans, cs.len()) == table_ac_symbols(cs, b2, t, scans, cs.len()) by {
        lemma_table_symbols_agree(cs, b1, b2, t, scans, cs.len());
    }
}

pub proof fn lemma_table_symbols_agree(cs: Seq<Component>, b1: Seq<Seq<Seq<i16>>>, b2: Seq<Seq<Seq<i16>>>, t: u8, scans: Option<u8>, n: nat)
    requires
        n <= cs.len(),
        forall|c: int| 0 <= c < cs.len() ==> #[trigger] b1[c] == b2[c],
    ensures
        table_dc_symbols(cs, b1, t, n) == table_dc_symbols(cs, b2, t, n),
        table_ac_symbols(cs, b1, t, scans, n) == table_ac_symbols(cs, b2, t, scans, n),
    decreases n,
{
    if n > 0 {
        lemma_table_symbols_agree(cs, b1, b2, t, scans, (n - 1) as nat);
        assert(b1[n - 1] == b2[n - 1]);
    }
}

/// The number of times `x` occurs in `s`.
pub open spec fn count_of(s: Seq<int>, x: int) -> nat
    decreases s.len(),
{
    if s.len() == 0 {
        0
    } else {
        count_of(s.drop_last(), x) + if s.last() == x { 1nat } else { 0nat }
    }
}

pub proof fn lemma_count_push(s: Seq<int>, v: int, x: int)
    ensures
        count_of(s.push(v), x) == count_of(s, x) + if v == x { 1nat } else { 0nat },
{
    assert(s.push(v).drop_last() =~= s);
}

pub proof fn lemma_count_le(s: Seq<int>, x: int)
    ensures
        count_of(s, x) <= s.len(),
    decreases s.len(),
{
    if s.len() > 0 {
        lemma_count_le(s.drop_last(), x);
    }
}

/// The Huffman symbols of AC coefficients after `zero_run` zeros: 0xF0 for
/// each run of sixteen zeros before a non-zero coefficient, then (run,
/// category), and 0x00 for trailing zeros.
pub open spec fn ac_symbols(coefs: Seq<i16>, zero_run: nat) -> Seq<int>
    decreases coefs.len(),
{
    if coefs.len() == 0 {
        if zero_run > 0 {
            seq![0int]
        } else {
            Seq::<int>::empty()
        }
    } else if coefs[0] == 0 {
        ac_symbols(coefs.drop_first(), zero_run + 1)
    } else {
        Seq::new(zero_run / 16, |i: int| 0xF0int) + seq![((zero_run % 16) * 16 + category(abs(coefs[0] as int))) as int]
            + ac_symbols(coefs.drop_first(), 0)
    }
}

pub proof fn lemma_ac_symbols_len(coefs: Seq<i16>, zero_run: nat)
    ensures
        ac_symbols(coefs, zero_run).len() <= coefs.len() + zero_run + 1,
    decreases coefs.len(),
{
    if coefs.len() > 0 {
        if coefs[0] == 0 {
            lemma_ac_symbols_len(coefs.drop_first(), zero_run + 1);
        } else {
            lemma_ac_symbols_len(coefs.drop_first(), 0);
        }
    }
}

/// The Huffman symbols of the DC differences of a component (not reset at restarts).
pub open spec fn dc_symbols(blocks: Seq<Seq<i16>>) -> Seq<int> {
    Seq::new(
        blocks.len(),
        |j: int| category(abs(blocks[j][0] - if j == 0 { 0 } else { blocks[j - 1][0] as int })) as int,
    )
}

/// The AC symbols of coefficients `start..end` of the first `n` blocks.
pub open spec fn ac_block_symbols(blocks: Seq<Seq<i16>>, start: int, end: int, n: nat) -> Seq<int>
    decreases n,
{
    if n == 0 {
        Seq::<int>::empty()
    } else {
        ac_block_symbols(blocks, start, end, (n - 1) as nat) + ac_symbols(blocks[n - 1].subrange(start, end), 0)
    }
}

/// The AC symbols of the first `s` progressive AC scans of a component.
pub open spec fn ac_range_symbols(blocks: Seq<Seq<i16>>, num_ac_scans: int, s: nat) -> Seq<int>
    decreases s,
{
    if s == 0 {
        Seq::<int>::empty()
    } else {
        let (start, end) = ac_range(num_ac_scans, s - 1);
        ac_range_symbols(blocks, num_ac_scans, (s - 1) as nat) + ac_block_symbols(blocks, start, end, blocks.len())
    }
}

/// The AC symbols of a component, sequential or progressive.
pub open spec fn component_ac_symbols(blocks: Seq<Seq<i16>>, progressive_scans: Option<u8>) -> Seq<int> {
    match progressive_scans {
        Some(scans) => ac_range_symbols(blocks, scans - 1, (scans - 1) as nat),
        None => ac_block_symbols(blocks, 1, 64, blocks.len()),
    }
}

/// The DC symbols coded with table `t`, component by component.
pub open spec fn table_dc_symbols(cs: Seq<Component>, blocks: Seq<Seq<Seq<i16>>>, t: u8, n: nat) -> Seq<int>
    decreases n,
{
    if n == 0 {
        Seq::<int>::empty()
    } else {
        table_dc_symbols(cs, blocks, t, (n - 1) as nat) + if cs[n - 1].dc_huffman_table == t {
            dc_symbols(blocks[n - 1])
        } else {
            Seq::<int>::empty()
        }
    }
}

/// The AC symbols coded with table `t`, component by component.
pub open spec fn table_ac_symbols(
    cs: Seq<Component>,
    blocks: Seq<Seq<Seq<i16>>>,
    t: u8,
    progressive_scans: Option<u8>,
    n: nat,
) -> Seq<int>
    decreases n,
{
    if n == 0 {
        Seq::<int>::empty()
    } else {
        table_ac_symbols(cs, blocks, t, progressive_scans, (n - 1) as nat) + if cs[n - 1].ac_huffman_table == t {
            component_ac_symbols(blocks[n - 1], progressive_scans)
        } else {
            Seq::<int>::empty()
        }
    }
}

/// The frequency table of a symbol sequence, with the reserved symbol 256 counted once.
pub open spec fn frequencies_of(freq: [u64; 257], symbols: Seq<int>) -> bool {
    forall|x: int| 0 <= x < 257 ==> #[trigger] freq[x] == count_of(symbols, x) + if x == 256 { 1nat } else { 0nat }
}

/// Counts one symbol.
fn count_symbol(freq: &mut [u64; 257], symbol: usize, Ghost(emitted): Ghost<Seq<int>>)
    requires
        symbol < 256,
        frequencies_of(*old(freq), emitted),
        emitted.len() + 1 < 0xFFFF_FFFF_FFFF,
    ensures
        frequencies_of(*final(freq), emitted.push(symbol as int)),
{
    proof {
        lemma_count_le(emitted, symbol as int);
        assert forall|x: int| 0 <= x < 257 implies #[trigger] count_of(emitted.push(symbol as int), x) == count_of(emitted, x) + if symbol as int == x { 1nat } else { 0nat } by {
            lemma_count_push(emitted, symbol as int, x);
        }
    }
    freq[symbol] += 1;
}

/// Counts the AC symbols of coefficients `start..end` of a block.
fn count_ac_symbols(freq: &mut [u64; 257], block: &AlignedBlock, start: usize, end: usize, Ghost(emitted): Ghost<Seq<int>>)
    requires
        start <= end <= 64,
        frequencies_of(*old(freq), emitted),
        emitted.len() + 66 < 0xFFFF_FFFF_FFFF,
        all_codable(block.data@.subrange(start as int, end as int)),
    ensures
        frequencies_of(*final(freq), emitted + ac_symbols(block.data@.subrange(start as int, end as int), 0)),
{
    let ghost coefs = block.data@.subrange(start as int, end as int);
    let ghost total = ac_symbols(coefs, 0);
    let ghost mut out = emitted;
    proof {
        assert(coefs.subrange(0, coefs.len() as int) =~= coefs);
        assert(block.data@.subrange(start as int, end as int) =~= coefs);
    }
    let mut zero_run: usize = 0;
    let mut i: usize = start;
    while i < end
        invariant
            start <= i <= end <= 64,
            0 <= zero_run <= i - start,
            coefs == block.data@.subrange(start as int, end as int),
            all_codable(coefs),
            frequencies_of(*freq, out),
            out.len() <= emitted.len() + (i - start) - zero_run,
            emitted.len() + 66 < 0xFFFF_FFFF_FFFF,
            out + ac_symbols(block.data@.subrange(i as int, end as int), zero_run as nat) == emitted + total,
        decreases end - i,
    {
        let value = block.data[i];
        let ghost rest = block.data@.subrange(i + 1 as int, end as int);
        proof {
            assert(block.data@.subrange(i as int, end as int).drop_first() =~= rest);
            assert(block.data@.subrange(i as int, end as int)[0] == value);
        }
        if value == 0 {
            zero_run += 1;
        } else {
            proof {
                assert(coefs[i - start] == value);
                assert(codable(value as int));
            }
            let ghost zr0 = zero_run as nat;
            while zero_run > 15
                invariant
                    0 <= zero_run <= zr0,
                    zr0 % 16 == (zero_run as nat) % 16,
                    frequencies_of(*freq, out),
                    out.len() + zero_run / 16 <= emitted.len() + (i - start) - zr0 + zr0 / 16,
                    emitted.len() + 66 < 0xFFFF_FFFF_FFFF,
                    zr0 <= i - start,
                    i < end <= 64,
                    out + Seq::new((zero_run / 16) as nat, |k: int| 0xF0int) + seq![((zr0 % 16) * 16 + category(abs(value as int))) as int]
                        + ac_symbols(rest, 0) == emitted + total,
                decreases zero_run,
            {
                let ghost o0 = out;
                count_symbol(freq, 0xF0, Ghost(out));
                proof {
                    out = out.push(0xF0int);
                    assert(Seq::new((zero_run / 16) as nat, |k: int| 0xF0int) =~= seq![0xF0int] + Seq::new(((zero_run - 16) / 16) as nat, |k: int| 0xF0int));
                    assert(out + Seq::new(((zero_run - 16) / 16) as nat, |k: int| 0xF0int) + seq![((zr0 % 16) * 16 + category(abs(value as int))) as int]
                        + ac_symbols(rest, 0) =~= emitted + total);
                }
                zero_run -= 16;
            }
            let num_bits = get_num_bits(value);
            let symbol = (zero_run << 4) | num_bits as usize;
            proof {
                assert(num_bits <= 15) by {
                    vstd::arithmetic::power2::lemma2_to64();
                    assert(abs(value as int) < 16384);
                    crate::coding::lemma_category_le(abs(value as int), 14);
                }
                assert(zero_run < 16);
                let nb = num_bits as usize;
                assert(zero_run < 16 && nb < 16 ==> (zero_run << 4) | nb == zero_run * 16 + nb) by (bit_vector);
                assert(Seq::new(0, |k: int| 0xF0int) =~= Seq::<int>::empty());
            }
            count_symbol(freq, symbol, Ghost(out));
            proof {
                out = out.push(symbol as int);
                assert(out + ac_symbols(rest, 0) =~= emitted + total);
            }
            zero_run = 0;
        }
        i += 1;
    }
    if zero_run > 0 {
        count_symbol(freq, 0x00, Ghost(out));
        proof {
            out = out.push(0int);
            assert(out =~= emitted + total);
        }
    } else {
        proof {
            assert(out + Seq::<int>::empty() =~= emitted + total);
        }
    }
}

/// The total number of blocks of the first `n` components.
pub open spec fn total_blocks(blocks: Seq<Seq<Seq<i16>>>, n: nat) -> int
    decreases n,
{
    if n == 0 {
        0
    } else {
        total_blocks(blocks, (n - 1) as nat) + blocks[n - 1].len()
    }
}

pub proof fn lemma_ac_block_symbols_len(blocks: Seq<Seq<i16>>, start: int, end: int, n: nat)
    requires
        0 <= start <= end <= 64,
        n <= blocks.len(),
        forall|j: int| 0 <= j < blocks.len() ==> #[trigger] blocks[j].len() == 64,
    ensures
        ac_block_symbols(blocks, start, end, n).len() <= n * (end - start + 1),
    decreases n,
{
    if n > 0 {
        lemma_ac_block_symbols_len(blocks, start, end, (n - 1) as nat);
        lemma_ac_symbols_len(blocks[n - 1].subrange(start, end), 0);
        assert((n - 1) * (end - start + 1) + (end - start + 1) == n * (end - start + 1)) by (nonlinear_arith);
    }
}

pub proof fn lemma_ac_range_symbols_len(blocks: Seq<Seq<i16>>, num_ac_scans: int, s: nat)
    requires
        1 <= num_ac_scans <= 63,
        1 <= s <= num_ac_scans,
        forall|j: int| 0 <= j < blocks.len() ==> #[trigger] blocks[j].len() == 64,
    ensures
        ac_range_symbols(blocks, num_ac_scans, s).len() <= blocks.len() * (ac_range(num_ac_scans, s - 1).1 - 1 + s),
    decreases s,
{
    let n = blocks.len();
    let (start, end) = ac_range(num_ac_scans, s - 1);
    lemma_ac_range(num_ac_scans, s - 1);
    lemma_ac_block_symbols_len(blocks, start, end, n);
    if s == 1 {
        assert(ac_range_symbols(blocks, num_ac_scans, 0).len() == 0);
        assert(n * (end - start + 1) == n * (end - 1 + 1));
    } else {
        lemma_ac_range_symbols_len(blocks, num_ac_scans, (s - 1) as nat);
        lemma_ac_range(num_ac_scans, s - 2);
        assert(start == ac_range(num_ac_scans, s - 2).1);
        let prev_end = ac_range(num_ac_scans, s - 2).1;
        assert(n * (prev_end - 1 + (s - 1)) + n * (end - start + 1) == n * (end - 1 + s)) by (nonlinear_arith)
            requires
                start == prev_end,
        ;
    }
}

/// The blocks of each component have 64 coefficients of at most 13 bits.
pub open spec fn all_bounded(blocks: Seq<Seq<Seq<i16>>>, n: nat) -> bool {
    forall|c: int| 0 <= c < n ==> {
        &&& blocks_bounded(#[trigger] blocks[c])
        &&& forall|j: int| 0 <= j < blocks[c].len() ==> #[trigger] blocks[c][j].len() == 64
    }
}

pub proof fn lemma_table_symbols_len(cs: Seq<Component>, blocks: Seq<Seq<Seq<i16>>>, t: u8, scans: Option<u8>, n: nat)
    requires
        n <= cs.len(),
        n <= blocks.len(),
        all_bounded(blocks, n),
        scans matches Some(s) ==> 2 <= s <= 64,
    ensures
        table_dc_symbols(cs, blocks, t, n).len() <= total_blocks(blocks, n),
        table_ac_symbols(cs, blocks, t, scans, n).len() <= 127 * total_blocks(blocks, n),
        0 <= total_blocks(blocks, n),
    decreases n,
{
    if n > 0 {
        lemma_table_symbols_len(cs, blocks, t, scans, (n - 1) as nat);
        let b = blocks[n - 1];
        assert(forall|j: int| 0 <= j < b.len() ==> #[trigger] b[j].len() == 64);
        assert(total_blocks(blocks, n) == total_blocks(blocks, (n - 1) as nat) + b.len());
        match scans {
            Some(s) => {
                let a = s - 1;
                lemma_ac_range_symbols_len(b, a, a as nat);
                assert(ac_range(a, a - 1).1 == 64);
                let x = ac_range_symbols(b, a, a as nat).len();
                assert(x <= b.len() * (64 - 1 + a));
                assert(b.len() * (64 - 1 + a) <= 127 * b.len()) by (nonlinear_arith)
                    requires
                        a <= 63,
                ;
                assert(component_ac_symbols(b, scans) == ac_range_symbols(b, a, a as nat));
            },
            None => {
                lemma_ac_block_symbols_len(b, 1, 64, b.len());
                assert(b.len() * (64 - 1 + 1) <= 127 * b.len()) by (nonlinear_arith);
            },
        }
        assert(component_ac_symbols(b, scans).len() <= 127 * b.len());
        assert(table_ac_symbols(cs, blocks, t, scans, n).len() <= table_ac_symbols(cs, blocks, t, scans, (n - 1) as nat).len() + 127 * b.len());
    }
}

/// The frequencies of the DC symbols of a component, counted on top of `emitted`.
fn count_dc_symbols(freq: &mut [u64; 257], blocks: &Vec<AlignedBlock>, Ghost(emitted): Ghost<Seq<int>>)
    requires
        frequencies_of(*old(freq), emitted),
        emitted.len() + blocks@.len() + 1 < 0xFFFF_FFFF_FFFF,
        blocks_bounded(block_data(blocks@)),
    ensures
        frequencies_of(*final(freq), emitted + dc_symbols(block_data(blocks@))),
{
    let ghost bd = block_data(blocks@);
    let mut prev_dc: i16 = 0;
    let mut j: usize = 0;
    while j < blocks.len()
        invariant
            j <= blocks@.len(),
            bd == block_data(blocks@),
            blocks_bounded(bd),
            emitted.len() + blocks@.len() + 1 < 0xFFFF_FFFF_FFFF,
            frequencies_of(*freq, emitted + dc_symbols(bd).take(j as int)),
            prev_dc == if j == 0 { 0 } else { bd[j - 1][0] },
        decreases blocks@.len() - j,
    {
        let value = blocks[j].data[0];
        proof {
            assert(bd[j as int][0] == value);
            assert(-5120 <= value <= 5120);
            if j > 0 {
                assert(-5120 <= bd[j - 1][0] <= 5120);
            }
        }
        let diff = value - prev_dc;
        let num_bits = get_num_bits(diff);
        proof {
            vstd::arithmetic::power2::lemma2_to64();
            crate::coding::lemma_category_le(abs(diff as int), 14);
            assert(num_bits <= 14);
        }
        count_symbol(freq, num_bits as usize, Ghost(emitted + dc_symbols(bd).take(j as int)));
        proof {
            assert(dc_symbols(bd)[j as int] == num_bits as int);
            assert((emitted + dc_symbols(bd).take(j as int)).push(num_bits as int) =~= emitted + dc_symbols(bd).take(j + 1));
        }
        prev_dc = value;
        j += 1;
    }
    proof {
        assert(dc_symbols(bd).take(j as int) =~= dc_symbols(bd));
    }
}

/// The frequencies of the AC symbols of coefficients `start..end` of every block.
fn count_ac_block_symbols(freq: &mut [u64; 257], blocks: &Vec<AlignedBlock>, start: usize, end: usize, Ghost(emitted): Ghost<Seq<int>>)
    requires
        start <= end <= 64,
        frequencies_of(*old(freq), emitted),
        emitted.len() + blocks@.len() * (end - start + 1) + 66 < 0xFFFF_FFFF_FFFF,
        blocks_bounded(block_data(blocks@)),
        forall|j: int| 0 <= j < blocks@.len() ==> #[trigger] block_data(blocks@)[j].len() == 64,
    ensures
        frequencies_of(*final(freq), emitted + ac_block_symbols(block_data(blocks@), start as int, end as int, blocks@.len())),
{
    let ghost bd = block_data(blocks@);
    let mut j: usize = 0;
    while j < blocks.len()
        invariant
            j <= blocks@.len(),
            start <= end <= 64,
            bd == block_data(blocks@),
            blocks_bounded(bd),
            forall|k: int| 0 <= k < blocks@.len() ==> #[trigger] bd[k].len() == 64,
            emitted.len() + blocks@.len() * (end - start + 1) + 66 < 0xFFFF_FFFF_FFFF,
            frequencies_of(*freq, emitted + ac_block_symbols(bd, start as int, end as int, j as nat)),
        decreases blocks@.len() - j,
    {
        proof {
            lemma_ac_block_symbols_len(bd, start as int, end as int, j as nat);
            assert(j * (end - start + 1) <= blocks@.len() * (end - start + 1)) by (nonlinear_arith)
                requires
                    j <= blocks@.len(),
                    start <= end,
            ;
            assert(forall|k: int| 0 <= k < 64 ==> -5120 <= #[trigger] blocks@[j as int].data[k] <= 5120) by {
                assert forall|k: int| 0 <= k < 64 implies -5120 <= #[trigger] blocks@[j as int].data[k] <= 5120 by {
                    assert(bd[j as int][k] == blocks@[j as int].data[k]);
                }
            }
            lemma_block_codable(blocks@[j as int], 0);
        }
        count_ac_symbols(freq, &blocks[j], start, end, Ghost(emitted + ac_block_symbols(bd, start as int, end as int, j as nat)));
        proof {
            assert(bd[j as int] == blocks@[j as int].data@);
            assert(emitted + ac_block_symbols(bd, start as int, end as int, j as nat) + ac_symbols(blocks@[j as int].data@.subrange(start as int, end as int), 0)
                =~= emitted + ac_block_symbols(bd, start as int, end as int, (j + 1) as nat));
        }
        j += 1;
    }
}

/// The block coefficients of the four component buffers.
pub open spec fn all_block_data(blocks: [Vec<AlignedBlock>; 4]) -> Seq<Seq<Seq<i16>>> {
    Seq::new(4, |c: int| block_data(blocks[c]@))
}

/// The frequencies counted for a list of symbols: how often each symbol
/// occurs, and 1 for the reserved symbol 256.
pub open spec fn symbol_freqs(symbols: Seq<int>) -> Seq<u64> {
    Seq::new(257, |x: int| (count_of(symbols, x) + if x == 256 { 1int } else { 0int }) as u64)
}

/// The table built for symbol statistics: the Annex K.2 table of their
/// frequencies. Its codes fit, it codes every symbol that occurs, and only
/// those.
pub open spec fn fitted_table(t: HuffmanTable, symbols: Seq<int>) -> bool {
    &&& optimized_code(symbol_freqs(symbols)) is Some
    &&& (t.lengths(), t.symbols()) == optimized_code(symbol_freqs(symbols)).unwrap()
    &&& crate::huffman::lengths_fit(t.lengths())
    &&& crate::huffman::count_before(t.lengths(), 16) <= t.symbols().len() <= 256
    &&& forall|i: int| 0 <= i < t.symbols().len() ==> count_of(symbols, #[trigger] t.symbols()[i] as int) > 0
    &&& forall|x: int| 0 <= x < 256 && #[trigger] count_of(symbols, x) > 0 ==> t.symbols().contains(x as u8)
}

/// Whether both tables of slot `t` can be built for the symbols they code.
pub open spec fn slot_buildable(cs: Seq<Component>, blocks: Seq<Seq<Seq<i16>>>, t: int, scans: Option<u8>) -> bool {
    &&& optimized_code(symbol_freqs(table_dc_symbols(cs, blocks, t as u8, cs.len()))) is Some
    &&& optimized_code(symbol_freqs(table_ac_symbols(cs, blocks, t as u8, scans, cs.len()))) is Some
}

/// The tables after optimization: each table slot in use gets the DC and
/// AC tables built from the frequencies of the symbols it codes. Only when
/// the construction cannot be carried out for one of them (where the
/// construction of Annex K.2 fails) does the slot keep its tables.
pub open spec fn tables_optimized(
    before: [(HuffmanTable, HuffmanTable); 2],
    after: [(HuffmanTable, HuffmanTable); 2],
    cs: Seq<Component>,
    blocks: Seq<Seq<Seq<i16>>>,
    scans: Option<u8>,
) -> bool {
    forall|t: int|
        #![trigger after[t]]
        0 <= t < 2 ==> if t < cs.len() {
            if slot_buildable(cs, blocks, t, scans) {
                fitted_table(after[t].0, table_dc_symbols(cs, blocks, t as u8, cs.len()))
                    && fitted_table(after[t].1, table_ac_symbols(cs, blocks, t as u8, scans, cs.len()))
            } else {
                after[t] == before[t]
            }
        } else {
            after[t] == before[t]
        }
}

pub proof fn lemma_progressive_prefix_len(blocks: Seq<Seq<i16>>, num_ac_scans: int, scan: int)
    requires
        1 <= num_ac_scans <= 63,
        0 <= scan < num_ac_scans,
        forall|j: int| 0 <= j < blocks.len() ==> #[trigger] blocks[j].len() == 64,
    ensures
        ac_range_symbols(blocks, num_ac_scans, scan as nat).len() + blocks.len() * (ac_range(num_ac_scans, scan).1
            - ac_range(num_ac_scans, scan).0 + 1) <= 127 * blocks.len(),
{
    let n = blocks.len();
    let (start, end) = ac_range(num_ac_scans, scan);
    lemma_ac_range(num_ac_scans, scan);
    if scan == 0 {
        assert(n * (end - start + 1) <= 127 * n) by (nonlinear_arith)
            requires
                1 <= start <= end <= 64,
        ;
    } else {
        lemma_ac_range_symbols_len(blocks, num_ac_scans, scan as nat);
        lemma_ac_range(num_ac_scans, scan - 1);
        let prev_end = ac_range(num_ac_scans, scan - 1).1;
        assert(start == prev_end);
        assert(n * (prev_end - 1 + scan) + n * (end - start + 1) <= 127 * n) by (nonlinear_arith)
            requires
                start == prev_end,
                end <= 64,
                scan < 63,
        ;
    }
}

impl<W: BitStream> Encoder<W> {
    /// Create new huffman tables optimized for this image
    fn optimize_huffman_table(&mut self, blocks: &[Vec<AlignedBlock>; 4])
        requires
            components_wf(old(self)@.components),
            old(self)@.progressive_scans matches Some(s) ==> 2 <= s <= 64,
            all_bounded(all_block_data(*blocks), old(self)@.components.len()),
            128 * total_blocks(all_block_data(*blocks), old(self)@.components.len()) + 70 < 0xFFFF_FFFF_FFFF,
        ensures
            final(self)@ == (EncoderState { huffman_tables: final(self)@.huffman_tables, ..old(self)@ }),
            tables_optimized(
                old(self)@.huffman_tables,
                final(self)@.huffman_tables,
                old(self)@.components,
                all_block_data(*blocks),
                old(self)@.progressive_scans,
            ),
    {
        let ghost cs = self@.components;
        let ghost bdata = all_block_data(*blocks);
        let ghost before = self@.huffman_tables;
        let n = self.components.len();
        let max_tables: u8 = if n < 2 { n as u8 } else { 2 };
        proof {
            lemma_table_symbols_len(cs, bdata, 0, self@.progressive_scans, cs.len());
        }
        let mut table: u8 = 0;
        while table < max_tables
            invariant
                table <= max_tables,
                max_tables as int == if cs.len() < 2 { cs.len() as int } else { 2 },
                n == cs.len(),
                self@.components == cs,
                components_wf(cs),
                bdata == all_block_data(*blocks),
                all_bounded(bdata, cs.len()),
                0 <= total_blocks(bdata, cs.len()),
                128 * total_blocks(bdata, cs.len()) + 70 < 0xFFFF_FFFF_FFFF,
                self@.progressive_scans matches Some(s) ==> 2 <= s <= 64,
                self@ == (EncoderState { huffman_tables: self@.huffman_tables, ..old(self)@ }),
                forall|t: int|
                    #![trigger self@.huffman_tables[t]]
                    0 <= t < 2 ==> if t < table {
                        if slot_buildable(cs, bdata, t, self@.progressive_scans) {
                            fitted_table(self@.huffman_tables[t].0, table_dc_symbols(cs, bdata, t as u8, cs.len()))
                                && fitted_table(self@.huffman_tables[t].1, table_ac_symbols(cs, bdata, t as u8, self@.progressive_scans, cs.len()))
                        } else {
                            self@.huffman_tables[t] == before[t]
                        }
                    } else {
                        self@.huffman_tables[t] == before[t]
                    },
            decreases max_tables - table,
        {
            let mut dc_freq = [0u64; 257];
            dc_freq[256] = 1;
            let mut ac_freq = [0u64; 257];
            ac_freq[256] = 1;
            proof {
                assert(frequencies_of(dc_freq, Seq::<int>::empty()));
                assert(frequencies_of(ac_freq, Seq::<int>::empty()));
            }
            let mut i: usize = 0;
            while i < n
                invariant
                    i <= n,
                    n == cs.len(),
                    n <= 4,
                    self@.components == cs,
                    components_wf(cs),
                    bdata == all_block_data(*blocks),
                    all_bounded(bdata, cs.len()),
                    128 * total_blocks(bdata, cs.len()) + 70 < 0xFFFF_FFFF_FFFF,
                    self@.progressive_scans matches Some(s) ==> 2 <= s <= 64,
                    frequencies_of(dc_freq, table_dc_symbols(cs, bdata, table, i as nat)),
                    frequencies_of(ac_freq, table_ac_symbols(cs, bdata, table, self@.progressive_scans, i as nat)),
                decreases n - i,
            {
                let component = &self.components[i];
                let ghost b = bdata[i as int];
                proof {
                    lemma_table_symbols_len(cs, bdata, table, self@.progressive_scans, i as nat);
                    lemma_total_blocks_mono(bdata, (i + 1) as nat, cs.len());
                    assert(b == block_data(blocks[i as int]@));
                    assert(total_blocks(bdata, (i + 1) as nat) == total_blocks(bdata, i as nat) + b.len());
                    assert(blocks_bounded(b));
                    assert(forall|j: int| 0 <= j < b.len() ==> #[trigger] b[j].len() == 64);
                }
                if component.dc_huffman_table == table {
                    count_dc_symbols(&mut dc_freq, &blocks[i], Ghost(table_dc_symbols(cs, bdata, table, i as nat)));
                }
                proof {
                    assert(table_dc_symbols(cs, bdata, table, (i + 1) as nat) =~= table_dc_symbols(cs, bdata, table, i as nat) + if cs[i as int].dc_huffman_table == table {
                        dc_symbols(b)
                    } else {
                        Seq::<int>::empty()
                    });
                    if cs[i as int].dc_huffman_table != table {
                        assert(table_dc_symbols(cs, bdata, table, i as nat) + Seq::<int>::empty() =~= table_dc_symbols(cs, bdata, table, i as nat));
                    }
                }
                let ghost prefix = table_ac_symbols(cs, bdata, table, self@.progressive_scans, i as nat);
                if component.ac_huffman_table == table {
                    match self.progressive_scans {
                        Some(scans) => {
                            let scans = scans as usize - 1;
                            let mut scan: usize = 0;
                            while scan < scans
                                invariant
                                    1 <= scans <= 63,
                                    scan <= scans,
                                    i < n <= 4,
                                    self@.progressive_scans == Some((scans + 1) as u8),
                                    b == block_data(blocks[i as int]@),
                                    blocks_bounded(b),
                                    forall|j: int| 0 <= j < b.len() ==> #[trigger] b[j].len() == 64,
                                    prefix.len() + 127 * b.len() + 70 < 0xFFFF_FFFF_FFFF,
                                    frequencies_of(ac_freq, prefix + ac_range_symbols(b, scans as int, scan as nat)),
                                decreases scans - scan,
                            {
                                let (start, end) = ac_band(scans, scan);
                                proof {
                                    lemma_progressive_prefix_len(b, scans as int, scan as int);
                                }
                                count_ac_block_symbols(&mut ac_freq, &blocks[i], start, end, Ghost(prefix + ac_range_symbols(b, scans as int, scan as nat)));
                                proof {
                                    assert(prefix + ac_range_symbols(b, scans as int, scan as nat) + ac_block_symbols(b, start as int, end as int, b.len())
                                        =~= prefix + ac_range_symbols(b, scans as int, (scan + 1) as nat));
                                }
                                scan += 1;
                            }
                        },
                        None => {
                            proof {
                                lemma_ac_block_symbols_len(b, 1, 64, b.len());
                                assert(prefix.len() <= 127 * total_blocks(bdata, i as nat));
                                assert(blocks[i as int]@.len() == b.len());
                                assert(total_blocks(bdata, i as nat) + b.len() <= total_blocks(bdata, cs.len()));
                                let tb = total_blocks(bdata, i as nat);
                                let tall = total_blocks(bdata, cs.len());
                                let bl = blocks[i as int]@.len() as int;
                                assert(prefix.len() + bl * 64 + 66 < 0xFFFF_FFFF_FFFF) by (nonlinear_arith)
                                    requires
                                        prefix.len() <= 127 * tb,
                                        tb + bl <= tall,
                                        0 <= tb,
                                        0 <= bl,
                                        128 * tall + 70 < 0xFFFF_FFFF_FFFF,
                                ;
                                assert(bl * (64 - 1 + 1) == bl * 64);
                            }
                            count_ac_block_symbols(&mut ac_freq, &blocks[i], 1, 64, Ghost(prefix));
                        },
                    }
                }
                proof {
                    assert(table_ac_symbols(cs, bdata, table, self@.progressive_scans, (i + 1) as nat) =~= prefix + if cs[i as int].ac_huffman_table == table {
                        component_ac_symbols(b, self@.progressive_scans)
                    } else {
                        Seq::<int>::empty()
                    });
                    if cs[i as int].ac_huffman_table != table {
                        assert(prefix + Seq::<int>::empty() =~= prefix);
                    }
                }
                i += 1;
            }
            proof {
                let dcs = table_dc_symbols(cs, bdata, table, cs.len());
                let acs = table_ac_symbols(cs, bdata, table, self@.progressive_scans, cs.len());
                lemma_table_symbols_len(cs, bdata, table, self@.progressive_scans, cs.len());
                assert forall|k: int| 0 <= k < 257 implies #[trigger] dc_freq[k] <= 0xFFFF_FFFF_FFFF by {
                    lemma_count_le(dcs, k);
                }
                assert forall|k: int| 0 <= k < 257 implies #[trigger] ac_freq[k] <= 0xFFFF_FFFF_FFFF by {
                    lemma_count_le(acs, k);
                }
                assert(dc_freq@ =~= symbol_freqs(dcs));
                assert(ac_freq@ =~= symbol_freqs(acs));
            }
            match (new_optimized(dc_freq), new_optimized(ac_freq)) {
                (Some(dc_table), Some(ac_table)) => {
                    proof {
                        let dcs = table_dc_symbols(cs, bdata, table, cs.len());
                        let acs = table_ac_symbols(cs, bdata, table, self@.progressive_scans, cs.len());
                        assert(fitted_table(dc_table, dcs)) by {
                            assert forall|k: int| 0 <= k < dc_table.symbols().len() implies count_of(dcs, #[trigger] dc_table.symbols()[k] as int) > 0 by {
                                assert(dc_freq[dc_table.symbols()[k] as int] > 0);
                            }
                            assert(dc_freq[256] > 0);
                            assert forall|x: int| 0 <= x < 256 && #[trigger] count_of(dcs, x) > 0 implies dc_table.symbols().contains(x as u8) by {
                                assert(dc_freq[x] > 0);
                            }
                        }
                        assert(fitted_table(ac_table, acs)) by {
                            assert forall|k: int| 0 <= k < ac_table.symbols().len() implies count_of(acs, #[trigger] ac_table.symbols()[k] as int) > 0 by {
                                assert(ac_freq[ac_table.symbols()[k] as int] > 0);
                            }
                            assert(ac_freq[256] > 0);
                            assert forall|x: int| 0 <= x < 256 && #[trigger] count_of(acs, x) > 0 implies ac_table.symbols().contains(x as u8) by {
                                assert(ac_freq[x] > 0);
                            }
                        }
                    }
                    self.huffman_tables[table as usize] = (dc_table, ac_table);
                },
                _ => {},
            }
            table += 1;
        }
    }
}

pub proof fn lemma_total_blocks_mono(blocks: Seq<Seq<Seq<i16>>>, a: nat, b: nat)
    requires
        a <= b,
    ensures
        total_blocks(blocks, a) <= total_blocks(blocks, b),
    decreases b,
{
    if a < b {
        lemma_total_blocks_mono(blocks, a, (b - 1) as nat);
    }
}

impl<W: BitStream> Encoder<W> {
    /// Optimizes the Huffman tables for the blocks of the image.
    fn optimize_for_image<I: ImageBuffer>(&mut self, image: &I, q_tables: &[QuantizationTable; 2], blocks: &[Vec<AlignedBlock>; 4])
        requires
            components_wf(old(self)@.components),
            old(self)@.progressive_scans matches Some(s) ==> 2 <= s <= 64,
            table_in_range(q_tables[0]),
            table_in_range(q_tables[1]),
            blocks_match(image, old(self)@.components, *q_tables, *blocks),
            128 * total_blocks(image_blocks(image, old(self)@.components, *q_tables), old(self)@.components.len()) + 70 < 0xFFFF_FFFF_FFFF,
        ensures
            final(self)@ == (EncoderState { huffman_tables: final(self)@.huffman_tables, ..old(self)@ }),
            tables_optimized(
                old(self)@.huffman_tables,
                final(self)@.huffman_tables,
                old(self)@.components,
                image_blocks(image, old(self)@.components, *q_tables),
                old(self)@.progressive_scans,
            ),
    {
        let ghost cs = self@.components;
        let ghost all_blocks = image_blocks(image, cs, *q_tables);
        proof {
            lemma_block_data_agree(all_blocks, *blocks, cs.len());
            lemma_total_blocks_agree(all_block_data(*blocks), all_blocks, cs.len());
            assert(all_bounded(all_block_data(*blocks), cs.len())) by {
                assert forall|c: int| 0 <= c < cs.len() implies blocks_bounded(#[trigger] all_block_data(*blocks)[c])
                    && forall|j: int| 0 <= j < all_block_data(*blocks)[c].len() ==> #[trigger] all_block_data(*blocks)[c][j].len() == 64 by {
                    assert(all_block_data(*blocks)[c] == block_data(blocks[c]@));
                    lemma_component_blocks_bounded(image, cs, *q_tables, c);
                }
            }
        }
        self.optimize_huffman_table(blocks);
        proof {
            lemma_tables_optimized_agree(old(self)@.huffman_tables, self@.huffman_tables, cs,
                all_block_data(*blocks), all_blocks, self@.progressive_scans);
        }
    }

    /// Encode image in progressive mode
    ///
    /// This only support spectral selection for now
    #[verifier::spinoff_prover]
    #[verifier::rlimit(40)]
    fn encode_image_progressive<I: ImageBuffer, F: FDCT, Q: BlockQuantizer>(
        &mut self,
        image: I,
        scans: u8,
        q_tables: &[QuantizationTable; 2],
    ) -> (r: Result<(), EncodingError>)
        requires
            at_rest(old(self)@.stream),
            components_wf(old(self)@.components),
            old(self)@.components.len() == num_components(image.spec_color_type()),
            old(self)@.progressive_scans == Some(scans),
            2 <= scans <= 64,
            image.valid(),
            image.spec_width() > 0,
            image.spec_height() > 0,
            table_in_range(q_tables[0]),
            table_in_range(q_tables[1]),
            old(self)@.optimize_huffman_table ==> 128 * total_blocks(
                image_blocks(&image, old(self)@.components, *q_tables),
                old(self)@.components.len(),
            ) + 70 < 0xFFFF_FFFF_FFFF,
        ensures
            W::infallible() ==> r is Ok,
            final(self)@ == (EncoderState {
                stream: final(self)@.stream,
                huffman_tables: final(self)@.huffman_tables,
                ..old(self)@
            }),
            old(self)@.optimize_huffman_table ==> tables_optimized(
                old(self)@.huffman_tables,
                final(self)@.huffman_tables,
                old(self)@.components,
                image_blocks(&image, old(self)@.components, *q_tables),
                old(self)@.progressive_scans,
            ),
            !old(self)@.optimize_huffman_table ==> final(self)@.huffman_tables == old(self)@.huffman_tables,
            r is Ok ==> at_rest(final(self)@.stream),
            r is Ok ==> final(self)@.stream.out() == old(self)@.stream.out() + frame_segments(
                image.spec_width(),
                image.spec_height(),
                old(self)@.components,
                true,
                *q_tables,
                final(self)@.huffman_tables,
                num_components(image.spec_color_type()),
                old(self)@.restart_interval,
            ) + dc_scans(
                old(self)@.components,
                image_blocks(&image, old(self)@.components, *q_tables),
                final(self)@.huffman_tables,
                interval_of(old(self)@.restart_interval),
                old(self)@.components.len(),
            ) + ac_scans(
                old(self)@.components,
                image_blocks(&image, old(self)@.components, *q_tables),
                final(self)@.huffman_tables,
                interval_of(old(self)@.restart_interval),
                scans - 1,
                (scans - 1) as nat,
            ),
    {
        let ghost cs = self@.components;
        let ghost all_blocks = image_blocks(&image, cs, *q_tables);
        let blocks = self.encode_blocks_checked::<I, F, Q>(&image, q_tables);
        if self.optimize_huffman_table {
            self.optimize_for_image(&image, q_tables, &blocks);
        }
        self.write_frame_header(&image, q_tables)?;
        let restart_interval: u16 = match self.restart_interval {
            Some(v) => v,
            None => 0,
        };
        let ghost s0 = self@.stream.out();
        // Phase 1: DC Scan
        //          Only the DC coefficients can be transfer in the first component scans
        write_dc_scans(&mut self.writer, &self.components, &blocks, &self.huffman_tables, restart_interval, Ghost(all_blocks))?;
        let ghost s1 = self@.stream.out();
        let ghost pre = self@;
        proof {
            assert(ac_scans(cs, all_blocks, self@.huffman_tables, restart_interval as nat, scans - 1, 0) =~= Seq::<u8>::empty());
            assert(s1 + Seq::<u8>::empty() =~= s1);
        }
        // Phase 2: AC scans
        let scans = scans as usize - 1;
        let mut scan: usize = 0;
        while scan < scans
            invariant
                1 <= scans <= 63,
                scan <= scans,
                self@.components == cs,
                components_wf(cs),
                at_rest(self@.stream),
                forall|c: int| 0 <= c < cs.len() ==> block_data(#[trigger] blocks[c]@) == all_blocks[c],
                forall|c: int| 0 <= c < cs.len() ==> blocks_bounded(block_data(#[trigger] blocks[c]@)),
                self@.stream.out() == s1 + ac_scans(cs, all_blocks, self@.huffman_tables, restart_interval as nat, scans as int, scan as nat),
                self@ == (EncoderState { stream: self@.stream, ..pre }),
                pre == (EncoderState { stream: pre.stream, huffman_tables: pre.huffman_tables, ..old(self)@ }),
                !old(self)@.optimize_huffman_table ==> pre.huffman_tables == old(self)@.huffman_tables,
                all_blocks == image_blocks(&image, cs, *q_tables),
                cs == old(self)@.components,
                old(self)@.optimize_huffman_table ==> tables_optimized(
                    old(self)@.huffman_tables,
                    pre.huffman_tables,
                    cs,
                    all_blocks,
                    old(self)@.progressive_scans,
                ),
            decreases scans - scan,
        {
            let (start, end) = ac_band(scans, scan);
            write_ac_scans_of_range(&mut self.writer, &self.components, &blocks, &self.huffman_tables, start, end, restart_interval, Ghost(all_blocks))?;
            scan += 1;
        }
        Ok(())
    }
}

/// Writes the DC scan of each component.
fn write_dc_scans<B: BitStream>(
    writer: &mut JfifWriter<B>,
    components: &Vec<Component>,
    blocks: &[Vec<AlignedBlock>; 4],
    tables: &[(HuffmanTable, HuffmanTable); 2],
    restart_interval: u16,
    Ghost(all_blocks): Ghost<Seq<Seq<Seq<i16>>>>,
) -> (r: Result<(), EncodingError>)
    requires
        at_rest(old(writer).stream()),
        components_wf(components@),
        forall|c: int| 0 <= c < components@.len() ==> block_data(#[trigger] blocks[c]@) == all_blocks[c],
        forall|c: int| 0 <= c < components@.len() ==> blocks_bounded(block_data(#[trigger] blocks[c]@)),
    ensures
        B::infallible() ==> r is Ok,
        r is Ok ==> at_rest(final(writer).stream()),
        r is Ok ==> final(writer).stream().out() == old(writer).stream().out() + dc_scans(
            components@,
            all_blocks,
            *tables,
            restart_interval as nat,
            components@.len(),
        ),
{
    let ghost cs = components@;
    let ghost head = writer.stream().out();
    let mut i: usize = 0;
    while i < components.len()
        invariant
            i <= cs.len(),
            cs == components@,
            components_wf(cs),
            at_rest(writer.stream()),
            forall|c: int| 0 <= c < cs.len() ==> block_data(#[trigger] blocks[c]@) == all_blocks[c],
            forall|c: int| 0 <= c < cs.len() ==> blocks_bounded(block_data(#[trigger] blocks[c]@)),
            writer.stream().out() == head + dc_scans(cs, all_blocks, *tables, restart_interval as nat, i as nat),
        decreases cs.len() - i,
    {
        let component = &components[i];
        writer.write_scan_header(&[component], Some((0, 0)))?;
        proof {
            assert(cs[i as int].dc_huffman_table <= 1);
            assert(block_data(blocks[i as int]@) == all_blocks[i as int]);
            assert(blocks_bounded(block_data(blocks[i as int]@)));
        }
        write_dc_scan(writer, &blocks[i], &tables[component.dc_huffman_table as usize].0, restart_interval)?;
        proof {
            let c = cs[i as int];
            assert([component]@ =~= seq![&c]);
            assert(writer.stream().out() =~= head + dc_scans(cs, all_blocks, *tables, restart_interval as nat, (i + 1) as nat));
        }
        i += 1;
    }
    Ok(())
}

/// Writes the scans of coefficients `start..end`, one per component.
fn write_ac_scans_of_range<B: BitStream>(
    writer: &mut JfifWriter<B>,
    components: &Vec<Component>,
    blocks: &[Vec<AlignedBlock>; 4],
    tables: &[(HuffmanTable, HuffmanTable); 2],
    start: usize,
    end: usize,
    restart_interval: u16,
    Ghost(all_blocks): Ghost<Seq<Seq<Seq<i16>>>>,
) -> (r: Result<(), EncodingError>)
    requires
        at_rest(old(writer).stream()),
        1 <= start <= end <= 64,
        components_wf(components@),
        forall|c: int| 0 <= c < components@.len() ==> block_data(#[trigger] blocks[c]@) == all_blocks[c],
        forall|c: int| 0 <= c < components@.len() ==> blocks_bounded(block_data(#[trigger] blocks[c]@)),
    ensures
        B::infallible() ==> r is Ok,
        r is Ok ==> at_rest(final(writer).stream()),
        r is Ok ==> final(writer).stream().out() == old(writer).stream().out() + ac_scans_of_range(
            components@,
            all_blocks,
            *tables,
            restart_interval as nat,
            start as int,
            end as int,
            components@.len(),
        ),
{
    let ghost cs = components@;
    let ghost head = writer.stream().out();
    let mut i: usize = 0;
    while i < components.len()
        invariant
            i <= cs.len(),
            1 <= start <= end <= 64,
            cs == components@,
            components_wf(cs),
            at_rest(writer.stream()),
            forall|c: int| 0 <= c < cs.len() ==> block_data(#[trigger] blocks[c]@) == all_blocks[c],
            forall|c: int| 0 <= c < cs.len() ==> blocks_bounded(block_data(#[trigger] blocks[c]@)),
            writer.stream().out() == head + ac_scans_of_range(cs, all_blocks, *tables, restart_interval as nat, start as int, end as int, i as nat),
        decreases cs.len() - i,
    {
        let component = &components[i];
        writer.write_scan_header(&[component], Some((start as u8, end as u8 - 1)))?;
        proof {
            assert(cs[i as int].ac_huffman_table <= 1);
            assert(block_data(blocks[i as int]@) == all_blocks[i as int]);
            assert(blocks_bounded(block_data(blocks[i as int]@)));
        }
        write_ac_scan(writer, &blocks[i], start, end, &tables[component.ac_huffman_table as usize].1, restart_interval)?;
        proof {
            let c = cs[i as int];
            assert([component]@ =~= seq![&c]);
            assert(writer.stream().out() =~= head + ac_scans_of_range(cs, all_blocks, *tables, restart_interval as nat, start as int, end as int, (i + 1) as nat));
        }
        i += 1;
    }
    Ok(())
}

/// The samples of the block whose top-left sample is at column `sx`, row
/// `sy` of the image, taking every `hs`-th column and `vs`-th row, edges
/// repeated, shifted to be signed.
pub open spec fn image_block_at<I: ImageBuffer>(image: &I, c: int, sx: int, sy: int, hs: int, vs: int) -> Seq<i16> {
    Seq::new(
        64,
        |i: int|
            (image.sample(
                clamp_index(sx + (i % 8) * hs, image.spec_width() as int),
                clamp_index(sy + (i / 8) * vs, image.spec_height() as int),
                c,
            ) as int - 128) as i16,
    )
}

/// A block read from a buffer of rows `y0..` is the image block it stands for.
pub proof fn lemma_block_from_rows<I: ImageBuffer>(image: &I, c: int, bw: int, y0: int, n: int, sx: int, sy: int, hs: int, vs: int)
    requires
        bw > 0,
        hs >= 1,
        vs >= 1,
        sx >= 0,
        sy >= 0,
        sx + 8 * hs <= bw,
        (sy + 8 * vs) * bw <= n,
        n <= usize::MAX,
    ensures
        block_in_bounds(n, sx, sy, hs, vs, bw),
        block_samples(plane_at(image, c, bw, y0, n), sx, sy, hs, vs, bw) == image_block_at(image, c, sx, y0 + sy, hs, vs),
{
    assert(sy + 8 * vs <= (sy + 8 * vs) * bw) by (nonlinear_arith)
        requires
            bw > 0,
            sy + 8 * vs >= 0,
    ;
    assert((sy + 7 * vs) * bw + sx + 7 * hs < n) by (nonlinear_arith)
        requires
            (sy + 8 * vs) * bw <= n,
            sx + 8 * hs <= bw,
            vs >= 1,
            hs >= 1,
            bw > 0,
    ;
    let p = plane_at(image, c, bw, y0, n);
    assert forall|k: int| 0 <= k < 64 implies block_samples(p, sx, sy, hs, vs, bw)[k] == image_block_at(image, c, sx, y0 + sy, hs, vs)[k] by {
        let y = k / 8;
        let x = k % 8;
        lemma_block_index(n, sx, sy, hs, vs, bw, y, x);
        let idx = (sy + y * vs) * bw + sx + x * hs;
        assert(sx + x * hs < bw) by (nonlinear_arith)
            requires
                0 <= x < 8,
                sx + 8 * hs <= bw,
                hs >= 1,
        ;
        lemma_fundamental_div_mod_converse(idx, bw, sy + y * vs, sx + x * hs);
    }
    assert(block_samples(p, sx, sy, hs, vs, bw) =~= image_block_at(image, c, sx, y0 + sy, hs, vs));
}

/// The coefficients of a coded block have at most 13 magnitude bits.
pub proof fn lemma_coded_block_bounded(samples: Seq<i16>, table: QuantizationTable)
    requires
        table_in_range(table),
    ensures
        forall|k: int| 0 <= k < 64 ==> -5120 <= #[trigger] coded_block(samples, table)[k] <= 5120,
        coded_block(samples, table).len() == 64,
{
    assert forall|k: int| 0 <= k < 64 implies -5120 <= #[trigger] coded_block(samples, table)[k] <= 5120 by {
        lemma_quantize_value_bounds(fdct_spec(samples)[ZIGZAG[k] as int], table.reciprocal(k), table.correction(k));
    }
}

/// The sampling factors of each component are 1 or the largest factor.
pub open spec fn factors_uniform(cs: Seq<Component>) -> bool {
    forall|i: int|
        0 <= i < cs.len() ==> {
            &&& (#[trigger] cs[i]).horizontal_sampling_factor == 1 || cs[i].horizontal_sampling_factor == max_h_factor(cs, cs.len())
            &&& cs[i].vertical_sampling_factor == 1 || cs[i].vertical_sampling_factor == max_v_factor(cs, cs.len())
        }
}

/// Block `k` (row by row within the MCU) of component `c` in MCU `m` of
/// an interleaved scan whose MCU rows are `num_cols` MCUs wide.
pub open spec fn mcu_block<I: ImageBuffer>(image: &I, cs: Seq<Component>, q_tables: [QuantizationTable; 2], num_cols: int, c: int, m: int, k: int) -> Seq<i16> {
    let mh = max_h_factor(cs, cs.len()) as int;
    let mv = max_v_factor(cs, cs.len()) as int;
    let hf = cs[c].horizontal_sampling_factor as int;
    let bx = m % num_cols;
    let by = m / num_cols;
    coded_block(
        image_block_at(image, c, bx * 8 * mh + (k % hf) * 8, by * 8 * mv + (k / hf) * 8, h_scale(cs, c), v_scale(cs, c)),
        q_tables[cs[c].quantization_table as int],
    )
}

/// The number of blocks of component `c` in each MCU.
pub open spec fn blocks_per_mcu(cs: Seq<Component>, c: int) -> int {
    cs[c].horizontal_sampling_factor * cs[c].vertical_sampling_factor
}

/// The bits of the first `k` blocks of component `c` in MCU `m`, the first
/// one coded against `p0`.
pub open spec fn mcu_component_bits<I: ImageBuffer>(
    image: &I,
    cs: Seq<Component>,
    q_tables: [QuantizationTable; 2],
    tables: [(HuffmanTable, HuffmanTable); 2],
    num_cols: int,
    c: int,
    m: int,
    k: nat,
    p0: i16,
) -> Seq<bool>
    decreases k,
{
    if k == 0 {
        Seq::<bool>::empty()
    } else {
        let prev = if k == 1 { p0 } else { mcu_block(image, cs, q_tables, num_cols, c, m, k - 2)[0] };
        mcu_component_bits(image, cs, q_tables, tables, num_cols, c, m, (k - 1) as nat, p0) + seq_block_bits(
            tables[cs[c].dc_huffman_table as int].0,
            tables[cs[c].ac_huffman_table as int].1,
            mcu_block(image, cs, q_tables, num_cols, c, m, k - 1),
            prev,
        )
    }
}

/// The DC value the first block of component `c` in MCU `m` is coded
/// against: zero at the start and after a restart marker, else the last
/// block of the component in the previous MCU.
pub open spec fn mcu_prev_dc<I: ImageBuffer>(image: &I, cs: Seq<Component>, q_tables: [QuantizationTable; 2], num_cols: int, r: nat, c: int, m: int) -> i16 {
    if m == 0 || restart_before(r, m) {
        0
    } else {
        mcu_block(image, cs, q_tables, num_cols, c, m - 1, blocks_per_mcu(cs, c) - 1)[0]
    }
}

/// The bits of MCU `m`: the blocks of the first `n` components.
pub open spec fn mcu_bits<I: ImageBuffer>(
    image: &I,
    cs: Seq<Component>,
    q_tables: [QuantizationTable; 2],
    tables: [(HuffmanTable, HuffmanTable); 2],
    num_cols: int,
    r: nat,
    m: int,
    n: nat,
) -> Seq<bool>
    decreases n,
{
    if n == 0 {
        Seq::<bool>::empty()
    } else {
        let c = n - 1;
        mcu_bits(image, cs, q_tables, tables, num_cols, r, m, (n - 1) as nat) + mcu_component_bits(
            image,
            cs,
            q_tables,
            tables,
            num_cols,
            c,
            m,
            blocks_per_mcu(cs, c) as nat,
            mcu_prev_dc(image, cs, q_tables, num_cols, r, c, m),
        )
    }
}

/// The MCUs of an interleaved scan, row by row.
pub open spec fn mcu_units<I: ImageBuffer>(
    image: &I,
    cs: Seq<Component>,
    q_tables: [QuantizationTable; 2],
    tables: [(HuffmanTable, HuffmanTable); 2],
    r: nat,
) -> Seq<Seq<bool>> {
    let num_cols = ceil_div(image.spec_width() as int, 8 * max_h_factor(cs, cs.len()) as int);
    let num_rows = ceil_div(image.spec_height() as int, 8 * max_v_factor(cs, cs.len()) as int);
    Seq::new((num_cols * num_rows) as nat, |m: int| mcu_bits(image, cs, q_tables, tables, num_cols, r, m, cs.len()))
}

/// The single scan of an interleaved image: all components, MCU by MCU.
pub open spec fn interleaved_scan<I: ImageBuffer>(
    image: &I,
    cs: Seq<Component>,
    q_tables: [QuantizationTable; 2],
    tables: [(HuffmanTable, HuffmanTable); 2],
    r: nat,
) -> Seq<u8> {
    scan_header_bytes(Seq::new(cs.len(), |i: int| &cs[i]), None) + scan_bytes(mcu_units(image, cs, q_tables, tables, r), r)
}

/// With factors 1 or the largest one, the scale is the other one.
pub proof fn lemma_scale_of_uniform(max_f: int, f: int)
    requires
        max_f == 1 || max_f == 2 || max_f == 4,
        f == 1 || f == max_f,
    ensures
        (max_f / f) * f == max_f,
        max_f / f >= 1,
        f == 1 ==> max_f / f == max_f,
        f == max_f ==> max_f / f == 1,
{
}

/// Writes the blocks of one component in one MCU.
#[verifier::spinoff_prover]
#[verifier::rlimit(40)]
fn write_mcu_component<B: BitStream, I: ImageBuffer, F: FDCT, Q: BlockQuantizer, H: HuffmanEncoder>(
    writer: &mut JfifWriter<B>,
    image: &I,
    row: &Vec<u8>,
    c: usize,
    block_x: usize,
    hf: usize,
    vf: usize,
    mh: usize,
    mv: usize,
    bw: usize,
    q_table: &QuantizationTable,
    dc_table: &HuffmanTable,
    ac_table: &HuffmanTable,
    prev_dc: i16,
    Ghost(cs): Ghost<Seq<Component>>,
    Ghost(q_tables): Ghost<[QuantizationTable; 2]>,
    Ghost(tables): Ghost<[(HuffmanTable, HuffmanTable); 2]>,
    Ghost(num_cols): Ghost<int>,
    Ghost(m): Ghost<int>,
) -> (r: Result<i16, EncodingError>)
    requires
        old(writer).stream().inv(),
        0 <= c < cs.len(),
        components_wf(cs),
        factors_uniform(cs),
        mh == max_h_factor(cs, cs.len()),
        mv == max_v_factor(cs, cs.len()),
        mh == 1 || mh == 2 || mh == 4,
        mv == 1 || mv == 2 || mv == 4,
        hf == cs[c as int].horizontal_sampling_factor,
        vf == cs[c as int].vertical_sampling_factor,
        *q_table == q_tables[cs[c as int].quantization_table as int],
        *dc_table == tables[cs[c as int].dc_huffman_table as int].0,
        *ac_table == tables[cs[c as int].ac_huffman_table as int].1,
        table_in_range(*q_table),
        num_cols > 0,
        m >= 0,
        block_x == m % num_cols,
        (block_x + 1) * 8 * mh <= bw,
        row@ == plane_at(image, c as int, bw as int, (m / num_cols) * 8 * mv, (8 * mv) * bw),
        -5120 <= prev_dc <= 5120,
    ensures
        B::infallible() ==> r is Ok,
        r matches Ok(last) ==> wrote_bits(
            old(writer).stream(),
            final(writer).stream(),
            mcu_component_bits(image, cs, q_tables, tables, num_cols, c as int, m, blocks_per_mcu(cs, c as int) as nat, prev_dc),
        ),
        r matches Ok(last) ==> last == mcu_block(image, cs, q_tables, num_cols, c as int, m, blocks_per_mcu(cs, c as int) - 1)[0],
        r matches Ok(last) ==> -5120 <= last <= 5120,
{
    let ghost s0 = writer.stream();
    let ghost by = m / num_cols;
    let hs = mh / hf;
    let vs = mv / vf;
    proof {
        crate::bit_stream::lemma_wrote_nothing(s0);
        assert(hf == 1 || hf == mh);
        assert(vf == 1 || vf == mv);
        lemma_scale_of_uniform(mh as int, hf as int);
        lemma_scale_of_uniform(mv as int, vf as int);
        assert(hs == h_scale(cs, c as int) && vs == v_scale(cs, c as int));
    }
    let mut prev = prev_dc;
    let mut v_offset: usize = 0;
    while v_offset < vf
        invariant
            v_offset <= vf,
            0 <= c < cs.len(),
            hf == cs[c as int].horizontal_sampling_factor,
            vf == cs[c as int].vertical_sampling_factor,
            hf == 1 || hf == mh,
            vf == 1 || vf == mv,
            mh == 1 || mh == 2 || mh == 4,
            mv == 1 || mv == 2 || mv == 4,
            hs * hf == mh && vs * vf == mv && hs >= 1 && vs >= 1,
            hs == h_scale(cs, c as int),
            vs == v_scale(cs, c as int),
            mh == max_h_factor(cs, cs.len()),
            mv == max_v_factor(cs, cs.len()),
            *q_table == q_tables[cs[c as int].quantization_table as int],
            *dc_table == tables[cs[c as int].dc_huffman_table as int].0,
            *ac_table == tables[cs[c as int].ac_huffman_table as int].1,
            table_in_range(*q_table),
            num_cols > 0,
            block_x == m % num_cols,
            by == m / num_cols,
            (block_x + 1) * 8 * mh <= bw,
            row@ == plane_at(image, c as int, bw as int, by * 8 * mv, (8 * mv) * bw),
            -5120 <= prev <= 5120,
            wrote_bits(s0, writer.stream(), mcu_component_bits(image, cs, q_tables, tables, num_cols, c as int, m, (v_offset * hf) as nat, prev_dc)),
            v_offset * hf > 0 ==> prev == mcu_block(image, cs, q_tables, num_cols, c as int, m, v_offset * hf - 1)[0],
            v_offset * hf == 0 ==> prev == prev_dc,
        decreases vf - v_offset,
    {
        let mut h_offset: usize = 0;
        while h_offset < hf
            invariant
                h_offset <= hf,
                v_offset < vf,
                0 <= c < cs.len(),
                hf == cs[c as int].horizontal_sampling_factor,
                vf == cs[c as int].vertical_sampling_factor,
                hf == 1 || hf == mh,
                vf == 1 || vf == mv,
                mh == 1 || mh == 2 || mh == 4,
                mv == 1 || mv == 2 || mv == 4,
                hs * hf == mh && vs * vf == mv && hs >= 1 && vs >= 1,
                hs == h_scale(cs, c as int),
                vs == v_scale(cs, c as int),
                mh == max_h_factor(cs, cs.len()),
                mv == max_v_factor(cs, cs.len()),
                *q_table == q_tables[cs[c as int].quantization_table as int],
                *dc_table == tables[cs[c as int].dc_huffman_table as int].0,
                *ac_table == tables[cs[c as int].ac_huffman_table as int].1,
                table_in_range(*q_table),
                num_cols > 0,
                block_x == m % num_cols,
                by == m / num_cols,
                (block_x + 1) * 8 * mh <= bw,
                row@ == plane_at(image, c as int, bw as int, by * 8 * mv, (8 * mv) * bw),
                -5120 <= prev <= 5120,
                wrote_bits(s0, writer.stream(), mcu_component_bits(image, cs, q_tables, tables, num_cols, c as int, m, (v_offset * hf + h_offset) as nat, prev_dc)),
                v_offset * hf + h_offset > 0 ==> prev == mcu_block(image, cs, q_tables, num_cols, c as int, m, v_offset * hf + h_offset - 1)[0],
                v_offset * hf + h_offset == 0 ==> prev == prev_dc,
            decreases hf - h_offset,
        {
            let ghost k = v_offset * hf + h_offset;
            let sx = block_x * 8 * mh + (h_offset * 8);
            let sy = v_offset * 8;
            proof {
                assert(h_offset * 8 + 8 * hs <= 8 * mh) by (nonlinear_arith)
                    requires
                        h_offset < hf,
                        hf == 1 || hf == mh,
                        hs * hf == mh,
                        hs >= 1,
                ;
                assert(v_offset * 8 + 8 * vs <= 8 * mv) by (nonlinear_arith)
                    requires
                        v_offset < vf,
                        vf == 1 || vf == mv,
                        vs * vf == mv,
                        vs >= 1,
                ;
                assert(block_x * 8 * mh + 8 * mh == (block_x + 1) * 8 * mh) by (nonlinear_arith);
                assert((sy + 8 * vs) * bw <= (8 * mv) * bw) by (nonlinear_arith)
                    requires
                        sy + 8 * vs <= 8 * mv,
                        bw >= 0,
                ;
                assert(row@.len() == (8 * mv) * bw);
                assert(row@.len() == row.len());
                lemma_block_from_rows(image, c as int, bw as int, by * 8 * mv, (8 * mv) * bw, sx as int, sy as int, hs as int, vs as int);
                assert(k / (hf as int) == v_offset && k % (hf as int) == h_offset) by {
                    lemma_fundamental_div_mod_converse(k, hf as int, v_offset as int, h_offset as int);
                }
                assert(by * 8 * mv + sy == by * 8 * mv + (k / (hf as int)) * 8);
            }
            let mut block = get_block(row.as_slice(), sx, sy, hs, vs, bw);
            F::fdct(&mut block);
            let mut q_block = AlignedBlock::default();
            Q::quantize_block(&block, &mut q_block, q_table);
            proof {
                assert(q_block.data@ =~= mcu_block(image, cs, q_tables, num_cols, c as int, m, k));
                lemma_coded_block_bounded(image_block_at(image, c as int, sx as int, by * 8 * mv + sy, hs as int, vs as int), *q_table);
                assert(forall|j: int| 0 <= j < 64 ==> -5120 <= #[trigger] q_block.data[j] <= 5120);
                lemma_block_codable(q_block, prev);
            }
            let ghost s1 = writer.stream();
            H::write_block(writer, &q_block, prev, dc_table, ac_table)?;
            proof {
                crate::bit_stream::lemma_wrote_bits_trans(s0, s1, writer.stream(),
                    mcu_component_bits(image, cs, q_tables, tables, num_cols, c as int, m, k as nat, prev_dc),
                    block_bits(*dc_table, *ac_table, q_block.data, prev));
                let p = if k == 0 { prev_dc } else { mcu_block(image, cs, q_tables, num_cols, c as int, m, k - 1)[0] };
                assert(p == prev);
                assert(block_bits(*dc_table, *ac_table, q_block.data, prev) == seq_block_bits(*dc_table, *ac_table, q_block.data@, prev));
                assert(mcu_component_bits(image, cs, q_tables, tables, num_cols, c as int, m, (k + 1) as nat, prev_dc)
                    == mcu_component_bits(image, cs, q_tables, tables, num_cols, c as int, m, k as nat, prev_dc)
                    + seq_block_bits(*dc_table, *ac_table, q_block.data@, prev));
            }
            prev = q_block.data[0];
            h_offset += 1;
        }
        proof {
            assert((v_offset + 1) * hf == v_offset * hf + hf) by (nonlinear_arith);
        }
        v_offset += 1;
    }
    proof {
        assert(vf * hf == blocks_per_mcu(cs, c as int)) by (nonlinear_arith)
            requires
                hf == cs[c as int].horizontal_sampling_factor,
                vf == cs[c as int].vertical_sampling_factor,
        ;
        assert(vf * hf >= 1) by (nonlinear_arith)
            requires
                hf >= 1,
                vf >= 1,
        ;
    }
    Ok(prev)
}

/// The DC values the next MCU's blocks are coded against (before any
/// restart): the last block of each component in MCU `m - 1`.
pub open spec fn dc_after<I: ImageBuffer>(image: &I, cs: Seq<Component>, q_tables: [QuantizationTable; 2], num_cols: int, m: int, prev_dc: [i16; 4]) -> bool {
    forall|c: int|
        0 <= c < cs.len() ==> {
            &&& #[trigger] prev_dc[c] == if m == 0 { 0 } else { mcu_block(image, cs, q_tables, num_cols, c, m - 1, blocks_per_mcu(cs, c) - 1)[0] }
            &&& -5120 <= prev_dc[c] <= 5120
        }
}

/// Writes MCU `m`: the restart marker due before it, then the blocks of
/// every component.
#[verifier::spinoff_prover]
#[verifier::rlimit(40)]
fn write_mcu<B: BitStream, I: ImageBuffer, F: FDCT, Q: BlockQuantizer, H: HuffmanEncoder>(
    writer: &mut JfifWriter<B>,
    image: &I,
    rows: &[Vec<u8>; 4],
    components: &Vec<Component>,
    q_tables: &[QuantizationTable; 2],
    tables: &[(HuffmanTable, HuffmanTable); 2],
    block_x: usize,
    mh: usize,
    mv: usize,
    bw: usize,
    restart_interval: u16,
    restarts_to_go: &mut u16,
    restarts: &mut u8,
    prev_dc: &mut [i16; 4],
    Ghost(num_cols): Ghost<int>,
    Ghost(m): Ghost<int>,
    Ghost(base): Ghost<Seq<u8>>,
) -> (r: Result<(), EncodingError>)
    requires
        components_wf(components@),
        factors_uniform(components@),
        mh == max_h_factor(components@, components@.len()),
        mv == max_v_factor(components@, components@.len()),
        mh == 1 || mh == 2 || mh == 4,
        mv == 1 || mv == 2 || mv == 4,
        table_in_range(q_tables[0]),
        table_in_range(q_tables[1]),
        num_cols > 0,
        0 <= m < mcu_units(image, components@, *q_tables, *tables, restart_interval as nat).len(),
        num_cols == ceil_div(image.spec_width() as int, 8 * mh),
        block_x == m % num_cols,
        (block_x + 1) * 8 * mh <= bw,
        forall|c: int| 0 <= c < components@.len() ==> #[trigger] rows[c]@ == plane_at(image, c, bw as int, (m / num_cols) * 8 * mv, (8 * mv) * bw),
        counters_ok(restart_interval as nat, m, *old(restarts_to_go) as int, *old(restarts) as int),
        holds_scan(
            old(writer).stream(),
            base,
            scan_state(mcu_units(image, components@, *q_tables, *tables, restart_interval as nat), restart_interval as nat, m as nat).0,
            scan_state(mcu_units(image, components@, *q_tables, *tables, restart_interval as nat), restart_interval as nat, m as nat).1,
        ),
        dc_after(image, components@, *q_tables, num_cols, m, *old(prev_dc)),
    ensures
        B::infallible() ==> r is Ok,
        r is Ok ==> holds_scan(
            final(writer).stream(),
            base,
            scan_state(mcu_units(image, components@, *q_tables, *tables, restart_interval as nat), restart_interval as nat, (m + 1) as nat).0,
            scan_state(mcu_units(image, components@, *q_tables, *tables, restart_interval as nat), restart_interval as nat, (m + 1) as nat).1,
        ),
        r is Ok ==> counters_ok(restart_interval as nat, m + 1, *final(restarts_to_go) as int, *final(restarts) as int),
        r is Ok ==> dc_after(image, components@, *q_tables, num_cols, m + 1, *final(prev_dc)),
{
    let ghost cs = components@;
    let ghost rr = restart_interval as nat;
    let ghost units = mcu_units(image, cs, *q_tables, *tables, rr);
    restart_if_due(writer, restart_interval, *restarts_to_go, *restarts, Ghost(units), Ghost(m), Ghost(base))?;
    if restart_interval > 0 && *restarts_to_go == 0 {
        prev_dc[0] = 0;
        prev_dc[1] = 0;
        prev_dc[2] = 0;
        prev_dc[3] = 0;
    }
    proof {
        if restart_interval > 0 {
            lemma_counters_step(rr, m, *restarts_to_go as int, *restarts as int);
        }
        crate::bit_stream::lemma_wrote_nothing(writer.stream());
    }
    let ghost s1 = writer.stream();
    let ghost start_dc = *prev_dc;
    proof {
        assert forall|c: int| 0 <= c < cs.len() implies #[trigger] start_dc[c] == mcu_prev_dc(image, cs, *q_tables, num_cols, rr, c, m)
            && -5120 <= start_dc[c] <= 5120 by {}
    }
    let n = components.len();
    let mut i: usize = 0;
    while i < n
        invariant
            i <= n,
            n == cs.len(),
            cs == components@,
            components_wf(cs),
            factors_uniform(cs),
            mh == max_h_factor(cs, cs.len()),
            mv == max_v_factor(cs, cs.len()),
            mh == 1 || mh == 2 || mh == 4,
            mv == 1 || mv == 2 || mv == 4,
            table_in_range(q_tables[0]),
            table_in_range(q_tables[1]),
            num_cols > 0,
            m >= 0,
            block_x == m % num_cols,
            (block_x + 1) * 8 * mh <= bw,
            forall|c: int| 0 <= c < cs.len() ==> #[trigger] rows[c]@ == plane_at(image, c, bw as int, (m / num_cols) * 8 * mv, (8 * mv) * bw),
            forall|c: int| 0 <= c < cs.len() ==> #[trigger] start_dc[c] == mcu_prev_dc(image, cs, *q_tables, num_cols, rr, c, m)
                && -5120 <= start_dc[c] <= 5120,
            forall|c: int| i <= c < cs.len() ==> #[trigger] prev_dc[c] == start_dc[c],
            forall|c: int|
                0 <= c < i ==> #[trigger] prev_dc[c] == mcu_block(image, cs, *q_tables, num_cols, c, m, blocks_per_mcu(cs, c) - 1)[0]
                    && -5120 <= prev_dc[c] <= 5120,
            wrote_bits(s1, writer.stream(), mcu_bits(image, cs, *q_tables, *tables, num_cols, rr, m, i as nat)),
        decreases n - i,
    {
        let component = &components[i];
        proof {
            assert(cs[i as int].quantization_table <= 1 && cs[i as int].dc_huffman_table <= 1 && cs[i as int].ac_huffman_table <= 1);
        }
        let ghost s2 = writer.stream();
        let last = write_mcu_component::<B, I, F, Q, H>(
            writer,
            image,
            &rows[i],
            i,
            block_x,
            component.horizontal_sampling_factor as usize,
            component.vertical_sampling_factor as usize,
            mh,
            mv,
            bw,
            &q_tables[component.quantization_table as usize],
            &tables[component.dc_huffman_table as usize].0,
            &tables[component.ac_huffman_table as usize].1,
            prev_dc[i],
            Ghost(cs),
            Ghost(*q_tables),
            Ghost(*tables),
            Ghost(num_cols),
            Ghost(m),
        )?;
        proof {
            crate::bit_stream::lemma_wrote_bits_trans(s1, s2, writer.stream(),
                mcu_bits(image, cs, *q_tables, *tables, num_cols, rr, m, i as nat),
                mcu_component_bits(image, cs, *q_tables, *tables, num_cols, i as int, m, blocks_per_mcu(cs, i as int) as nat, start_dc[i as int]));
        }
        prev_dc[i] = last;
        i += 1;
    }
    proof {
        let open_bits = if restart_before(rr, m) {
            Seq::<bool>::empty()
        } else {
            scan_state(units, rr, m as nat).1
        };
        assert(units[m] == mcu_bits(image, cs, *q_tables, *tables, num_cols, rr, m, cs.len()));
        lemma_unit_written(s1, writer.stream(), base, scan_state(units, rr, (m + 1) as nat).0, open_bits, units[m]);
        assert(open_bits + units[m] =~= scan_state(units, rr, (m + 1) as nat).1);
    }
    count_unit(restart_interval, restarts_to_go, restarts, Ghost(m));
    Ok(())
}

impl<W: BitStream> Encoder<W> {
    /// Encode all components with one scan
    ///
    /// This is only valid for sampling factors of 1 and 2
    #[verifier::rlimit(80)]
    fn encode_image_interleaved<I: ImageBuffer, F: FDCT, Q: BlockQuantizer, H: HuffmanEncoder>(
        &mut self,
        image: I,
        q_tables: &[QuantizationTable; 2],
    ) -> (r: Result<(), EncodingError>)
        requires
            at_rest(old(self)@.stream),
            components_wf(old(self)@.components),
            factors_uniform(old(self)@.components),
            old(self)@.components.len() == num_components(image.spec_color_type()),
            image.valid(),
            image.spec_width() > 0,
            image.spec_height() > 0,
            table_in_range(q_tables[0]),
            table_in_range(q_tables[1]),
        ensures
            W::infallible() ==> r is Ok,
            final(self)@ == (EncoderState { stream: final(self)@.stream, ..old(self)@ }),
            r is Ok ==> at_rest(final(self)@.stream),
            r is Ok ==> final(self)@.stream.out() == old(self)@.stream.out() + frame_segments(
                image.spec_width(),
                image.spec_height(),
                old(self)@.components,
                old(self)@.progressive_scans is Some,
                *q_tables,
                old(self)@.huffman_tables,
                num_components(image.spec_color_type()),
                old(self)@.restart_interval,
            ) + interleaved_scan(
                &image,
                old(self)@.components,
                *q_tables,
                old(self)@.huffman_tables,
                interval_of(old(self)@.restart_interval),
            ),
    {
        let ghost cs = self@.components;
        let ghost tables = self@.huffman_tables;
        let ghost s0 = self@.stream.out();
        self.write_frame_header(&image, q_tables)?;
        let ghost s1 = self@.stream.out();
        let n = self.components.len();
        let mut refs: Vec<&Component> = Vec::new();
        let mut k: usize = 0;
        while k < n
            invariant
                k <= n,
                n == cs.len(),
                cs == self.components@,
                refs@ == Seq::new(k as nat, |i: int| &cs[i]),
            decreases n - k,
        {
            refs.push(&self.components[k]);
            k += 1;
            proof {
                assert(refs@ =~= Seq::new(k as nat, |i: int| &cs[i]));
            }
        }
        self.writer.write_scan_header(refs.as_slice(), None)?;
        let ghost base = self@.stream.out();

        let (max_h_sampling, max_v_sampling) = get_max_sampling_size(self.components.as_slice());
        proof {
            lemma_max_factor_choices(cs, cs.len());
        }
        let width = image.width();
        let height = image.height();

        let num_cols = div_ceil(width as usize, 8 * max_h_sampling);
        let num_rows = div_ceil(height as usize, 8 * max_v_sampling);

        let buffer_width = num_cols * 8 * max_h_sampling;
        let buffer_size = buffer_width * 8 * max_v_sampling;

        // contains sets of 8 rows broken down by component.
        // when subsampling factor for a components is greater than 1,
        //  this actually contains the next 8*subsampling
        let mut row: [Vec<u8>; 4] = allocate_component_vecs(self.components.as_slice(), buffer_size);

        let mut prev_dc = [0i16; 4];

        let restart_interval: u16 = match self.restart_interval {
            Some(v) => v,
            None => 0,
        };
        let mut restarts: u8 = 0;
        let mut restarts_to_go: u16 = restart_interval;
        let ghost rr = restart_interval as nat;
        let ghost units = mcu_units(&image, cs, *q_tables, tables, rr);
        proof {
            lemma_scan_start(self@.stream);
            assert(units.len() == num_cols * num_rows);
            lemma_block_geometry(width as int, max_h_sampling as int, max_h_sampling as int);
            lemma_block_geometry(height as int, max_v_sampling as int, max_v_sampling as int);
            assert(num_cols >= 1 && num_rows >= 1);
            assert(num_cols * 8 * max_h_sampling >= width) by (nonlinear_arith)
                requires
                    num_cols * max_h_sampling * 8 >= width,
            ;
        }

        let mut block_y_index: usize = 0;
        while block_y_index < num_rows
            invariant
                block_y_index <= num_rows,
                n == cs.len(),
                self@.components == cs,
                self@.huffman_tables == tables,
                self@ == (EncoderState { stream: self@.stream, ..old(self)@ }),
                components_wf(cs),
                factors_uniform(cs),
                image.valid(),
                width == image.spec_width(),
                height == image.spec_height(),
                width > 0,
                height > 0,
                n == num_components(image.spec_color_type()),
                max_h_sampling == max_h_factor(cs, cs.len()),
                max_v_sampling == max_v_factor(cs, cs.len()),
                max_h_sampling == 1 || max_h_sampling == 2 || max_h_sampling == 4,
                max_v_sampling == 1 || max_v_sampling == 2 || max_v_sampling == 4,
                table_in_range(q_tables[0]),
                table_in_range(q_tables[1]),
                num_cols == ceil_div(width as int, 8 * max_h_sampling),
                num_rows == ceil_div(height as int, 8 * max_v_sampling),
                num_cols >= 1,
                buffer_width == num_cols * 8 * max_h_sampling,
                buffer_width >= width,
                rr == restart_interval,
                units == mcu_units(&image, cs, *q_tables, tables, rr),
                units.len() == num_cols * num_rows,
                counters_ok(rr, (block_y_index * num_cols) as int, restarts_to_go as int, restarts as int),
                holds_scan(self@.stream, base, scan_state(units, rr, (block_y_index * num_cols) as nat).0,
                    scan_state(units, rr, (block_y_index * num_cols) as nat).1),
                dc_after(&image, cs, *q_tables, num_cols as int, (block_y_index * num_cols) as int, prev_dc),
            decreases num_rows - block_y_index,
        {
            let mut ch: usize = 0;
            while ch < 4
                invariant
                    ch <= 4,
                    forall|c: int| 0 <= c < ch ==> #[trigger] row[c]@.len() == 0,
                decreases 4 - ch,
            {
                row[ch].clear();
                ch += 1;
            }
            proof {
                assert(block_y_index * 8 * max_v_sampling + 8 * max_v_sampling <= num_rows * 8 * max_v_sampling + 8 * max_v_sampling) by (nonlinear_arith)
                    requires
                        block_y_index < num_rows,
                ;
            }
            fill_rows(&image, n, block_y_index * 8 * max_v_sampling, 8 * max_v_sampling, buffer_width, &mut row);

            let mut block_x: usize = 0;
            while block_x < num_cols
                invariant
                    block_x <= num_cols,
                    block_y_index < num_rows,
                    n == cs.len(),
                    self@.components == cs,
                    self@.huffman_tables == tables,
                    self@ == (EncoderState { stream: self@.stream, ..old(self)@ }),
                    components_wf(cs),
                    factors_uniform(cs),
                    max_h_sampling == max_h_factor(cs, cs.len()),
                    max_v_sampling == max_v_factor(cs, cs.len()),
                    max_h_sampling == 1 || max_h_sampling == 2 || max_h_sampling == 4,
                    max_v_sampling == 1 || max_v_sampling == 2 || max_v_sampling == 4,
                    table_in_range(q_tables[0]),
                    table_in_range(q_tables[1]),
                    num_cols == ceil_div(image.spec_width() as int, 8 * max_h_sampling),
                    num_cols >= 1,
                    buffer_width == num_cols * 8 * max_h_sampling,
                    rr == restart_interval,
                    units == mcu_units(&image, cs, *q_tables, tables, rr),
                    units.len() == num_cols * num_rows,
                    forall|c: int| 0 <= c < cs.len() ==> #[trigger] row[c]@ == plane_at(&image, c, buffer_width as int,
                        (block_y_index * 8 * max_v_sampling) as int, (8 * max_v_sampling) * buffer_width),
                    counters_ok(rr, (block_y_index * num_cols + block_x) as int, restarts_to_go as int, restarts as int),
                    holds_scan(self@.stream, base, scan_state(units, rr, (block_y_index * num_cols + block_x) as nat).0,
                        scan_state(units, rr, (block_y_index * num_cols + block_x) as nat).1),
                    dc_after(&image, cs, *q_tables, num_cols as int, (block_y_index * num_cols + block_x) as int, prev_dc),
                decreases num_cols - block_x,
            {
                let ghost m = (block_y_index * num_cols + block_x) as int;
                proof {
                    lemma_fundamental_div_mod_converse(m, num_cols as int, block_y_index as int, block_x as int);
                    assert(m < num_cols * num_rows) by (nonlinear_arith)
                        requires
                            m == block_y_index * num_cols + block_x,
                            block_x < num_cols,
                            block_y_index < num_rows,
                    ;
                    assert((block_x + 1) * 8 * max_h_sampling <= num_cols * 8 * max_h_sampling) by (nonlinear_arith)
                        requires
                            block_x < num_cols,
                    ;
                    assert((m / (num_cols as int)) * 8 * max_v_sampling == block_y_index * 8 * max_v_sampling);
                }
                write_mcu::<W, I, F, Q, H>(
                    &mut self.writer,
                    &image,
                    &row,
                    &self.components,
                    q_tables,
                    &self.huffman_tables,
                    block_x,
                    max_h_sampling,
                    max_v_sampling,
                    buffer_width,
                    restart_interval,
                    &mut restarts_to_go,
                    &mut restarts,
                    &mut prev_dc,
                    Ghost(num_cols as int),
                    Ghost(m),
                    Ghost(base),
                )?;
                block_x += 1;
            }
            proof {
                assert(block_y_index * num_cols + num_cols == (block_y_index + 1) * num_cols) by (nonlinear_arith);
            }
            block_y_index += 1;
        }
        proof {
            assert(num_rows * num_cols == units.len()) by (nonlinear_arith)
                requires
                    units.len() == num_cols * num_rows,
            ;
        }
        finish_scan(&mut self.writer, Ghost(units), Ghost(rr), Ghost(base))?;
        proof {
            assert(refs@ =~= Seq::new(cs.len(), |i: int| &cs[i]));
        }
        Ok(())
    }
}

/// The APP14 segment data that marks CMYK data with an unknown color transform.
pub const ADOBE_UNKNOWN: [u8; 12] = [0x41, 0x64, 0x6F, 0x62, 0x65, 0, 0, 0, 0, 0, 0, 0];

/// The APP14 segment data that marks YCCK data.
pub const ADOBE_YCCK: [u8; 12] = [0x41, 0x64, 0x6F, 0x62, 0x65, 0, 0, 0, 0, 0, 0, 2];

/// The quantization tables of the settings: the divisors of the table
/// types at the quality, luma first.
pub open spec fn quality_tables(q: [QuantizationTable; 2], types: [QuantizationTableType; 2], quality: u8) -> bool {
    &&& forall|i: int| 0 <= i < 64 ==> #[trigger] q[0].divisor_at(i) == divisor(types[0], quality, true, i)
    &&& forall|i: int| 0 <= i < 64 ==> #[trigger] q[1].divisor_at(i) == divisor(types[1], quality, false, i)
    &&& table_in_range(q[0]) && table_in_range(q[1])
    &&& table_consistent(q[0]) && table_consistent(q[1])
}

/// The Adobe segment that CMYK and YCCK images carry.
pub open spec fn adobe_segment(color: JpegColorType) -> Seq<u8> {
    match color {
        JpegColorType::Cmyk => segment_bytes(Marker::APP(14), ADOBE_UNKNOWN@),
        JpegColorType::Ycck => segment_bytes(Marker::APP(14), ADOBE_YCCK@),
        _ => Seq::<u8>::empty(),
    }
}

/// The first `n` application segments.
pub open spec fn app_segments_bytes(segs: Seq<(u8, Seq<u8>)>, n: nat) -> Seq<u8>
    decreases n,
{
    if n == 0 {
        Seq::<u8>::empty()
    } else {
        app_segments_bytes(segs, (n - 1) as nat) + segment_bytes(Marker::APP(segs[n - 1].0), segs[n - 1].1)
    }
}

/// Everything in front of the frame: start of image, the JFIF header, the
/// Adobe segment and the application segments.
pub open spec fn preamble_bytes(density: PixelDensity, color: JpegColorType, segs: Seq<(u8, Seq<u8>)>) -> Seq<u8> {
    marker_bytes(Marker::SOI) + header_bytes(density) + adobe_segment(color) + app_segments_bytes(segs, segs.len())
}

/// Whether the settings choose interleaved scans.
pub open spec fn interleaved_mode<W: BitStream>(st: EncoderState<W>) -> bool {
    st.progressive_scans is None && !st.optimize_huffman_table && factors(st.sampling_factor).0 <= 2
        && factors(st.sampling_factor).1 <= 2
}

/// The frame and scans of an image: progressive, one scan per component, or
/// interleaved, as the settings choose.
pub open spec fn image_body<I: ImageBuffer, W: BitStream>(
    image: &I,
    st: EncoderState<W>,
    cs: Seq<Component>,
    q: [QuantizationTable; 2],
    tables: [(HuffmanTable, HuffmanTable); 2],
) -> Seq<u8> {
    let r = interval_of(st.restart_interval);
    let blocks = image_blocks(image, cs, q);
    let frame = frame_segments(
        image.spec_width(),
        image.spec_height(),
        cs,
        st.progressive_scans is Some,
        q,
        tables,
        num_components(image.spec_color_type()),
        st.restart_interval,
    );
    match st.progressive_scans {
        Some(scans) => frame + dc_scans(cs, blocks, tables, r, cs.len()) + ac_scans(cs, blocks, tables, r, scans - 1, (scans - 1) as nat),
        None => if interleaved_mode(st) {
            frame + interleaved_scan(image, cs, q, tables, r)
        } else {
            frame + sequential_scans(cs, blocks, tables, r, cs.len())
        },
    }
}

/// The JPEG file of an image under the settings `st`, with quantization
/// tables `q` and Huffman tables `tables`.
pub open spec fn jpeg_bytes<I: ImageBuffer, W: BitStream>(
    image: &I,
    st: EncoderState<W>,
    q: [QuantizationTable; 2],
    tables: [(HuffmanTable, HuffmanTable); 2],
) -> Seq<u8> {
    let cs = component_list(st.sampling_factor, image.spec_color_type());
    preamble_bytes(st.density, image.spec_color_type(), st.app_segments) + image_body(image, st, cs, q, tables)
        + marker_bytes(Marker::EOI)
}

/// The components of every color type can be written, interleaved too.
pub proof fn lemma_component_list_wf(sf: SamplingFactor, color: JpegColorType)
    ensures
        components_wf(component_list(sf, color)),
        factors_uniform(component_list(sf, color)),
        component_list(sf, color).len() == num_components(color),
{
    let cs = component_list(sf, color);
    let (h, v) = factors(sf);
    reveal_with_fuel(max_h_factor, 5);
    reveal_with_fuel(max_v_factor, 5);
}

/// The number of blocks of the components stays below what the frequency
/// counters can count.
pub proof fn lemma_total_blocks_bound<I: ImageBuffer>(image: &I, cs: Seq<Component>, q: [QuantizationTable; 2])
    requires
        components_wf(cs),
        image.spec_width() > 0,
        image.spec_height() > 0,
    ensures
        128 * total_blocks(image_blocks(image, cs, q), cs.len()) + 70 < 0xFFFF_FFFF_FFFF,
{
    let w = image.spec_width() as int;
    let h = image.spec_height() as int;
    let per = ceil_div(w, 8) * ceil_div(h, 8);
    lemma_max_factor_choices(cs, cs.len());
    lemma_max_sampling_bounds(cs, cs.len());
    lemma_total_blocks_le(image, cs, q, cs.len(), per);
    assert(ceil_div(w, 8) * 8 <= w + 7 && ceil_div(h, 8) * 8 <= h + 7);
    assert(0 <= ceil_div(w, 8) && 0 <= ceil_div(h, 8));
    assert(per * 64 <= (w + 7) * (h + 7)) by (nonlinear_arith)
        requires
            per == ceil_div(w, 8) * ceil_div(h, 8),
            ceil_div(w, 8) * 8 <= w + 7,
            ceil_div(h, 8) * 8 <= h + 7,
            0 <= ceil_div(w, 8),
            0 <= ceil_div(h, 8),
    ;
    assert((w + 7) * (h + 7) <= 65542 * 65542) by (nonlinear_arith)
        requires
            0 < w <= 65535,
            0 < h <= 65535,
    ;
    assert(cs.len() * per <= 4 * per) by (nonlinear_arith)
        requires
            cs.len() <= 4,
            per >= 0,
    ;
}

pub proof fn lemma_total_blocks_le<I: ImageBuffer>(image: &I, cs: Seq<Component>, q: [QuantizationTable; 2], n: nat, per: int)
    requires
        n <= cs.len(),
        components_wf(cs),
        image.spec_width() > 0,
        image.spec_height() > 0,
        per == ceil_div(image.spec_width() as int, 8) * ceil_div(image.spec_height() as int, 8),
        max_h_factor(cs, cs.len()) == 1 || max_h_factor(cs, cs.len()) == 2 || max_h_factor(cs, cs.len()) == 4,
        max_v_factor(cs, cs.len()) == 1 || max_v_factor(cs, cs.len()) == 2 || max_v_factor(cs, cs.len()) == 4,
        forall|i: int| 0 <= i < cs.len() ==> #[trigger] cs[i].horizontal_sampling_factor <= max_h_factor(cs, cs.len()),
        forall|i: int| 0 <= i < cs.len() ==> #[trigger] cs[i].vertical_sampling_factor <= max_v_factor(cs, cs.len()),
    ensures
        0 <= total_blocks(image_blocks(image, cs, q), n) <= n * per,
    decreases n,
{
    if n > 0 {
        lemma_total_blocks_le(image, cs, q, (n - 1) as nat, per);
        let c = n - 1;
        let w = image.spec_width() as int;
        let h = image.spec_height() as int;
        lemma_block_geometry(w, max_h_factor(cs, cs.len()) as int, cs[c].horizontal_sampling_factor as int);
        lemma_block_geometry(h, max_v_factor(cs, cs.len()) as int, cs[c].vertical_sampling_factor as int);
        let cols = component_cols(w, cs, c);
        let rows = component_rows(h, cs, c);
        let hs = h_scale(cs, c);
        let vs = v_scale(cs, c);
        assert(cols <= ceil_div(w, 8)) by (nonlinear_arith)
            requires
                cols == ceil_div(ceil_div(w, 8), hs),
                hs >= 1,
                ceil_div(w, 8) >= 1,
        {
            assert(ceil_div(w, 8) + hs - 1 <= ceil_div(w, 8) * hs);
        }
        assert(rows <= ceil_div(h, 8)) by (nonlinear_arith)
            requires
                rows == ceil_div(ceil_div(h, 8), vs),
                vs >= 1,
                ceil_div(h, 8) >= 1,
        {
            assert(ceil_div(h, 8) + vs - 1 <= ceil_div(h, 8) * vs);
        }
        assert(image_blocks(image, cs, q)[c].len() == cols * rows);
        assert(cols * rows <= per) by (nonlinear_arith)
            requires
                0 <= cols <= ceil_div(w, 8),
                0 <= rows <= ceil_div(h, 8),
                per == ceil_div(w, 8) * ceil_div(h, 8),
        ;
        assert((n - 1) * per + per == n * per) by (nonlinear_arith);
    }
}

impl<W: BitStream> Encoder<W> {
    /// Writes the start of image, the JFIF header, the Adobe segment of CMYK
    /// and YCCK images and the application segments.
    fn write_preamble(&mut self, jpeg_color_type: JpegColorType) -> (r: Result<(), EncodingError>)
        requires
            old(self).wf(),
        ensures
            W::infallible() ==> r is Ok,
            final(self)@ == (EncoderState { stream: final(self)@.stream, ..old(self)@ }),
            r is Ok ==> at_rest(final(self)@.stream),
            r is Ok ==> final(self)@.stream.out() == old(self)@.stream.out() + preamble_bytes(
                old(self)@.density,
                jpeg_color_type,
                old(self)@.app_segments,
            ),
    {
        let ghost s0 = self@.stream;
        self.writer.write_marker(Marker::SOI)?;
        let ghost s1 = self@.stream;
        self.writer.write_header(&self.density)?;
        let ghost s2 = self@.stream;
        proof {
            lemma_wrote_bytes_trans(s0, s1, s2, marker_bytes(Marker::SOI), header_bytes(self.density));
        }
        let ghost head = marker_bytes(Marker::SOI) + header_bytes(self.density);
        if jpeg_color_type == JpegColorType::Cmyk {
            //Set ColorTransform info to "Unknown"
            self.writer.write_segment(Marker::APP(14), &ADOBE_UNKNOWN)?;
            proof {
                lemma_wrote_bytes_trans(s0, s2, self@.stream, head, segment_bytes(Marker::APP(14), ADOBE_UNKNOWN@));
            }
        } else if jpeg_color_type == JpegColorType::Ycck {
            //Set ColorTransform info to YCCK
            self.writer.write_segment(Marker::APP(14), &ADOBE_YCCK)?;
            proof {
                lemma_wrote_bytes_trans(s0, s2, self@.stream, head, segment_bytes(Marker::APP(14), ADOBE_YCCK@));
            }
        } else {
            proof {
                assert(head + adobe_segment(jpeg_color_type) =~= head);
            }
        }
        let ghost s3 = self@.stream;
        let ghost segs = self@.app_segments;
        let ghost head2 = head + adobe_segment(jpeg_color_type);
        proof {
            assert(app_segments_bytes(segs, 0) =~= Seq::<u8>::empty());
            assert(head2 + app_segments_bytes(segs, 0) =~= head2);
        }
        let mut i: usize = 0;
        while i < self.app_segments.len()
            invariant
                i <= segs.len(),
                segs == self@.app_segments,
                self@ == (EncoderState { stream: self@.stream, ..old(self)@ }),
                forall|k: int| 0 <= k < segs.len() ==> app_segment_ok(#[trigger] segs[k]),
                segs.len() == self.app_segments@.len(),
                wrote_bytes(s0, self@.stream, head2 + app_segments_bytes(segs, i as nat)),
            decreases segs.len() - i,
        {
            let ghost si = self@.stream;
            let (nr, data) = &self.app_segments[i];
            proof {
                assert(segs[i as int] == (*nr, data@));
                assert(app_segment_ok(segs[i as int]));
            }
            self.writer.write_segment(Marker::APP(*nr), data.as_slice())?;
            proof {
                lemma_wrote_bytes_trans(s0, si, self@.stream, head2 + app_segments_bytes(segs, i as nat), segment_bytes(Marker::APP(*nr), data@));
                assert(head2 + app_segments_bytes(segs, i as nat) + segment_bytes(Marker::APP(*nr), data@) =~= head2 + app_segments_bytes(segs, (i + 1) as nat));
            }
            i += 1;
        }
        proof {
            assert(head2 + app_segments_bytes(segs, segs.len()) =~= preamble_bytes(self.density, jpeg_color_type, segs));
        }
        Ok(())
    }
}

/// What encoding an image gives: on success the file is written, with
/// the quantization tables of the settings and the Huffman tables as the
/// settings leave them (fitted to the image when optimizing).
#[verifier::opaque]
pub open spec fn encoded<I: ImageBuffer, W: BitStream>(image: &I, before: EncoderState<W>, after: EncoderState<W>) -> bool {
    let cs = component_list(before.sampling_factor, image.spec_color_type());
    exists|q: [QuantizationTable; 2]|
        #[trigger] quality_tables(q, before.quantization_tables, before.quality) && {
            &&& after.stream.out() == before.stream.out() + jpeg_bytes(image, before, q, after.huffman_tables)
            &&& before.optimize_huffman_table ==> tables_optimized(
                before.huffman_tables,
                after.huffman_tables,
                cs,
                image_blocks(image, cs, q),
                before.progressive_scans,
            )
        }
}

impl<W: BitStream> Encoder<W> {
    /// Encodes an image given as an [ImageBuffer].
    #[verifier::spinoff_prover]
    #[verifier::rlimit(100)]
    pub fn encode_image_internal<I: ImageBuffer, F: FDCT, Q: BlockQuantizer, H: HuffmanEncoder>(
        &mut self,
        image: I,
    ) -> (r: Result<(), EncodingError>)
        requires
            old(self).wf(),
            old(self)@.components.len() == 0 || image.spec_width() == 0 || image.spec_height() == 0,
            image.valid(),
        ensures
            image.spec_width() == 0 || image.spec_height() == 0 ==> r == Err::<(), EncodingError>(
                EncodingError::ZeroImageDimensions { width: image.spec_width(), height: image.spec_height() },
            ) && final(self)@ == old(self)@,
            W::infallible() && image.spec_width() > 0 && image.spec_height() > 0 ==> r is Ok,
            final(self)@ == (EncoderState {
                stream: final(self)@.stream,
                huffman_tables: final(self)@.huffman_tables,
                components: final(self)@.components,
                ..old(self)@
            }),
            !old(self)@.optimize_huffman_table ==> final(self)@.huffman_tables == old(self)@.huffman_tables,
            r is Ok ==> final(self).wf(),
            r is Ok ==> final(self)@.components == component_list(old(self)@.sampling_factor, image.spec_color_type()),
            r is Ok ==> encoded(&image, old(self)@, final(self)@),
    {
        let width = image.width();
        let height = image.height();
        if width == 0 || height == 0 {
            return Err(EncodingError::ZeroImageDimensions { width, height });
        }

        let q_tables = [
            QuantizationTable::new_with_quality(&self.quantization_tables[0], self.quality, true),
            QuantizationTable::new_with_quality(&self.quantization_tables[1], self.quality, false),
        ];
        let ghost before = self@;
        let jpeg_color_type = image.get_jpeg_color_type();
        self.init_components(jpeg_color_type);
        let ghost cs = self@.components;
        proof {
            assert(cs =~= component_list(before.sampling_factor, jpeg_color_type));
            lemma_component_list_wf(before.sampling_factor, jpeg_color_type);
            if before.optimize_huffman_table {
                lemma_total_blocks_bound(&image, cs, q_tables);
            }
        }
        let ghost s0 = self@.stream.out();
        self.write_preamble(jpeg_color_type)?;
        let ghost s1 = self@.stream.out();

        self.encode_body::<I, F, Q, H>(image, &q_tables)?;
        let ghost s2 = self@.stream;
        self.writer.write_marker(Marker::EOI)?;
        proof {
            reveal(encoded);
            assert(quality_tables(q_tables, before.quantization_tables, before.quality));
            let body = image_body(&image, before, cs, q_tables, self@.huffman_tables);
            assert(s2.out() == s1 + body);
            assert(self@.stream.out() =~= s0 + jpeg_bytes(&image, before, q_tables, self@.huffman_tables));
        }
        Ok(())
    }
}

impl<W: BitStream> Encoder<W> {
    /// Writes the frame and the scans in the mode the settings choose.
    #[verifier::rlimit(100)]
    fn encode_body<I: ImageBuffer, F: FDCT, Q: BlockQuantizer, H: HuffmanEncoder>(
        &mut self,
        image: I,
        q_tables: &[QuantizationTable; 2],
    ) -> (r: Result<(), EncodingError>)
        requires
            at_rest(old(self)@.stream),
            components_wf(old(self)@.components),
            factors_uniform(old(self)@.components),
            old(self)@.components.len() == num_components(image.spec_color_type()),
            old(self)@.progressive_scans matches Some(s) ==> 2 <= s <= 64,
            old(self)@.components == component_list(old(self)@.sampling_factor, image.spec_color_type()),
            image.valid(),
            image.spec_width() > 0,
            image.spec_height() > 0,
            table_in_range(q_tables[0]),
            table_in_range(q_tables[1]),
            old(self)@.optimize_huffman_table ==> 128 * total_blocks(
                image_blocks(&image, old(self)@.components, *q_tables),
                old(self)@.components.len(),
            ) + 70 < 0xFFFF_FFFF_FFFF,
        ensures
            W::infallible() ==> r is Ok,
            final(self)@ == (EncoderState {
                stream: final(self)@.stream,
                huffman_tables: final(self)@.huffman_tables,
                ..old(self)@
            }),
            old(self)@.optimize_huffman_table ==> tables_optimized(
                old(self)@.huffman_tables,
                final(self)@.huffman_tables,
                old(self)@.components,
                image_blocks(&image, old(self)@.components, *q_tables),
                old(self)@.progressive_scans,
            ),
            !old(self)@.optimize_huffman_table ==> final(self)@.huffman_tables == old(self)@.huffman_tables,
            r is Ok ==> at_rest(final(self)@.stream),
            r is Ok ==> final(self)@.stream.out() == old(self)@.stream.out() + image_body(
                &image,
                old(self)@,
                old(self)@.components,
                *q_tables,
                final(self)@.huffman_tables,
            ),
    {
        match self.progressive_scans {
            Some(scans) => {
                self.encode_image_progressive::<_, F, Q>(image, scans, q_tables)
            },
            None => {
                if self.optimize_huffman_table || !self.sampling_factor.supports_interleaved() {
                    self.encode_image_sequential::<_, F, Q, H>(image, q_tables)
                } else {
                    self.encode_image_interleaved::<_, F, Q, H>(image, q_tables)
                }
            },
        }
    }
}

impl<W: BitStream> Encoder<W> {
    /// Encode an image
    ///
    /// Data format and length must conform to specified width, height and color type.
    ///
    /// The encoder's components must not have been set up before (by
    /// `init_components`): encoding adds the components of the image to
    /// them, and blocks of components the image does not fill cannot be
    /// read. Input refused for its length or dimensions is refused either way.
    pub fn encode(&mut self, data: &[u8], width: u16, height: u16, color_type: ColorType) -> (r: Result<(), EncodingError>)
        requires
            old(self).wf(),
            old(self)@.components.len() == 0 || data@.len() < width * height * bytes_per_pixel(color_type)
                || width == 0 || height == 0,
        ensures
            final(self)@ == (EncoderState {
                stream: final(self)@.stream,
                huffman_tables: final(self)@.huffman_tables,
                components: final(self)@.components,
                ..old(self)@
            }),
            !old(self)@.optimize_huffman_table ==> final(self)@.huffman_tables == old(self)@.huffman_tables,
            data@.len() < width * height * bytes_per_pixel(color_type) ==> r == Err::<(), EncodingError>(
                EncodingError::BadImageData {
                    length: data@.len() as usize,
                    required: (width * height * bytes_per_pixel(color_type)) as usize,
                },
            ) && final(self)@ == old(self)@,
            data@.len() >= width * height * bytes_per_pixel(color_type) && (width == 0 || height == 0) ==> r
                == Err::<(), EncodingError>(EncodingError::ZeroImageDimensions { width, height }) && final(self)@ == old(self)@,
            W::infallible() && data@.len() >= width * height * bytes_per_pixel(color_type) && width > 0 && height > 0
                ==> r is Ok,
            r is Ok ==> final(self).wf(),
            r is Ok ==> match color_type {
                ColorType::Luma => encoded(&GrayImage(data, width, height), old(self)@, final(self)@),
                ColorType::Rgb => encoded(&RgbImageSimd(data, width, height), old(self)@, final(self)@),
                ColorType::Rgba => encoded(&RgbaImageSimd(data, width, height), old(self)@, final(self)@),
                ColorType::Bgr => encoded(&BgrImageSimd(data, width, height), old(self)@, final(self)@),
                ColorType::Bgra => encoded(&BgraImageSimd(data, width, height), old(self)@, final(self)@),
                ColorType::Ycbcr => encoded(&YCbCrImage(data, width, height), old(self)@, final(self)@),
                ColorType::Cmyk => encoded(&CmykImage(data, width, height), old(self)@, final(self)@),
                ColorType::CmykAsYcck => encoded(&CmykAsYcckImage(data, width, height), old(self)@, final(self)@),
                ColorType::Ycck => encoded(&YcckImage(data, width, height), old(self)@, final(self)@),
            },
    {
        let bytes_per_pixel = color_type.get_bytes_per_pixel();
        proof {
            assert(data@.len() == data.len());
            assert((width as u64) * (height as u64) <= 65535 * 65535 && (width as u64) * (height as u64) * (bytes_per_pixel as u64) <= 65535 * 65535 * 4) by (nonlinear_arith)
                requires
                    bytes_per_pixel <= 4,
            ;
        }
        let required_data_len: u64 = width as u64 * height as u64 * bytes_per_pixel as u64;
        if (data.len() as u64) < required_data_len {
            return Err(EncodingError::BadImageData { length: data.len(), required: required_data_len as usize });
        }
        match color_type {
            ColorType::Luma => {
                self.encode_image_internal::<_, SimdFDCT, SimdBlockQuantizer, SimdHuffmanEncoder>(GrayImage(data, width, height))
            },
            ColorType::Rgb => {
                self.encode_image_internal::<_, SimdFDCT, SimdBlockQuantizer, SimdHuffmanEncoder>(RgbImageSimd(data, width, height))
            },
            ColorType::Rgba => {
                self.encode_image_internal::<_, SimdFDCT, SimdBlockQuantizer, SimdHuffmanEncoder>(RgbaImageSimd(data, width, height))
            },
            ColorType::Bgr => {
                self.encode_image_internal::<_, SimdFDCT, SimdBlockQuantizer, SimdHuffmanEncoder>(BgrImageSimd(data, width, height))
            },
            ColorType::Bgra => {
                self.encode_image_internal::<_, SimdFDCT, SimdBlockQuantizer, SimdHuffmanEncoder>(BgraImageSimd(data, width, height))
            },
            ColorType::Ycbcr => {
                self.encode_image_internal::<_, SimdFDCT, SimdBlockQuantizer, SimdHuffmanEncoder>(YCbCrImage(data, width, height))
            },
            ColorType::Cmyk => {
                self.encode_image_internal::<_, SimdFDCT, SimdBlockQuantizer, SimdHuffmanEncoder>(CmykImage(data, width, height))
            },
            ColorType::CmykAsYcck => {
                self.encode_image_internal::<_, SimdFDCT, SimdBlockQuantizer, SimdHuffmanEncoder>(CmykAsYcckImage(data, width, height))
            },
            ColorType::Ycck => {
                self.encode_image_internal::<_, SimdFDCT, SimdBlockQuantizer, SimdHuffmanEncoder>(YcckImage(data, width, height))
            },
        }
    }
}
} // verus!
