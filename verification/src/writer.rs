use vstd::prelude::*;
use vstd::arithmetic::power2::*;
use vstd::bits::*;
use vstd::std_specs::bits::*;
use crate::coding::{abs, category, codable, lemma_category_unique, magnitude_bits, bits_of};
use crate::EncodingError;
use crate::bit_stream::{BitStream, be_bytes, wrote_bytes, wrote_bits, lemma_wrote_bytes_trans,
    lemma_wrote_bits_trans, lemma_wrote_nothing, value_bits};
use crate::marker::{Marker, SOFType, marker_code, marker_valid};
use crate::encoder::{AlignedBlock, Component};
use crate::huffman::{CodingClass, HuffmanTable, code_bits, coded_value_bits, coefficient_bits,
    dc_bits, ac_bits, all_codable, block_codable, block_bits, entry_wf};
use crate::coding::{repeat, lemma_shr_zero_iff, lemma_concat_shift};
use crate::quantization::QuantizationTable;

verus! {

/// Zig-zag sequence of quantized DCT coefficients
///
/// Figure A.6
pub const ZIGZAG: [u8; 64] = [
    0, 1, 8, 16, 9, 2, 3, 10, 17, 24, 32, 25, 18, 11, 4, 5, 12, 19, 26, 33, 40, 48, 41, 34, 27, 20,
    13, 6, 7, 14, 21, 28, 35, 42, 49, 56, 57, 50, 43, 36, 29, 22, 15, 23, 30, 37, 44, 51, 58, 59,
    52, 45, 38, 31, 39, 46, 53, 60, 61, 54, 47, 55, 62, 63,
];

/// Every zig-zag index lies within the block.
pub proof fn lemma_zigzag_bounds()
    ensures
        forall|i: int| 0 <= i < 64 ==> #[trigger] ZIGZAG[i] < 64,
{
    assert forall|i: int| 0 <= i < 64 implies #[trigger] ZIGZAG[i] < 64 by {
        if i < 32 {
            if i < 16 {} else {}
        } else {
            if i < 48 {} else {}
        }
    }
}

/// Splits a coefficient into its category (number of magnitude bits) and
/// the magnitude bits themselves.
pub fn get_code(value: i16) -> (r: (u8, u16))
    requires
        codable(value as int),
    ensures
        r.0 as nat == category(abs(value as int)),
        r.1 as nat == magnitude_bits(value as int),
        r.0 <= 14,
{
    let temp: i16 = if value < 0 { value - 1 } else { value };
    let temp2: i16 = if value < 0 { -value } else { value };

    let x: u16 = temp2 as u16;
    let y: u16 = (x << 1) | 1;
    let lz: u32 = y.leading_zeros();
    proof {
        axiom_u16_leading_zeros(y);
        let lz16 = lz as u16;
        assert(x < 16384 && y == ((x << 1u16) | 1u16) && lz16 <= 16 && (y >> ((16u16 - lz16) as u16)) == 0
            && (lz16 < 16 ==> ((y >> ((15u16 - lz16) as u16)) & 1u16) != 0u16) ==> 1 <= lz16 <= 15) by (bit_vector);
    }
    let num_bits: u16 = 15 - lz as u16;
    proof {
        let lz16 = lz as u16;
        assert(x < 16384 && y == ((x << 1u16) | 1u16) && 1 <= lz16 <= 15 && (y >> ((16u16 - lz16) as u16))
            == 0 && ((y >> ((15u16 - lz16) as u16)) & 1u16) != 0u16 ==> x < (1u16 << ((15u16 - lz16) as u16))
            && (lz16 < 15 ==> (1u16 << ((14u16 - lz16) as u16)) <= x) && (lz16 == 15 ==> x == 0))
            by (bit_vector);
        lemma_u16_pow2_no_overflow(num_bits as nat);
        lemma_u16_shl_is_mul(1u16, num_bits);
        if num_bits > 0 {
            lemma_u16_pow2_no_overflow((num_bits - 1) as nat);
            lemma_u16_shl_is_mul(1u16, (num_bits - 1) as u16);
        }
        lemma_category_unique(x as nat, num_bits as nat);
        assert(num_bits <= 14);
    }
    let p: i16 = 1i16 << num_bits;
    proof {
        let nb = num_bits;
        assert(nb <= 14 ==> (1i16 << nb) as int == (1u16 << nb) as int) by (bit_vector);
        assert(p as int == pow2(num_bits as nat));
    }
    let mask: i16 = p - 1;
    let coefficient: i16 = temp & mask;
    proof {
        let nb = num_bits;
        if value >= 0 {
            assert(0 <= temp < p && p == (1i16 << nb) && nb <= 14 && mask + 1 == p ==> temp & mask == temp)
                by (bit_vector);
        } else {
            assert(-p <= temp < 0 && p == (1i16 << nb) && nb <= 14 && mask + 1 == p ==> (temp & mask)
                == temp + p) by (bit_vector);
        }
    }
    (num_bits as u8, coefficient as u16)
}


/// Represents the pixel density of an image
///
/// For example, a 300 DPI image is represented by:
///
/// ```rust
/// # use jpeg_encoder::writer::{PixelDensity, PixelDensityUnit};
/// let hdpi = PixelDensity::dpi(300);
/// assert_eq!(hdpi, PixelDensity {density: (300,300), unit: PixelDensityUnit::Inches})
/// ```
#[derive(Clone, Copy, Debug, Eq, PartialEq)]
pub struct PixelDensity {
    /// A couple of values for (Xdensity, Ydensity)
    pub density: (u16, u16),
    /// The unit in which the density is measured
    pub unit: PixelDensityUnit,
}

impl PixelDensity {
    /// Creates the most common pixel density type:
    /// the horizontal and the vertical density are equal,
    /// and measured in pixels per inch.
    #[must_use]
    pub fn dpi(density: u16) -> (d: Self)
        ensures
            d.density == (density, density),
            d.unit == PixelDensityUnit::Inches,
    {
        PixelDensity { density: (density, density), unit: PixelDensityUnit::Inches }
    }
}

impl Default for PixelDensity {
    /// Returns a pixel density with a pixel aspect ratio of 1
    fn default() -> (d: Self)
        ensures
            d.density == (1u16, 1u16),
            d.unit == PixelDensityUnit::PixelAspectRatio,
    {
        PixelDensity { density: (1, 1), unit: PixelDensityUnit::PixelAspectRatio }
    }
}

/// Represents a unit in which the density of an image is measured
#[derive(Clone, Copy, Debug, Eq, PartialEq, Structural)]
pub enum PixelDensityUnit {
    /// Represents the absence of a unit, the values indicate only a
    /// [pixel aspect ratio](https://en.wikipedia.org/wiki/Pixel_aspect_ratio)
    PixelAspectRatio,
    /// Pixels per inch (2.54 cm)
    Inches,
    /// Pixels per centimeter
    Centimeters,
}

pub open spec fn unit_code(u: PixelDensityUnit) -> u8 {
    match u {
        PixelDensityUnit::PixelAspectRatio => 0,
        PixelDensityUnit::Inches => 1,
        PixelDensityUnit::Centimeters => 2,
    }
}

pub open spec fn marker_bytes(m: Marker) -> Seq<u8> {
    seq![0xFFu8, marker_code(m)]
}

/// The APP0 (JFIF) segment.
pub open spec fn header_bytes(density: PixelDensity) -> Seq<u8> {
    marker_bytes(Marker::APP(0)) + be_bytes(16) + seq![0x4Au8, 0x46, 0x49, 0x46, 0x00] + seq![
        0x01u8,
        0x02,
    ] + seq![unit_code(density.unit)] + be_bytes(density.density.0) + be_bytes(density.density.1)
        + seq![0x00u8, 0x00]
}

/// A segment: marker, big-endian length (counting itself), data.
pub open spec fn segment_bytes(m: Marker, data: Seq<u8>) -> Seq<u8> {
    marker_bytes(m) + be_bytes((data.len() + 2) as u16) + data
}

pub open spec fn component_bytes(cs: Seq<Component>) -> Seq<u8>
    decreases cs.len(),
{
    if cs.len() == 0 {
        Seq::<u8>::empty()
    } else {
        let c = cs.last();
        component_bytes(cs.drop_last()) + seq![
            c.id,
            (c.horizontal_sampling_factor << 4) | c.vertical_sampling_factor,
            c.quantization_table,
        ]
    }
}

/// The start-of-frame segment.
pub open spec fn frame_header_bytes(
    width: u16,
    height: u16,
    components: Seq<Component>,
    progressive: bool,
) -> Seq<u8> {
    marker_bytes(
        Marker::SOF(
            if progressive {
                SOFType::ProgressiveDCT
            } else {
                SOFType::BaselineDCT
            },
        ),
    ) + be_bytes((8 + 3 * components.len()) as u16) + seq![8u8] + be_bytes(height) + be_bytes(
        width,
    ) + seq![components.len() as u8] + component_bytes(components)
}

/// Two four-bit values packed into one byte, the first in the high bits.
proof fn lemma_nibbles(hi: u8, lo: u8)
    by (bit_vector)
    requires
        hi < 16,
        lo < 16,
    ensures
        (hi << 4u8) | lo == hi * 16 + lo,
{
}

/// The per-component part of the frame header: three bytes per component,
/// its id, its sampling factors (horizontal one in the high four bits) and
/// its quantization table.
#[verifier::spinoff_prover]
pub proof fn lemma_component_bytes_layout(cs: Seq<Component>)
    requires
        forall|i: int| 0 <= i < cs.len() ==> #[trigger] cs[i].horizontal_sampling_factor < 16
            && cs[i].vertical_sampling_factor < 16,
    ensures
        component_bytes(cs).len() == 3 * cs.len(),
        forall|i: int| 0 <= i < cs.len() ==> {
            &&& component_bytes(cs)[3 * i] == #[trigger] cs[i].id
            &&& component_bytes(cs)[3 * i + 1] == cs[i].horizontal_sampling_factor * 16 + cs[i].vertical_sampling_factor
            &&& component_bytes(cs)[3 * i + 2] == cs[i].quantization_table
        },
    decreases cs.len(),
{
    if cs.len() > 0 {
        let init = cs.drop_last();
        lemma_component_bytes_layout(init);
        let c = cs.last();
        assert(c == cs[cs.len() - 1]);
        let h = c.horizontal_sampling_factor;
        let v = c.vertical_sampling_factor;
        assert(h < 16 && v < 16 ==> (h << 4u8) | v == h * 16 + v) by (bit_vector);
        let head = component_bytes(init);
        let tail = seq![c.id, (h << 4) | v, c.quantization_table];
        assert(component_bytes(cs) == head + tail);
        assert forall|i: int| 0 <= i < cs.len() implies {
            &&& component_bytes(cs)[3 * i] == #[trigger] cs[i].id
            &&& component_bytes(cs)[3 * i + 1] == cs[i].horizontal_sampling_factor * 16 + cs[i].vertical_sampling_factor
            &&& component_bytes(cs)[3 * i + 2] == cs[i].quantization_table
        } by {
            if i < cs.len() - 1 {
                assert(cs[i] == init[i]);
                assert(head[3 * i] == init[i].id);
                assert(component_bytes(cs)[3 * i] == head[3 * i]);
                assert(component_bytes(cs)[3 * i + 1] == head[3 * i + 1]);
                assert(component_bytes(cs)[3 * i + 2] == head[3 * i + 2]);
            } else {
                assert(component_bytes(cs)[3 * i] == tail[0]);
                assert(component_bytes(cs)[3 * i + 1] == tail[1]);
                assert(component_bytes(cs)[3 * i + 2] == tail[2]);
            }
        }
    }
}

/// The start-of-frame segment as ITU T.81 (B.2.2) lays it out: the marker
/// FF C0 (baseline) or FF C2 (progressive), the segment length 8 + 3 per
/// component, the sample precision 8, the number of lines (the image
/// height), the number of samples per line (the image width), the number of
/// components, then three bytes per component.
#[verifier::spinoff_prover]
pub proof fn lemma_frame_header_layout(width: u16, height: u16, cs: Seq<Component>, progressive: bool)
    requires
        cs.len() <= 4,
        forall|i: int| 0 <= i < cs.len() ==> #[trigger] cs[i].horizontal_sampling_factor < 16
            && cs[i].vertical_sampling_factor < 16,
    ensures
        frame_header_bytes(width, height, cs, progressive).len() == 10 + 3 * cs.len(),
        frame_header_bytes(width, height, cs, progressive)[0] == 0xFF,
        frame_header_bytes(width, height, cs, progressive)[1] == if progressive { 0xC2u8 } else { 0xC0u8 },
        frame_header_bytes(width, height, cs, progressive)[2] * 256 + frame_header_bytes(width, height, cs, progressive)[3]
            == 8 + 3 * cs.len(),
        frame_header_bytes(width, height, cs, progressive)[4] == 8,
        frame_header_bytes(width, height, cs, progressive)[5] * 256 + frame_header_bytes(width, height, cs, progressive)[6]
            == height,
        frame_header_bytes(width, height, cs, progressive)[7] * 256 + frame_header_bytes(width, height, cs, progressive)[8]
            == width,
        frame_header_bytes(width, height, cs, progressive)[9] == cs.len(),
        forall|i: int| 0 <= i < cs.len() ==> {
            &&& frame_header_bytes(width, height, cs, progressive)[10 + 3 * i] == #[trigger] cs[i].id
            &&& frame_header_bytes(width, height, cs, progressive)[11 + 3 * i] == cs[i].horizontal_sampling_factor * 16
                + cs[i].vertical_sampling_factor
            &&& frame_header_bytes(width, height, cs, progressive)[12 + 3 * i] == cs[i].quantization_table
        },
{
    lemma_component_bytes_layout(cs);
    let f = frame_header_bytes(width, height, cs, progressive);
    let head = marker_bytes(Marker::SOF(if progressive { SOFType::ProgressiveDCT } else { SOFType::BaselineDCT }))
        + be_bytes((8 + 3 * cs.len()) as u16) + seq![8u8] + be_bytes(height) + be_bytes(width) + seq![cs.len() as u8];
    assert(head.len() == 10);
    assert(f == head + component_bytes(cs));
    assert forall|i: int| 0 <= i < cs.len() implies {
        &&& frame_header_bytes(width, height, cs, progressive)[10 + 3 * i] == #[trigger] cs[i].id
        &&& frame_header_bytes(width, height, cs, progressive)[11 + 3 * i] == cs[i].horizontal_sampling_factor * 16
            + cs[i].vertical_sampling_factor
        &&& frame_header_bytes(width, height, cs, progressive)[12 + 3 * i] == cs[i].quantization_table
    } by {
        assert(component_bytes(cs)[3 * i] == cs[i].id);
        assert(component_bytes(cs)[3 * i + 1] == cs[i].horizontal_sampling_factor * 16 + cs[i].vertical_sampling_factor);
        assert(component_bytes(cs)[3 * i + 2] == cs[i].quantization_table);
        assert(f[10 + 3 * i] == component_bytes(cs)[3 * i]);
        assert(f[11 + 3 * i] == component_bytes(cs)[3 * i + 1]);
        assert(f[12 + 3 * i] == component_bytes(cs)[3 * i + 2]);
    }
}

pub open spec fn scan_component_bytes(cs: Seq<&Component>) -> Seq<u8>
    decreases cs.len(),
{
    if cs.len() == 0 {
        Seq::<u8>::empty()
    } else {
        let c = cs.last();
        scan_component_bytes(cs.drop_last()) + seq![
            c.id,
            (c.dc_huffman_table << 4) | c.ac_huffman_table,
        ]
    }
}

/// The start-of-scan segment.
pub open spec fn scan_header_bytes(components: Seq<&Component>, spectral: Option<(u8, u8)>) -> Seq<
    u8,
> {
    let (ss, se) = match spectral {
        Some(p) => p,
        None => (0u8, 63u8),
    };
    marker_bytes(Marker::SOS) + be_bytes((6 + 2 * components.len()) as u16) + seq![
        components.len() as u8,
    ] + scan_component_bytes(components) + seq![ss, se, 0u8]
}

/// The DHT segment of one table.
pub open spec fn huffman_segment_bytes(class: CodingClass, destination: u8, table: HuffmanTable) -> Seq<
    u8,
> {
    marker_bytes(Marker::DHT) + be_bytes((19 + table.symbols().len()) as u16) + seq![
        ((class.spec_value() << 4) | destination) as u8,
    ] + table.lengths() + table.symbols()
}

/// The table values in zig-zag order.
pub open spec fn zigzag_table_bytes(table: QuantizationTable) -> Seq<u8> {
    Seq::new(64, |k: int| (table.divisor_at(ZIGZAG[k] as int) / 8) as u8)
}

/// The DQT segment of one table.
pub open spec fn quantization_segment_bytes(destination: u8, table: QuantizationTable) -> Seq<u8> {
    marker_bytes(Marker::DQT) + be_bytes(67) + seq![destination] + zigzag_table_bytes(table)
}

/// The DRI segment.
pub open spec fn dri_bytes(restart_interval: u16) -> Seq<u8> {
    marker_bytes(Marker::DRI) + be_bytes(4) + be_bytes(restart_interval)
}

/// The JFIF APP0 segment: FF E0, length 16, "JFIF" and a zero byte,
/// version 1.02, the density unit (0 none, 1 dots per inch, 2 dots per
/// centimeter), the horizontal then the vertical density, and no thumbnail.
pub proof fn lemma_app0_layout(density: PixelDensity)
    ensures
        header_bytes(density).len() == 18,
        header_bytes(density).take(4) == seq![0xFFu8, 0xE0, 0x00, 0x10],
        header_bytes(density).subrange(4, 9) == seq![0x4Au8, 0x46, 0x49, 0x46, 0x00],
        header_bytes(density)[9] == 1 && header_bytes(density)[10] == 2,
        density.unit is PixelAspectRatio ==> header_bytes(density)[11] == 0,
        density.unit is Inches ==> header_bytes(density)[11] == 1,
        density.unit is Centimeters ==> header_bytes(density)[11] == 2,
        header_bytes(density)[12] * 256 + header_bytes(density)[13] == density.density.0,
        header_bytes(density)[14] * 256 + header_bytes(density)[15] == density.density.1,
        header_bytes(density)[16] == 0 && header_bytes(density)[17] == 0,
{
    let h = header_bytes(density);
    let (x, y) = density.density;
    assert(h =~= seq![0xFFu8, 0xE0, 0x00, 0x10, 0x4A, 0x46, 0x49, 0x46, 0x00, 0x01, 0x02, unit_code(density.unit),
        (x / 256) as u8, (x % 256) as u8, (y / 256) as u8, (y % 256) as u8, 0x00, 0x00]);
    assert(h.take(4) =~= seq![0xFFu8, 0xE0, 0x00, 0x10]);
    assert(h.subrange(4, 9) =~= seq![0x4Au8, 0x46, 0x49, 0x46, 0x00]);
}

/// An APPn (or other) segment: FF, the marker code, the big-endian length
/// of the data plus the two length bytes, then the data.
pub proof fn lemma_segment_layout(m: Marker, data: Seq<u8>)
    requires
        data.len() <= 65533,
    ensures
        segment_bytes(m, data).len() == data.len() + 4,
        segment_bytes(m, data)[0] == 0xFF,
        segment_bytes(m, data)[1] == marker_code(m),
        segment_bytes(m, data)[2] * 256 + segment_bytes(m, data)[3] == data.len() + 2,
        segment_bytes(m, data).skip(4) == data,
{
    assert(segment_bytes(m, data).skip(4) =~= data);
}

/// The DRI segment: FF DD, length 4, the restart interval.
pub proof fn lemma_dri_layout(restart_interval: u16)
    ensures
        dri_bytes(restart_interval).len() == 6,
        dri_bytes(restart_interval).take(4) == seq![0xFFu8, 0xDD, 0x00, 0x04],
        dri_bytes(restart_interval)[4] * 256 + dri_bytes(restart_interval)[5] == restart_interval,
{
    assert(dri_bytes(restart_interval).take(4) =~= seq![0xFFu8, 0xDD, 0x00, 0x04]);
}

/// The DHT segment (T.81 B.2.4.2): FF C4, the length (2 + 1 + 16 + the
/// number of symbols), the table class (0 DC, 1 AC) in the high four bits
/// and the destination in the low ones, the sixteen counts of codes of
/// each length, then the symbols.
pub proof fn lemma_dht_layout(class: CodingClass, destination: u8, table: HuffmanTable)
    requires
        destination < 16,
        table.lengths().len() == 16,
        table.symbols().len() <= 256,
    ensures
        huffman_segment_bytes(class, destination, table).len() == 21 + table.symbols().len(),
        huffman_segment_bytes(class, destination, table)[0] == 0xFF,
        huffman_segment_bytes(class, destination, table)[1] == 0xC4,
        huffman_segment_bytes(class, destination, table)[2] * 256 + huffman_segment_bytes(class, destination, table)[3]
            == 19 + table.symbols().len(),
        class is Dc ==> huffman_segment_bytes(class, destination, table)[4] == destination,
        class is Ac ==> huffman_segment_bytes(class, destination, table)[4] == 16 + destination,
        huffman_segment_bytes(class, destination, table).subrange(5, 21) == table.lengths(),
        huffman_segment_bytes(class, destination, table).skip(21) == table.symbols(),
{
    let h = huffman_segment_bytes(class, destination, table);
    lemma_nibbles(0, destination);
    lemma_nibbles(1, destination);
    assert(h.subrange(5, 21) =~= table.lengths());
    assert(h.skip(21) =~= table.symbols());
}

/// The zig-zag order of T.81 (figure A.6): it starts at the top-left
/// coefficient and runs through the anti-diagonals (row + column constant)
/// one after the other, down to the left along the odd ones and up to the
/// right along the even ones.
pub proof fn lemma_zigzag_order()
    ensures
        ZIGZAG[0] == 0,
        ZIGZAG[63] == 63,
        forall|k: int|
            0 <= k < 63 ==> {
                let a = #[trigger] ZIGZAG[k] as int;
                let b = ZIGZAG[k + 1] as int;
                let d = a / 8 + a % 8;
                if b / 8 + b % 8 == d {
                    if d % 2 == 1 {
                        b / 8 == a / 8 + 1 && b % 8 == a % 8 - 1
                    } else {
                        b / 8 == a / 8 - 1 && b % 8 == a % 8 + 1
                    }
                } else {
                    b / 8 + b % 8 == d + 1
                }
            },
{
    assert forall|k: int| 0 <= k < 63 implies {
        let a = #[trigger] ZIGZAG[k] as int;
        let b = ZIGZAG[k + 1] as int;
        let d = a / 8 + a % 8;
        if b / 8 + b % 8 == d {
            if d % 2 == 1 {
                b / 8 == a / 8 + 1 && b % 8 == a % 8 - 1
            } else {
                b / 8 == a / 8 - 1 && b % 8 == a % 8 + 1
            }
        } else {
            b / 8 + b % 8 == d + 1
        }
    } by {
        if k < 32 {
            if k < 16 {} else {}
        } else {
            if k < 48 {} else {}
        }
    }
}

/// The DQT segment (T.81 B.2.4.1): FF DB, length 67, precision 0 (8-bit
/// values) and the destination, then 64 values in zig-zag order: the
/// divisor of the coefficient `ZIGZAG[k]`, divided by 8, at position `k`.
pub proof fn lemma_dqt_layout(destination: u8, table: QuantizationTable)
    requires
        destination < 16,
    ensures
        quantization_segment_bytes(destination, table).len() == 69,
        quantization_segment_bytes(destination, table).take(4) == seq![0xFFu8, 0xDB, 0x00, 0x43],
        quantization_segment_bytes(destination, table)[4] == destination,
        forall|k: int| 0 <= k < 64 ==> #[trigger] quantization_segment_bytes(destination, table)[5 + k]
            == (table.divisor_at(ZIGZAG[k] as int) / 8) as u8,
{
    assert(quantization_segment_bytes(destination, table).take(4) =~= seq![0xFFu8, 0xDB, 0x00, 0x43]);
}

/// The per-component part of a scan header: two bytes per component, its id
/// and its DC table (high four bits) and AC table (low four bits).
#[verifier::spinoff_prover]
pub proof fn lemma_scan_component_bytes_layout(cs: Seq<&Component>)
    requires
        forall|i: int| 0 <= i < cs.len() ==> #[trigger] cs[i].dc_huffman_table < 16 && cs[i].ac_huffman_table < 16,
    ensures
        scan_component_bytes(cs).len() == 2 * cs.len(),
        forall|i: int| 0 <= i < cs.len() ==> {
            &&& scan_component_bytes(cs)[2 * i] == #[trigger] cs[i].id
            &&& scan_component_bytes(cs)[2 * i + 1] == cs[i].dc_huffman_table * 16 + cs[i].ac_huffman_table
        },
    decreases cs.len(),
{
    if cs.len() > 0 {
        let init = cs.drop_last();
        lemma_scan_component_bytes_layout(init);
        let c = cs.last();
        assert(c == cs[cs.len() - 1]);
        let dc = c.dc_huffman_table;
        let ac = c.ac_huffman_table;
        lemma_nibbles(dc, ac);
        let head = scan_component_bytes(init);
        let tail = seq![c.id, (dc << 4) | ac];
        assert(scan_component_bytes(cs) == head + tail);
        assert forall|i: int| 0 <= i < cs.len() implies {
            &&& scan_component_bytes(cs)[2 * i] == #[trigger] cs[i].id
            &&& scan_component_bytes(cs)[2 * i + 1] == cs[i].dc_huffman_table * 16 + cs[i].ac_huffman_table
        } by {
            if i < cs.len() - 1 {
                assert(cs[i] == init[i]);
                assert(head[2 * i] == init[i].id);
                assert(scan_component_bytes(cs)[2 * i] == head[2 * i]);
                assert(scan_component_bytes(cs)[2 * i + 1] == head[2 * i + 1]);
            } else {
                assert(scan_component_bytes(cs)[2 * i] == tail[0]);
                assert(scan_component_bytes(cs)[2 * i + 1] == tail[1]);
            }
        }
    }
}

/// The SOS segment (T.81 B.2.3): FF DA, the length 6 + 2 per component, the
/// number of components, two bytes per component, then the spectral
/// selection start and end (0 and 63 for a whole-block scan) and the
/// successive approximation byte 0.
pub proof fn lemma_scan_header_layout(cs: Seq<&Component>, spectral: Option<(u8, u8)>)
    requires
        cs.len() <= 4,
        forall|i: int| 0 <= i < cs.len() ==> #[trigger] cs[i].dc_huffman_table < 16 && cs[i].ac_huffman_table < 16,
    ensures
        scan_header_bytes(cs, spectral).len() == 8 + 2 * cs.len(),
        scan_header_bytes(cs, spectral)[0] == 0xFF,
        scan_header_bytes(cs, spectral)[1] == 0xDA,
        scan_header_bytes(cs, spectral)[2] * 256 + scan_header_bytes(cs, spectral)[3] == 6 + 2 * cs.len(),
        scan_header_bytes(cs, spectral)[4] == cs.len(),
        forall|i: int| 0 <= i < cs.len() ==> {
            &&& scan_header_bytes(cs, spectral)[5 + 2 * i] == #[trigger] cs[i].id
            &&& scan_header_bytes(cs, spectral)[6 + 2 * i] == cs[i].dc_huffman_table * 16 + cs[i].ac_huffman_table
        },
        scan_header_bytes(cs, spectral)[(5 + 2 * cs.len()) as int] == match spectral {
            Some(p) => p.0,
            None => 0u8,
        },
        scan_header_bytes(cs, spectral)[(6 + 2 * cs.len()) as int] == match spectral {
            Some(p) => p.1,
            None => 63u8,
        },
        scan_header_bytes(cs, spectral)[(7 + 2 * cs.len()) as int] == 0,
{
    lemma_scan_component_bytes_layout(cs);
    let h = scan_header_bytes(cs, spectral);
    assert forall|i: int| 0 <= i < cs.len() implies {
        &&& h[5 + 2 * i] == #[trigger] cs[i].id
        &&& h[6 + 2 * i] == cs[i].dc_huffman_table * 16 + cs[i].ac_huffman_table
    } by {
        assert(scan_component_bytes(cs)[2 * i] == cs[i].id);
        assert(scan_component_bytes(cs)[2 * i + 1] == cs[i].dc_huffman_table * 16 + cs[i].ac_huffman_table);
        assert(h[5 + 2 * i] == scan_component_bytes(cs)[2 * i]);
        assert(h[6 + 2 * i] == scan_component_bytes(cs)[2 * i + 1]);
    }
}

/// Writes the marker segments and the entropy-coded data of a JPEG file.
pub struct JfifWriter<W: BitStream> {
    pub(crate) w: W,
}

impl<W: BitStream> JfifWriter<W> {
    pub closed spec fn stream(&self) -> W {
        self.w
    }

    pub fn new(w: W) -> (r: Self)
        ensures
            r.stream() == w,
    {
        JfifWriter { w }
    }

    pub fn finalize_bit_buffer(&mut self) -> (r: Result<(), EncodingError>)
        requires
            old(self).stream().inv(),
        ensures
            W::infallible() ==> r is Ok,
            r is Ok ==> final(self).stream().inv() && final(self).stream().settled(),
            r is Ok ==> final(self).stream().tail() == Seq::<bool>::empty(),
            r is Ok ==> final(self).stream().out() == old(self).stream().out() + crate::coding::pack(
                old(self).stream().tail() + crate::coding::ones(7),
            ),
    {
        self.w.finalize_bit_buffer()
    }

    pub fn flush_bit_buffer(&mut self) -> (r: Result<(), EncodingError>)
        requires
            old(self).stream().inv(),
        ensures
            W::infallible() ==> r is Ok,
            r is Ok ==> final(self).stream().inv() && final(self).stream().settled(),
            r is Ok ==> final(self).stream().tail() == old(self).stream().tail(),
            r is Ok ==> final(self).stream().out() == old(self).stream().out(),
    {
        self.w.flush_bit_buffer()
    }

    pub fn write_bits(&mut self, value: u32, size: u8) -> (r: Result<(), EncodingError>)
        requires
            old(self).stream().inv(),
            size <= 32,
            (value as nat) < pow2(size as nat),
        ensures
            W::infallible() ==> r is Ok,
            r is Ok ==> wrote_bits(old(self).stream(), final(self).stream(), value_bits(value, size)),
    {
        self.w.write_bits(value, size)
    }

    pub fn write_marker(&mut self, marker: Marker) -> (r: Result<(), EncodingError>)
        requires
            old(self).stream().inv(),
            marker_valid(marker),
        ensures
            W::infallible() ==> r is Ok,
            r is Ok ==> wrote_bytes(old(self).stream(), final(self).stream(), marker_bytes(marker)),
    {
        let buf = [0xFF, marker.code()];
        let r = self.w.write(&buf);
        proof {
            assert(buf@ =~= marker_bytes(marker));
        }
        r
    }

    pub fn write_segment(&mut self, marker: Marker, data: &[u8]) -> (r: Result<(), EncodingError>)
        requires
            old(self).stream().inv(),
            marker_valid(marker),
            data@.len() <= 65534,
        ensures
            W::infallible() ==> r is Ok,
            r is Ok ==> wrote_bytes(
                old(self).stream(),
                final(self).stream(),
                segment_bytes(marker, data@),
            ),
    {
        let ghost s0 = self.w;
        self.write_marker(marker)?;
        let ghost s1 = self.w;
        // The length field counts itself; for 2^16 - 2 bytes of data it
        // wraps around to 0, as a u16 does.
        let n = data.len() as u32;
        assert(n <= 65534 ==> ((n + 2) as u16) as int == (n + 2) % 65536) by (bit_vector);
        let length: u16 = if n == 65534 { 0 } else { n as u16 + 2 };
        proof {
            assert(length == (data@.len() + 2) as u16);
        }
        self.w.write_u16(length)?;
        let ghost s2 = self.w;
        self.w.write(data)?;
        proof {
            lemma_wrote_bytes_trans(s0, s1, s2, marker_bytes(marker), be_bytes((data@.len() + 2) as u16));
            lemma_wrote_bytes_trans(s0, s2, self.w, marker_bytes(marker) + be_bytes((data@.len() + 2) as u16), data@);
        }
        Ok(())
    }

    pub fn write_header(&mut self, density: &PixelDensity) -> (r: Result<(), EncodingError>)
        requires
            old(self).stream().inv(),
        ensures
            W::infallible() ==> r is Ok,
            r is Ok ==> wrote_bytes(old(self).stream(), final(self).stream(), header_bytes(*density)),
    {
        let ghost s0 = self.w;
        self.write_marker(Marker::APP(0))?;
        let ghost s1 = self.w;
        self.w.write_u16(16)?;
        let ghost s2 = self.w;
        let jfif = [0x4Au8, 0x46, 0x49, 0x46, 0x00];
        self.w.write(&jfif)?;
        let ghost s3 = self.w;
        let version = [0x01u8, 0x02];
        self.w.write(&version)?;
        let ghost s4 = self.w;
        match density.unit {
            PixelDensityUnit::PixelAspectRatio => {
                self.w.write_u8(0x00)?;
            },
            PixelDensityUnit::Inches => {
                self.w.write_u8(0x01)?;
            },
            PixelDensityUnit::Centimeters => {
                self.w.write_u8(0x02)?;
            },
        }
        let ghost s5 = self.w;
        let (x, y) = density.density;
        self.w.write_u16(x)?;
        let ghost s6 = self.w;
        self.w.write_u16(y)?;
        let ghost s7 = self.w;
        let zero = [0x00u8, 0x00];
        let r = self.w.write(&zero);
        proof {
            if r is Ok {
                assert(jfif@ =~= seq![0x4Au8, 0x46, 0x49, 0x46, 0x00]);
                assert(version@ =~= seq![0x01u8, 0x02]);
                assert(zero@ =~= seq![0x00u8, 0x00]);
                let b1 = marker_bytes(Marker::APP(0));
                let b2 = b1 + be_bytes(16);
                let b3 = b2 + jfif@;
                let b4 = b3 + version@;
                let b5 = b4 + seq![unit_code(density.unit)];
                let b6 = b5 + be_bytes(x);
                let b7 = b6 + be_bytes(y);
                lemma_wrote_bytes_trans(s0, s1, s2, b1, be_bytes(16));
                lemma_wrote_bytes_trans(s0, s2, s3, b2, jfif@);
                lemma_wrote_bytes_trans(s0, s3, s4, b3, version@);
                lemma_wrote_bytes_trans(s0, s4, s5, b4, seq![unit_code(density.unit)]);
                lemma_wrote_bytes_trans(s0, s5, s6, b5, be_bytes(x));
                lemma_wrote_bytes_trans(s0, s6, s7, b6, be_bytes(y));
                lemma_wrote_bytes_trans(s0, s7, self.w, b7, zero@);
            }
        }
        r
    }

    /// Append huffman table segment
    ///
    /// - `class`: 0 for DC or 1 for AC
    /// - `dest`: 0 for luma or 1 for chroma tables
    ///
    /// Layout:
    /// ```txt
    /// |--------|---------------|--------------------------|--------------------|--------|
    /// | 0xFFC4 | 16 bit length | 4 bit class / 4 bit dest |  16 byte num codes | values |
    /// |--------|---------------|--------------------------|--------------------|--------|
    /// ```
    ///
    pub fn write_huffman_segment(
        &mut self,
        class: CodingClass,
        destination: u8,
        table: &HuffmanTable,
    ) -> (r: Result<(), EncodingError>)
        requires
            old(self).stream().inv(),
            destination < 4,
        ensures
            W::infallible() ==> r is Ok,
            r is Ok ==> wrote_bytes(
                old(self).stream(),
                final(self).stream(),
                huffman_segment_bytes(class, destination, *table),
            ),
    {
        let ghost s0 = self.w;
        self.write_marker(Marker::DHT)?;
        let ghost s1 = self.w;
        let values = table.values();
        self.w.write_u16(2 + 1 + 16 + values.len() as u16)?;
        let ghost s2 = self.w;
        self.w.write_u8((class.value() << 4) | destination)?;
        let ghost s3 = self.w;
        let length = table.length();
        self.w.write(length)?;
        let ghost s4 = self.w;
        self.w.write(values)?;
        proof {
            let b1 = marker_bytes(Marker::DHT);
            let b2 = b1 + be_bytes((19 + table.symbols().len()) as u16);
            let b3 = b2 + seq![((class.spec_value() << 4) | destination) as u8];
            let b4 = b3 + table.lengths();
            lemma_wrote_bytes_trans(s0, s1, s2, b1, be_bytes((19 + table.symbols().len()) as u16));
            lemma_wrote_bytes_trans(s0, s2, s3, b2, seq![((class.spec_value() << 4) | destination) as u8]);
            lemma_wrote_bytes_trans(s0, s3, s4, b3, table.lengths());
            lemma_wrote_bytes_trans(s0, s4, self.w, b4, table.symbols());
        }
        Ok(())
    }

    /// Append a quantization table
    ///
    /// - `precision`: 0 which means 1 byte per value.
    /// - `dest`: 0 for luma or 1 for chroma tables
    ///
    /// Layout:
    /// ```txt
    /// |--------|---------------|------------------------------|--------|--------|-----|--------|
    /// | 0xFFDB | 16 bit length | 4 bit precision / 4 bit dest | V(0,0) | V(0,1) | ... | V(7,7) |
    /// |--------|---------------|------------------------------|--------|--------|-----|--------|
    /// ```
    ///
    pub fn write_quantization_segment(
        &mut self,
        destination: u8,
        table: &QuantizationTable,
    ) -> (r: Result<(), EncodingError>)
        requires
            old(self).stream().inv(),
            destination < 4,
        ensures
            W::infallible() ==> r is Ok,
            r is Ok ==> wrote_bytes(
                old(self).stream(),
                final(self).stream(),
                quantization_segment_bytes(destination, *table),
            ),
    {
        let ghost s0 = self.w;
        self.write_marker(Marker::DQT)?;
        let ghost s1 = self.w;
        self.w.write_u16(2 + 1 + 64)?;
        let ghost s2 = self.w;
        self.w.write_u8(destination)?;
        let ghost s3 = self.w;
        proof {
            lemma_wrote_bytes_trans(s0, s1, s2, marker_bytes(Marker::DQT), be_bytes(67));
            lemma_wrote_bytes_trans(s0, s2, s3, marker_bytes(Marker::DQT) + be_bytes(67), seq![destination]);
            lemma_zigzag_bounds();
        }
        let ghost head = marker_bytes(Marker::DQT) + be_bytes(67) + seq![destination];
        let mut k: usize = 0;
        while k < 64
            invariant
                k <= 64,
                forall|i: int| 0 <= i < 64 ==> #[trigger] ZIGZAG[i] < 64,
                wrote_bytes(s0, self.w, head + zigzag_table_bytes(*table).take(k as int)),
            decreases 64 - k,
        {
            let ghost sk = self.w;
            let v = table.get(ZIGZAG[k] as usize);
            self.w.write_u8(v)?;
            proof {
                lemma_wrote_bytes_trans(s0, sk, self.w, head + zigzag_table_bytes(*table).take(k as int), seq![v]);
                assert(head + zigzag_table_bytes(*table).take(k as int) + seq![v] =~= head
                    + zigzag_table_bytes(*table).take(k + 1 as int));
            }
            k += 1;
        }
        proof {
            assert(zigzag_table_bytes(*table).take(64) =~= zigzag_table_bytes(*table));
        }
        Ok(())
    }

    pub fn write_dri(&mut self, restart_interval: u16) -> (r: Result<(), EncodingError>)
        requires
            old(self).stream().inv(),
        ensures
            W::infallible() ==> r is Ok,
            r is Ok ==> wrote_bytes(
                old(self).stream(),
                final(self).stream(),
                dri_bytes(restart_interval),
            ),
    {
        let ghost s0 = self.w;
        self.write_marker(Marker::DRI)?;
        let ghost s1 = self.w;
        self.w.write_u16(4)?;
        let ghost s2 = self.w;
        let r = self.w.write_u16(restart_interval);
        proof {
            if r is Ok {
                lemma_wrote_bytes_trans(s0, s1, s2, marker_bytes(Marker::DRI), be_bytes(4));
                lemma_wrote_bytes_trans(s0, s2, self.w, marker_bytes(Marker::DRI) + be_bytes(4), be_bytes(restart_interval));
            }
        }
        r
    }

    pub fn write_frame_header(
        &mut self,
        width: u16,
        height: u16,
        components: &[Component],
        progressive: bool,
    ) -> (r: Result<(), EncodingError>)
        requires
            old(self).stream().inv(),
            components@.len() <= 21842,
        ensures
            W::infallible() ==> r is Ok,
            r is Ok ==> wrote_bytes(
                old(self).stream(),
                final(self).stream(),
                frame_header_bytes(width, height, components@, progressive),
            ),
    {
        let ghost s0 = self.w;
        if progressive {
            self.write_marker(Marker::SOF(SOFType::ProgressiveDCT))?;
        } else {
            self.write_marker(Marker::SOF(SOFType::BaselineDCT))?;
        }
        let ghost m = marker_bytes(
            Marker::SOF(
                if progressive {
                    SOFType::ProgressiveDCT
                } else {
                    SOFType::BaselineDCT
                },
            ),
        );
        let ghost s1 = self.w;
        self.w.write_u16(2 + 1 + 2 + 2 + 1 + (components.len() as u16) * 3)?;
        let ghost s2 = self.w;
        // Precision
        self.w.write_u8(8)?;
        let ghost s3 = self.w;
        self.w.write_u16(height)?;
        let ghost s4 = self.w;
        self.w.write_u16(width)?;
        let ghost s5 = self.w;
        self.w.write_u8(components.len() as u8)?;
        let ghost s6 = self.w;
        let ghost head = m + be_bytes((8 + 3 * components@.len()) as u16) + seq![8u8] + be_bytes(
            height,
        ) + be_bytes(width) + seq![components@.len() as u8];
        proof {
            let b1 = m;
            let b2 = b1 + be_bytes((8 + 3 * components@.len()) as u16);
            let b3 = b2 + seq![8u8];
            let b4 = b3 + be_bytes(height);
            let b5 = b4 + be_bytes(width);
            lemma_wrote_bytes_trans(s0, s1, s2, b1, be_bytes((8 + 3 * components@.len()) as u16));
            lemma_wrote_bytes_trans(s0, s2, s3, b2, seq![8u8]);
            lemma_wrote_bytes_trans(s0, s3, s4, b3, be_bytes(height));
            lemma_wrote_bytes_trans(s0, s4, s5, b4, be_bytes(width));
            lemma_wrote_bytes_trans(s0, s5, s6, b5, seq![components@.len() as u8]);
            assert(components@.take(0) =~= Seq::<Component>::empty());
            assert(head + component_bytes(components@.take(0)) =~= head);
        }
        let mut i: usize = 0;
        while i < components.len()
            invariant
                i <= components@.len(),
                wrote_bytes(s0, self.w, head + component_bytes(components@.take(i as int))),
            decreases components.len() - i,
        {
            let component = &components[i];
            let ghost si = self.w;
            self.w.write_u8(component.id)?;
            let ghost sa = self.w;
            self.w.write_u8(
                (component.horizontal_sampling_factor << 4) | component.vertical_sampling_factor,
            )?;
            let ghost sb = self.w;
            self.w.write_u8(component.quantization_table)?;
            proof {
                let pre = head + component_bytes(components@.take(i as int));
                let c = components@[i as int];
                lemma_wrote_bytes_trans(s0, si, sa, pre, seq![c.id]);
                lemma_wrote_bytes_trans(s0, sa, sb, pre + seq![c.id], seq![(c.horizontal_sampling_factor << 4) | c.vertical_sampling_factor]);
                lemma_wrote_bytes_trans(s0, sb, self.w, pre + seq![c.id] + seq![(c.horizontal_sampling_factor << 4) | c.vertical_sampling_factor], seq![c.quantization_table]);
                assert(components@.take(i + 1 as int).drop_last() =~= components@.take(i as int));
                assert(pre + seq![c.id] + seq![(c.horizontal_sampling_factor << 4) | c.vertical_sampling_factor] + seq![c.quantization_table]
                    =~= head + component_bytes(components@.take(i + 1 as int)));
            }
            i += 1;
        }
        proof {
            assert(components@.take(i as int) =~= components@);
        }
        Ok(())
    }

    pub fn write_scan_header(
        &mut self,
        components: &[&Component],
        spectral: Option<(u8, u8)>,
    ) -> (r: Result<(), EncodingError>)
        requires
            old(self).stream().inv(),
            components@.len() <= 32764,
        ensures
            W::infallible() ==> r is Ok,
            r is Ok ==> wrote_bytes(
                old(self).stream(),
                final(self).stream(),
                scan_header_bytes(components@, spectral),
            ),
    {
        let ghost s0 = self.w;
        self.write_marker(Marker::SOS)?;
        let ghost s1 = self.w;
        self.w.write_u16(2 + 1 + (components.len() as u16) * 2 + 3)?;
        let ghost s2 = self.w;
        self.w.write_u8(components.len() as u8)?;
        let ghost s3 = self.w;
        let ghost head = marker_bytes(Marker::SOS) + be_bytes((6 + 2 * components@.len()) as u16)
            + seq![components@.len() as u8];
        proof {
            lemma_wrote_bytes_trans(s0, s1, s2, marker_bytes(Marker::SOS), be_bytes((6 + 2 * components@.len()) as u16));
            lemma_wrote_bytes_trans(s0, s2, s3, marker_bytes(Marker::SOS) + be_bytes((6 + 2 * components@.len()) as u16), seq![components@.len() as u8]);
            assert(components@.take(0) =~= Seq::<&Component>::empty());
            assert(head + scan_component_bytes(components@.take(0)) =~= head);
        }
        let mut i: usize = 0;
        while i < components.len()
            invariant
                i <= components@.len(),
                wrote_bytes(s0, self.w, head + scan_component_bytes(components@.take(i as int))),
            decreases components.len() - i,
        {
            let component = components[i];
            let ghost si = self.w;
            self.w.write_u8(component.id)?;
            let ghost sa = self.w;
            self.w.write_u8((component.dc_huffman_table << 4) | component.ac_huffman_table)?;
            proof {
                let pre = head + scan_component_bytes(components@.take(i as int));
                let c = components@[i as int];
                lemma_wrote_bytes_trans(s0, si, sa, pre, seq![c.id]);
                lemma_wrote_bytes_trans(s0, sa, self.w, pre + seq![c.id], seq![(c.dc_huffman_table << 4) | c.ac_huffman_table]);
                assert(components@.take(i + 1 as int).drop_last() =~= components@.take(i as int));
                assert(pre + seq![c.id] + seq![(c.dc_huffman_table << 4) | c.ac_huffman_table]
                    =~= head + scan_component_bytes(components@.take(i + 1 as int)));
            }
            i += 1;
        }
        proof {
            assert(components@.take(i as int) =~= components@);
        }
        let ghost s4 = self.w;
        let (spectral_start, spectral_end) = match spectral {
            Some(p) => p,
            None => (0, 63),
        };
        // Start of spectral or predictor selection
        self.w.write_u8(spectral_start)?;
        let ghost s5 = self.w;
        // End of spectral selection
        self.w.write_u8(spectral_end)?;
        let ghost s6 = self.w;
        // Successive approximation bit position high and low
        self.w.write_u8(0)?;
        proof {
            let pre = head + scan_component_bytes(components@);
            lemma_wrote_bytes_trans(s0, s4, s5, pre, seq![spectral_start]);
            lemma_wrote_bytes_trans(s0, s5, s6, pre + seq![spectral_start], seq![spectral_end]);
            lemma_wrote_bytes_trans(s0, s6, self.w, pre + seq![spectral_start] + seq![spectral_end], seq![0u8]);
            assert(pre + seq![spectral_start] + seq![spectral_end] + seq![0u8] =~= scan_header_bytes(components@, spectral));
        }
        Ok(())
    }

    #[inline]
    pub fn huffman_encode(&mut self, val: u8, table: &HuffmanTable) -> (r: Result<(), EncodingError>)
        requires
            old(self).stream().inv(),
        ensures
            W::infallible() ==> r is Ok,
            r is Ok ==> wrote_bits(old(self).stream(), final(self).stream(), code_bits(*table, val)),
    {
        let (size, code) = *table.get_for_value(val);
        self.w.write_bits(code as u32, size)
    }

    #[inline]
    pub fn huffman_encode_value(
        &mut self,
        size: u8,
        symbol: u8,
        value: u16,
        table: &HuffmanTable,
    ) -> (r: Result<(), EncodingError>)
        requires
            old(self).stream().inv(),
            size <= 15,
            (value as nat) < pow2(size as nat),
        ensures
            W::infallible() ==> r is Ok,
            r is Ok ==> wrote_bits(
                old(self).stream(),
                final(self).stream(),
                coded_value_bits(*table, symbol, size, value),
            ),
    {
        let (num_bits, code) = *table.get_for_value(symbol);
        let mut temp = value as u32;
        temp |= (code as u32) << size;
        let size2 = size + num_bits;
        proof {
            lemma_code_value_bits(code, num_bits, value, size, temp);
        }
        self.w.write_bits(temp, size2)
    }

    pub fn write_block(
        &mut self,
        block: &AlignedBlock,
        prev_dc: i16,
        dc_table: &HuffmanTable,
        ac_table: &HuffmanTable,
    ) -> (r: Result<(), EncodingError>)
        requires
            old(self).stream().inv(),
            block_codable(block.data, prev_dc),
        ensures
            W::infallible() ==> r is Ok,
            r is Ok ==> wrote_bits(
                old(self).stream(),
                final(self).stream(),
                block_bits(*dc_table, *ac_table, block.data, prev_dc),
            ),
    {
        let ghost s0 = self.w;
        self.write_dc(block.data[0], prev_dc, dc_table)?;
        let ghost s1 = self.w;
        let r = self.write_ac_block(block, 1, 64, ac_table);
        proof {
            if r is Ok {
                lemma_wrote_bits_trans(s0, s1, self.w, dc_bits(*dc_table, block.data[0], prev_dc), ac_bits(*ac_table, block.data@.subrange(1, 64), 0));
            }
        }
        r
    }

    pub fn write_dc(
        &mut self,
        value: i16,
        prev_dc: i16,
        dc_table: &HuffmanTable,
    ) -> (r: Result<(), EncodingError>)
        requires
            old(self).stream().inv(),
            codable(value - prev_dc),
        ensures
            W::infallible() ==> r is Ok,
            r is Ok ==> wrote_bits(old(self).stream(), final(self).stream(), dc_bits(*dc_table, value, prev_dc)),
    {
        let diff = value - prev_dc;
        let (size, value) = get_code(diff);
        proof {
            lemma_magnitude_fits(diff as int);
        }
        self.huffman_encode_value(size, size, value, dc_table)?;
        Ok(())
    }

    pub fn write_ac_block(
        &mut self,
        block: &AlignedBlock,
        start: usize,
        end: usize,
        ac_table: &HuffmanTable,
    ) -> (r: Result<(), EncodingError>)
        requires
            old(self).stream().inv(),
            start <= end <= 64,
            all_codable(block.data@.subrange(start as int, end as int)),
        ensures
            W::infallible() ==> r is Ok,
            r is Ok ==> wrote_bits(
                old(self).stream(),
                final(self).stream(),
                ac_bits(*ac_table, block.data@.subrange(start as int, end as int), 0),
            ),
    {
        self.write_ac_block_linear(block, start, end, ac_table)
    }

    #[inline]
    pub fn write_val_with_preceding_zeros(
        &mut self,
        value: i16,
        preceding_zeros: u8,
        ac_table: &HuffmanTable,
    ) -> (r: Result<(), EncodingError>)
        requires
            old(self).stream().inv(),
            preceding_zeros <= 15,
            codable(value as int),
        ensures
            W::infallible() ==> r is Ok,
            r is Ok ==> wrote_bits(
                old(self).stream(),
                final(self).stream(),
                coefficient_bits(*ac_table, preceding_zeros as nat, value),
            ),
    {
        let (size, value2) = get_code(value);
        let symbol = (preceding_zeros << 4) | size;
        proof {
            lemma_magnitude_fits(value as int);
            lemma_symbol(preceding_zeros, size);
        }
        self.huffman_encode_value(size, symbol, value2, ac_table)
    }

    pub fn write_ac_block_linear(
        &mut self,
        block: &AlignedBlock,
        start: usize,
        end: usize,
        ac_table: &HuffmanTable,
    ) -> (r: Result<(), EncodingError>)
        requires
            old(self).stream().inv(),
            start <= end <= 64,
            all_codable(block.data@.subrange(start as int, end as int)),
        ensures
            W::infallible() ==> r is Ok,
            r is Ok ==> wrote_bits(
                old(self).stream(),
                final(self).stream(),
                ac_bits(*ac_table, block.data@.subrange(start as int, end as int), 0),
            ),
    {
        let ghost s0 = self.w;
        let ghost coefs = block.data@.subrange(start as int, end as int);
        let ghost total = ac_bits(*ac_table, coefs, 0);
        let ghost emitted = Seq::<bool>::empty();
        proof {
            lemma_wrote_nothing(s0);
            assert(emitted + ac_bits(*ac_table, block.data@.subrange(start as int, end as int), 0) =~= total);
        }
        let mut zero_run: i32 = 0;
        let mut i: usize = start;
        while i < end
            invariant
                start <= i <= end <= 64,
                0 <= zero_run <= i - start,
                coefs == block.data@.subrange(start as int, end as int),
                all_codable(coefs),
                wrote_bits(s0, self.w, emitted),
                emitted + ac_bits(*ac_table, block.data@.subrange(i as int, end as int), zero_run as nat) == total,
            decreases end - i,
        {
            let value = block.data[i];
            let ghost rest = block.data@.subrange(i + 1 as int, end as int);
            proof {
                assert(block.data@.subrange(i as int, end as int).drop_first() =~= rest);
                assert(block.data@.subrange(i as int, end as int)[0] == value);
            }
            if value == 0 {
                zero_run += 1;
            } else {
                proof {
                    assert(coefs[i - start] == value);
                }
                let ghost zr0 = zero_run as nat;
                while zero_run > 15
                    invariant
                        0 <= zero_run <= zr0,
                        zr0 % 16 == (zero_run as nat) % 16,
                        wrote_bits(s0, self.w, emitted),
                        emitted + repeat(code_bits(*ac_table, 0xF0), (zero_run / 16) as nat)
                            + coefficient_bits(*ac_table, zr0 % 16, value) + ac_bits(*ac_table, rest, 0) == total,
                    decreases zero_run,
                {
                    let ghost si = self.w;
                    self.huffman_encode(0xF0, ac_table)?;
                    proof {
                        lemma_wrote_bits_trans(s0, si, self.w, emitted, code_bits(*ac_table, 0xF0));
                        let f = code_bits(*ac_table, 0xF0);
                        assert(repeat(f, (zero_run / 16) as nat) == f + repeat(f, ((zero_run - 16) / 16) as nat));
                        emitted = emitted + f;
                        assert(emitted + repeat(f, ((zero_run - 16) / 16) as nat)
                            + coefficient_bits(*ac_table, zr0 % 16, value) + ac_bits(*ac_table, rest, 0) =~= total);
                    }
                    zero_run -= 16;
                }
                let ghost sv = self.w;
                self.write_val_with_preceding_zeros(value, zero_run as u8, ac_table)?;
                proof {
                    lemma_wrote_bits_trans(s0, sv, self.w, emitted, coefficient_bits(*ac_table, zr0 % 16, value));
                    assert(repeat(code_bits(*ac_table, 0xF0), 0) =~= Seq::<bool>::empty());
                    emitted = emitted + coefficient_bits(*ac_table, zr0 % 16, value);
                    assert(emitted + ac_bits(*ac_table, rest, 0) =~= total);
                }
                zero_run = 0;
            }
            i += 1;
        }
        if zero_run > 0 {
            let ghost se = self.w;
            self.huffman_encode(0x00, ac_table)?;
            proof {
                lemma_wrote_bits_trans(s0, se, self.w, emitted, code_bits(*ac_table, 0x00));
                assert(emitted + code_bits(*ac_table, 0x00) =~= total);
            }
        } else {
            proof {
                assert(emitted + Seq::<bool>::empty() =~= total);
                assert(emitted =~= total);
            }
        }
        Ok(())
    }
}


/// A code followed by `size` value bits is written as one value of `size + num_bits` bits.
pub proof fn lemma_code_value_bits(code: u16, num_bits: u8, value: u16, size: u8, temp: u32)
    requires
        entry_wf((num_bits, code)),
        size <= 15,
        (value as nat) < pow2(size as nat),
        temp == (value as u32) | ((code as u32) << size),
    ensures
        size + num_bits <= 31,
        (temp as nat) < pow2((size + num_bits) as nat),
        value_bits(temp, (size + num_bits) as u8) == bits_of(code as u64, num_bits as nat) + bits_of(
            value as u64,
            size as nat,
        ),
{
    let c = code as u64;
    let v = value as u64;
    let s = size as u64;
    let nb = num_bits as u64;
    lemma_shr_zero_iff(c, nb);
    lemma_shr_zero_iff(v, s);
    assert(c >> nb == 0 && v >> s == 0 && s <= 15 && nb <= 16 && temp == (value as u32) | ((code as u32)
        << size) && c == code as u64 && v == value as u64 && s == size as u64 ==> temp as u64 == (c
        << s) | v && (temp as u64) >> ((s + nb) as u64) == 0) by (bit_vector);
    lemma_shr_zero_iff(temp as u64, (s + nb) as u64);
    lemma_concat_shift(c, num_bits as nat, v, s);
}

/// The magnitude bits of a coefficient fit in its category.
pub proof fn lemma_magnitude_fits(v: int)
    requires
        codable(v),
    ensures
        magnitude_bits(v) < pow2(category(abs(v))),
        category(abs(v)) <= 14,
{
    vstd::arithmetic::power2::lemma2_to64();
    crate::coding::lemma_category_bounds(abs(v));
    crate::coding::lemma_category_le(abs(v), 14);
}

/// `(zeros << 4) | size` is `zeros * 16 + size`.
pub proof fn lemma_symbol(zeros: u8, size: u8)
    requires
        zeros <= 15,
        size <= 15,
    ensures
        ((zeros << 4) | size) as int == zeros * 16 + size,
{
    assert(zeros <= 15 && size <= 15 ==> ((zeros << 4u8) | size) as int == zeros * 16 + size)
        by (bit_vector);
}

} // verus!

