use vstd::prelude::*;
use crate::encoder::AlignedBlock;
use crate::writer::{ZIGZAG, lemma_zigzag_bounds};

verus! {

/// The luma quantization table of JPEG Annex K.1, in natural order.
pub const DEFAULT_LUMA_TABLE: [u16; 64] = [
    16, 11, 10, 16, 24, 40, 51, 61, 12, 12, 14, 19, 26, 58, 60, 55, 14, 13, 16, 24, 40, 57, 69, 56,
    14, 17, 22, 29, 51, 87, 80, 62, 18, 22, 37, 56, 68, 109, 103, 77, 24, 35, 55, 64, 81, 104, 113,
    92, 49, 64, 78, 87, 103, 121, 120, 101, 72, 92, 95, 98, 112, 100, 103, 99,
];

/// The chroma quantization table of JPEG Annex K.1, in natural order.
pub const DEFAULT_CHROMA_TABLE: [u16; 64] = [
    17, 18, 24, 47, 99, 99, 99, 99, 18, 21, 26, 66, 99, 99, 99, 99, 24, 26, 56, 99, 99, 99, 99, 99,
    47, 66, 99, 99, 99, 99, 99, 99, 99, 99, 99, 99, 99, 99, 99, 99, 99, 99, 99, 99, 99, 99, 99, 99,
    99, 99, 99, 99, 99, 99, 99, 99, 99, 99, 99, 99, 99, 99, 99, 99,
];

/// The same value for every coefficient.
pub const FLAT_TABLE: [u16; 64] = [
    16, 16, 16, 16, 16, 16, 16, 16, 16, 16, 16, 16, 16, 16, 16, 16, 16, 16, 16, 16, 16, 16, 16, 16, 16, 16, 16, 16, 16, 16, 16, 16, 16, 16, 16, 16, 16, 16, 16, 16, 16, 16, 16, 16, 16, 16, 16, 16, 16, 16, 16, 16, 16, 16, 16, 16, 16, 16, 16, 16, 16, 16, 16, 16,
];

/// # Quantization table used for encoding
#[derive(Clone, Debug)]
pub enum QuantizationTableType {
    /// Sample quantization tables given in Annex K (Clause K.1) of Recommendation ITU-T T.81 (1992) | ISO/IEC 10918-1:1994.
    Default,
    /// Flat
    Flat,
    /// A user supplied quantization table, in natural order.
    Custom(Box<[u16; 64]>),
}

/// The base table of a table type.
pub open spec fn base_table(t: QuantizationTableType, luma: bool) -> [u16; 64] {
    match t {
        QuantizationTableType::Default => if luma {
            DEFAULT_LUMA_TABLE
        } else {
            DEFAULT_CHROMA_TABLE
        },
        QuantizationTableType::Flat => FLAT_TABLE,
        QuantizationTableType::Custom(table) => *table,
    }
}

pub open spec fn clamp(v: int, lo: int, hi: int) -> int {
    if v < lo {
        lo
    } else if v > hi {
        hi
    } else {
        v
    }
}

/// The IJG scale factor (in percent) of a quality setting.
pub open spec fn quality_scale(quality: u8) -> int {
    let q = clamp(quality as int, 1, 100);
    if q < 50 {
        5000int / q
    } else {
        200 - q * 2
    }
}

/// The divisor used for a coefficient: the scaled table value, times 8
/// because the DCT output is scaled by 8.
pub open spec fn divisor(t: QuantizationTableType, quality: u8, luma: bool, i: int) -> int {
    match t {
        QuantizationTableType::Custom(table) => clamp(table[i] as int, 1, 2048) * 8,
        _ => clamp((base_table(t, luma)[i] * quality_scale(quality) + 50) / 100, 1, 255) * 8,
    }
}

/// A coefficient divided (rounding to nearest) by the divisor `32768 / r`,
/// computed as a multiplication by the reciprocal `r` with rounding term `c`.
pub open spec fn quantize_value(v: i16, r: i32, c: i32) -> i16 {
    let m = ((if v < 0 { -(v as int) } else { v as int }) + c) * r / 32768;
    (if v < 0 { -m } else { m }) as i16
}

/// A quantization table: the divisors in natural order, and their
/// reciprocals and rounding terms in zig-zag order.
pub struct QuantizationTable {
    table: [u16; 64],
    reciprocals: [i32; 64],
    corrections: [i32; 64],
}

impl QuantizationTable {
    #[verifier::type_invariant]
    spec fn wf(self) -> bool {
        forall|i: int|
            0 <= i < 64 ==> {
                &&& 8 <= #[trigger] self.table[i] <= 16384
                &&& self.reciprocals[i] == 32768int / (self.table[ZIGZAG[i] as int] as int)
                &&& self.corrections[i] == self.table[ZIGZAG[i] as int] / 2
            }
    }

    /// The divisor of the coefficient at natural index `i`.
    pub closed spec fn divisor_at(&self, i: int) -> int {
        self.table[i] as int
    }

    /// The reciprocal used for the coefficient at zig-zag index `k`.
    pub closed spec fn reciprocal(&self, k: int) -> i32 {
        self.reciprocals[k]
    }

    /// The rounding term used for the coefficient at zig-zag index `k`.
    pub closed spec fn correction(&self, k: int) -> i32 {
        self.corrections[k]
    }

    pub fn new_with_quality(
        table: &QuantizationTableType,
        quality: u8,
        luma: bool,
    ) -> (t: QuantizationTable)
        ensures
            forall|i: int| 0 <= i < 64 ==> #[trigger] t.divisor_at(i) == divisor(*table, quality, luma, i),
            table_in_range(t),
            table_consistent(t),
    {
        let mut q_table = [8u16;64];
        match table {
            QuantizationTableType::Custom(values) => {
                let mut i: usize = 0;
                while i < 64
                    invariant
                        i <= 64,
                        *table == QuantizationTableType::Custom(*values),
                        forall|j: int| 0 <= j < i ==> #[trigger] q_table[j] as int == divisor(*table, quality, luma, j),
                    decreases 64 - i,
                {
                    let v = values[i];
                    let v = if v < 1 { 1 } else if v > 2048 { 2048 } else { v };
                    q_table[i] = v << 3;
                    proof {
                        assert(1 <= v <= 2048 ==> (v << 3u16) as int == v * 8) by (bit_vector);
                    }
                    i += 1;
                }
            },
            _ => {
                let base: [u16; 64] = if luma { table_luma(table) } else { table_chroma(table) };
                let q: u32 = if quality < 1 { 1 } else if quality > 100 { 100 } else { quality as u32 };
                let scale: u32 = if q < 50 { 5000 / q } else { 200 - q * 2 };
                let mut i: usize = 0;
                while i < 64
                    invariant
                        i <= 64,
                        base == base_table(*table, luma),
                        !(*table is Custom),
                        scale as int == quality_scale(quality),
                        scale <= 5000,
                        forall|j: int| 0 <= j < i ==> #[trigger] q_table[j] as int == divisor(*table, quality, luma, j),
                    decreases 64 - i,
                {
                    let v = base[i] as u32;
                    proof {
                        assert(v * scale <= 65535 * 5000) by (nonlinear_arith)
                            requires
                                v <= 65535,
                                scale <= 5000,
                        ;
                    }
                    let v = (v * scale + 50) / 100;
                    let v = if v < 1 { 1 } else if v > 255 { 255 } else { v as u16 };
                    // Table values are premultiplied with 8 because dct is scaled by 8
                    q_table[i] = v << 3;
                    proof {
                        assert(1 <= v <= 255 ==> (v << 3u16) as int == v * 8) by (bit_vector);
                    }
                    i += 1;
                }
            },
        }
        proof {
            assert forall|i: int| 0 <= i < 64 implies 8 <= #[trigger] q_table[i] <= 16384 by {
                assert(q_table[i] as int == divisor(*table, quality, luma, i));
            }
            lemma_zigzag_bounds();
        }
        let mut reciprocals = [0i32;64];
        let mut corrections = [0i32;64];
        let mut k: usize = 0;
        while k < 64
            invariant
                k <= 64,
                forall|i: int| 0 <= i < 64 ==> 8 <= #[trigger] q_table[i] <= 16384,
                forall|i: int| 0 <= i < 64 ==> #[trigger] ZIGZAG[i] < 64,
                forall|j: int|
                    0 <= j < k ==> {
                        &&& #[trigger] reciprocals[j] == 32768int / (q_table[ZIGZAG[j] as int] as int)
                        &&& corrections[j] == q_table[ZIGZAG[j] as int] / 2
                        &&& 1 <= reciprocals[j] <= 4096
                        &&& 4 <= corrections[j] <= 8192
                    },
            decreases 64 - k,
        {
            let d = q_table[ZIGZAG[k] as usize] as i32;
            proof {
                assert(8 <= d <= 16384);
            }
            let r = 32768 / d;
            let c = d / 2;
            assert(1 <= 32768int / (d as int) <= 4096) by (nonlinear_arith)
                requires
                    8 <= d <= 16384,
            ;
            reciprocals[k] = r;
            corrections[k] = c;
            proof {
                assert(reciprocals[k as int] == 32768int / (q_table[ZIGZAG[k as int] as int] as int));
                assert(corrections[k as int] == q_table[ZIGZAG[k as int] as int] / 2);
            }
            k += 1;
        }
        QuantizationTable { table: q_table, reciprocals, corrections }
    }

    /// The table value (divisor / 8) at natural index `index`, as written to the DQT segment.
    pub fn get(&self, index: usize) -> (v: u8)
        requires
            index < 64,
        ensures
            v == (self.divisor_at(index as int) / 8) as u8,
    {
        let t = self.table[index];
        proof {
            assert(t >> 3u16 == t / 8) by (bit_vector);
        }
        (t >> 3) as u8
    }

    pub fn reciprocal_at(&self, k: usize) -> (r: i32)
        requires
            k < 64,
        ensures
            r == self.reciprocal(k as int),
            1 <= r <= 4096,
    {
        proof {
            use_type_invariant(self);
            lemma_zigzag_bounds();
            let d = self.table[ZIGZAG[k as int] as int] as int;
            assert(8 <= d <= 16384);
            assert(1 <= 32768int / d <= 4096) by (nonlinear_arith)
                requires
                    8 <= d <= 16384,
            ;
        }
        self.reciprocals[k]
    }

    pub fn correction_at(&self, k: usize) -> (c: i32)
        requires
            k < 64,
        ensures
            c == self.correction(k as int),
            4 <= c <= 8192,
    {
        proof {
            use_type_invariant(self);
            lemma_zigzag_bounds();
            assert(8 <= self.table[ZIGZAG[k as int] as int] <= 16384);
        }
        self.corrections[k]
    }
}

fn table_luma(t: &QuantizationTableType) -> (r: [u16; 64])
    requires
        !(*t is Custom),
    ensures
        r == base_table(*t, true),
{
    match t {
        QuantizationTableType::Default => DEFAULT_LUMA_TABLE,
        _ => FLAT_TABLE,
    }
}

fn table_chroma(t: &QuantizationTableType) -> (r: [u16; 64])
    requires
        !(*t is Custom),
    ensures
        r == base_table(*t, false),
{
    match t {
        QuantizationTableType::Default => DEFAULT_CHROMA_TABLE,
        _ => FLAT_TABLE,
    }
}

/// The reciprocal and rounding term of each coefficient are those of its divisor.
pub open spec fn table_consistent(t: QuantizationTable) -> bool {
    forall|k: int|
        0 <= k < 64 ==> #[trigger] t.reciprocal(k) == 32768int / t.divisor_at(ZIGZAG[k] as int) && t.correction(k)
            == t.divisor_at(ZIGZAG[k] as int) / 2
}

/// A consistent table is determined by its divisors.
pub proof fn lemma_table_determined(a: QuantizationTable, b: QuantizationTable)
    requires
        forall|i: int| 0 <= i < 64 ==> #[trigger] a.divisor_at(i) == b.divisor_at(i),
        table_consistent(a),
        table_consistent(b),
    ensures
        a == b,
{
    assert(a.table =~= b.table) by {
        assert forall|i: int| 0 <= i < 64 implies a.table[i] == b.table[i] by {
            assert(a.divisor_at(i) == b.divisor_at(i));
        }
    }
    assert(a.reciprocals =~= b.reciprocals) by {
        assert forall|k: int| 0 <= k < 64 implies a.reciprocals[k] == b.reciprocals[k] by {
            lemma_zigzag_bounds();
            assert(a.reciprocal(k) == b.reciprocal(k)) by {
                assert(a.divisor_at(ZIGZAG[k] as int) == b.divisor_at(ZIGZAG[k] as int));
            }
        }
    }
    assert(a.corrections =~= b.corrections) by {
        assert forall|k: int| 0 <= k < 64 implies a.corrections[k] == b.corrections[k] by {
            lemma_zigzag_bounds();
            assert(a.correction(k) == b.correction(k)) by {
                assert(a.divisor_at(ZIGZAG[k] as int) == b.divisor_at(ZIGZAG[k] as int));
                assert(a.reciprocal(k) == 32768int / a.divisor_at(ZIGZAG[k] as int));
                assert(b.reciprocal(k) == 32768int / b.divisor_at(ZIGZAG[k] as int));
            }
        }
    }
}

/// The reciprocals and rounding terms of a table stay within the bounds
/// that its divisors (8..=16384) give them.
pub open spec fn table_in_range(t: QuantizationTable) -> bool {
    forall|k: int| 0 <= k < 64 ==> 1 <= #[trigger] t.reciprocal(k) <= 4096 && 4 <= t.correction(k) <= 8192
}

/// A quantized coefficient has at most 13 magnitude bits.
pub proof fn lemma_quantize_value_bounds(v: i16, r: i32, c: i32)
    requires
        1 <= r <= 4096,
        0 <= c <= 8192,
    ensures
        -5120 <= quantize_value(v, r, c) <= 5120,
{
    let a: int = if v < 0 { -(v as int) } else { v as int };
    assert(0 <= (a + c) * r <= 40960 * 4096) by (nonlinear_arith)
        requires
            0 <= a <= 32768,
            0 <= c <= 8192,
            1 <= r <= 4096,
    ;
}

/// Quantizes one coefficient.
pub fn quantize(value: i16, reciprocal: i32, correction: i32) -> (q: i16)
    requires
        1 <= reciprocal <= 4096,
        0 <= correction <= 8192,
    ensures
        q == quantize_value(value, reciprocal, correction),
        -5120 <= q <= 5120,
{
    let v = value as i32;
    let a: i32 = if v < 0 { -v } else { v };
    proof {
        assert(0 <= (a + correction) * reciprocal <= 40960 * 4096) by (nonlinear_arith)
            requires
                0 <= a <= 32768,
                0 <= correction <= 8192,
                1 <= reciprocal <= 4096,
        ;
    }
    let mut product: i32 = (a + correction) * reciprocal;
    proof {
        assert(product >= 0 ==> product >> 15 == product / 32768) by (bit_vector);
    }
    product = product >> 15;
    let result = if v < 0 { -product } else { product };
    result as i16
}

/// Quantizes a block, writing the coefficients in zig-zag order.
pub trait BlockQuantizer {
    fn quantize_block(block: &AlignedBlock, q_block: &mut AlignedBlock, table: &QuantizationTable)
        ensures
            forall|k: int|
                0 <= k < 64 ==> #[trigger] final(q_block).data[k] == quantize_value(
                    block.data[ZIGZAG[k] as int],
                    table.reciprocal(k),
                    table.correction(k),
                ),
    ;
}

pub struct DefaultBlockQuantizer;

impl BlockQuantizer for DefaultBlockQuantizer {
    fn quantize_block(block: &AlignedBlock, q_block: &mut AlignedBlock, table: &QuantizationTable) {
        proof {
            lemma_zigzag_bounds();
        }
        let mut k: usize = 0;
        while k < 64
            invariant
                k <= 64,
                forall|i: int| 0 <= i < 64 ==> #[trigger] ZIGZAG[i] < 64,
                forall|j: int|
                    0 <= j < k ==> #[trigger] q_block.data[j] == quantize_value(
                        block.data[ZIGZAG[j] as int],
                        table.reciprocal(j),
                        table.correction(j),
                    ),
            decreases 64 - k,
        {
            let z = ZIGZAG[k] as usize;
            let q = quantize(block.data[z], table.reciprocal_at(k), table.correction_at(k));
            q_block.data[k] = q;
            k += 1;
        }
    }
}

} // verus!
