use vstd::prelude::*;
use vstd::std_specs::bits::{u16_leading_zeros, axiom_u16_leading_zeros};
use crate::EncodingError;
use crate::bit_stream::{BitStream, wrote_bits, lemma_wrote_bits_trans, lemma_wrote_nothing};
use crate::coding::{codable, repeat};
use crate::encoder::AlignedBlock;
use crate::huffman::{HuffmanTable, code_bits, coefficient_bits, dc_bits, ac_bits, all_codable,
    block_codable, block_bits};
use crate::huffman::encoder::{DefaultHuffmanEncoder, HuffmanEncoder};
use crate::writer::JfifWriter;

verus! {

/// An AC coder that finds the non-zero coefficients of sixteen-coefficient
/// chunks from a bit mask.
pub struct SimdHuffmanEncoder;

/// Lane `j` of a mask whose bit 15 stands for lane 0.
pub open spec fn lane_bit(mask: u16, j: int) -> bool {
    (mask >> ((15 - j) as u16)) & 1 == 1
}

proof fn lemma_lane_set(old_mask: u16, j: int, k: int)
    requires
        0 <= j < 16,
        0 <= k < 16,
    ensures
        lane_bit(old_mask | ((1u16 << 15u16) >> (j as u16)), k) == (lane_bit(old_mask, k) || k == j),
{
    let jj = j as u16;
    let kk = (15 - k) as u16;
    assert(kk < 16 && jj < 16 ==> (((old_mask | ((1u16 << 15u16) >> jj)) >> kk) & 1 == 1 <==> (((
    old_mask >> kk) & 1 == 1) || kk + jj == 15))) by (bit_vector);
}

proof fn lemma_lane_clear(old_mask: u16, j: int, k: int)
    requires
        0 <= j < 16,
        0 <= k < 16,
    ensures
        lane_bit(old_mask & !((1u16 << 15u16) >> (j as u16)), k) == (lane_bit(old_mask, k) && k != j),
{
    let jj = j as u16;
    let kk = (15 - k) as u16;
    assert(kk < 16 && jj < 16 ==> (((old_mask & !((1u16 << 15u16) >> jj)) >> kk) & 1 == 1 <==> (((
    old_mask >> kk) & 1 == 1) && kk + jj != 15))) by (bit_vector);
}

proof fn lemma_lanes_zero(m: u16)
    ensures
        (forall|k: int| 0 <= k < 16 ==> !#[trigger] lane_bit(m, k)) <==> m == 0,
{
    if forall|k: int| 0 <= k < 16 ==> !#[trigger] lane_bit(m, k) {
        assert(!lane_bit(m, 0));
        assert(!lane_bit(m, 1));
        assert(!lane_bit(m, 2));
        assert(!lane_bit(m, 3));
        assert(!lane_bit(m, 4));
        assert(!lane_bit(m, 5));
        assert(!lane_bit(m, 6));
        assert(!lane_bit(m, 7));
        assert(!lane_bit(m, 8));
        assert(!lane_bit(m, 9));
        assert(!lane_bit(m, 10));
        assert(!lane_bit(m, 11));
        assert(!lane_bit(m, 12));
        assert(!lane_bit(m, 13));
        assert(!lane_bit(m, 14));
        assert(!lane_bit(m, 15));
        assert((m >> 15u16) & 1 != 1 && (m >> 14u16) & 1 != 1 && (m >> 13u16) & 1 != 1 && (m >> 12u16)
            & 1 != 1 && (m >> 11u16) & 1 != 1 && (m >> 10u16) & 1 != 1 && (m >> 9u16) & 1 != 1 && (m
            >> 8u16) & 1 != 1 && (m >> 7u16) & 1 != 1 && (m >> 6u16) & 1 != 1 && (m >> 5u16) & 1 != 1
            && (m >> 4u16) & 1 != 1 && (m >> 3u16) & 1 != 1 && (m >> 2u16) & 1 != 1 && (m >> 1u16) & 1
            != 1 && (m >> 0u16) & 1 != 1 ==> m == 0) by (bit_vector);
    }
    if m == 0 {
        assert forall|k: int| 0 <= k < 16 implies !#[trigger] lane_bit(m, k) by {
            let kk = (15 - k) as u16;
            assert(m == 0 ==> (m >> kk) & 1 == 0) by (bit_vector);
        }
    }
}

/// The leading zeros of a non-zero mask give its first set lane.
proof fn lemma_leading_lane(m: u16)
    requires
        m != 0,
    ensures
        u16_leading_zeros(m) < 16,
        lane_bit(m, u16_leading_zeros(m) as int),
        forall|k: int| 0 <= k < u16_leading_zeros(m) ==> !#[trigger] lane_bit(m, k),
{
    axiom_u16_leading_zeros(m);
    let l = u16_leading_zeros(m) as u16;
    let sh = (15 - l) as u16;
    assert((m >> sh) & 1u16 != 0 ==> (m >> sh) & 1 == 1) by (bit_vector);
    assert forall|k: int| 0 <= k < l implies !#[trigger] lane_bit(m, k) by {
        let jj = (15 - k) as u16;
        assert((m >> jj) & 1u16 == 0u16);
    }
}

/// Zero coefficients only lengthen the pending run.
pub proof fn lemma_ac_zeros(t: HuffmanTable, coefs: Seq<i16>, zr: nat, k: nat)
    requires
        k <= coefs.len(),
        forall|i: int| 0 <= i < k ==> coefs[i] == 0,
    ensures
        ac_bits(t, coefs, zr) == ac_bits(t, coefs.skip(k as int), zr + k),
    decreases k,
{
    if k > 0 {
        assert(coefs.drop_first().skip((k - 1) as int) =~= coefs.skip(k as int));
        lemma_ac_zeros(t, coefs.drop_first(), zr + 1, (k - 1) as nat);
    } else {
        assert(coefs.skip(0) =~= coefs);
    }
}

/// The number of zeros at the end of `s`.
pub open spec fn trailing_zeros(s: Seq<i16>) -> nat
    decreases s.len(),
{
    if s.len() == 0 {
        0
    } else if s.last() == 0 {
        trailing_zeros(s.drop_last()) + 1
    } else {
        0
    }
}

impl SimdHuffmanEncoder {
    /// Codes the coefficients 1..N, which hold fewer than sixteen zeros in a row,
    /// and returns the number of zeros after the last non-zero one.
    pub fn write_ac_block_finish_first_n<const N: usize, W: BitStream>(
        writer: &mut JfifWriter<W>,
        block: &AlignedBlock,
        ac_table: &HuffmanTable,
    ) -> (r: Result<u8, EncodingError>)
        requires
            old(writer).stream().inv(),
            1 <= N <= 16,
            all_codable(block.data@.subrange(1, 64)),
        ensures
            W::infallible() ==> r is Ok,
            r matches Ok(z) ==> z == trailing_zeros(block.data@.subrange(1, N as int)),
            r matches Ok(z) ==> z < N && exists|e: Seq<bool>|
                wrote_bits(old(writer).stream(), final(writer).stream(), e) && e + ac_bits(
                    *ac_table,
                    block.data@.subrange(N as int, 64),
                    z as nat,
                ) == ac_bits(*ac_table, block.data@.subrange(1, 64), 0),
    {
        let ghost s0 = writer.stream();
        let ghost total = ac_bits(*ac_table, block.data@.subrange(1, 64), 0);
        let ghost emitted = Seq::<bool>::empty();
        proof {
            lemma_wrote_nothing(s0);
            assert(emitted + total =~= total);
        }
        let mut zero_run: u8 = 0;
        let mut i: usize = 1;
        while i < N
            invariant
                1 <= i <= N <= 16,
                zero_run < i,
                all_codable(block.data@.subrange(1, 64)),
                wrote_bits(s0, writer.stream(), emitted),
                emitted + ac_bits(*ac_table, block.data@.subrange(i as int, 64), zero_run as nat) == total,
                zero_run == trailing_zeros(block.data@.subrange(1, i as int)),
            decreases N - i,
        {
            let value = block.data[i];
            proof {
                assert(block.data@.subrange(i as int, 64).drop_first() =~= block.data@.subrange(i + 1 as int, 64));
                assert(block.data@.subrange(1, 64)[i - 1] == value);
                assert(block.data@.subrange(1, i + 1 as int).drop_last() =~= block.data@.subrange(1, i as int));
                assert(block.data@.subrange(1, i + 1 as int).last() == value);
            }
            if value == 0 {
                zero_run += 1;
            } else {
                let ghost sv = writer.stream();
                DefaultHuffmanEncoder::write_val_with_preceding_zeros(writer, value, zero_run, ac_table)?;
                proof {
                    lemma_wrote_bits_trans(s0, sv, writer.stream(), emitted, coefficient_bits(*ac_table, zero_run as nat, value));
                    assert(repeat(code_bits(*ac_table, 0xF0), 0) =~= Seq::<bool>::empty());
                    assert((zero_run as nat) / 16 == 0);
                    emitted = emitted + coefficient_bits(*ac_table, zero_run as nat, value);
                    assert(emitted + ac_bits(*ac_table, block.data@.subrange(i + 1 as int, 64), 0) =~= total);
                }
                zero_run = 0;
            }
            i += 1;
        }
        Ok(zero_run)
    }

    #[verifier::rlimit(50)]
    pub fn write_ac_block_simd<W: BitStream>(
        writer: &mut JfifWriter<W>,
        block: &AlignedBlock,
        start: usize,
        end: usize,
        ac_table: &HuffmanTable,
    ) -> (r: Result<(), EncodingError>)
        requires
            old(writer).stream().inv(),
            start == 1,
            end == 64,
            all_codable(block.data@.subrange(1, 64)),
        ensures
            W::infallible() ==> r is Ok,
            r is Ok ==> wrote_bits(
                old(writer).stream(),
                final(writer).stream(),
                ac_bits(*ac_table, block.data@.subrange(1, 64), 0),
            ),
    {
        let ghost s0 = writer.stream();
        let ghost total = ac_bits(*ac_table, block.data@.subrange(1, 64), 0);
        let mut zero_run = Self::write_ac_block_finish_first_n::<16, W>(writer, block, ac_table)?;
        let ghost mut emitted = choose|e: Seq<bool>|
            wrote_bits(s0, writer.stream(), e) && e + ac_bits(
                *ac_table,
                block.data@.subrange(16, 64),
                zero_run as nat,
            ) == total;
        let mut chunk_start: usize = 16;
        while chunk_start < 64
            invariant
                16 <= chunk_start <= 64,
                chunk_start % 16 == 0,
                zero_run <= chunk_start,
                all_codable(block.data@.subrange(1, 64)),
                wrote_bits(s0, writer.stream(), emitted),
                emitted + ac_bits(*ac_table, block.data@.subrange(chunk_start as int, 64), zero_run as nat) == total,
            decreases 64 - chunk_start,
        {
            let mut non_zeros_bitmask: u16 = 0;
            proof {
                lemma_lanes_zero(non_zeros_bitmask);
            }
            let mut j: usize = 0;
            while j < 16
                invariant
                    j <= 16,
                    16 <= chunk_start < 64,
                    chunk_start % 16 == 0,
                    forall|k: int| 0 <= k < 16 ==> #[trigger] lane_bit(non_zeros_bitmask, k) == (k < j
                        && block.data[chunk_start + k] != 0),
                decreases 16 - j,
            {
                let old_mask = non_zeros_bitmask;
                if block.data[chunk_start + j] != 0 {
                    non_zeros_bitmask = non_zeros_bitmask | ((1u16 << 15) >> j);
                }
                proof {
                    assert forall|k: int| 0 <= k < 16 implies #[trigger] lane_bit(non_zeros_bitmask, k) == (k < j + 1
                        && block.data[chunk_start + k] != 0) by {
                        lemma_lane_set(old_mask, j as int, k);
                    }
                }
                j += 1;
            }
            if non_zeros_bitmask == 0 {
                proof {
                    lemma_lanes_zero(non_zeros_bitmask);
                    assert forall|i: int| 0 <= i < 16 implies block.data@.subrange(chunk_start as int, 64)[i] == 0 by {
                        assert(!lane_bit(non_zeros_bitmask, i));
                    }
                    lemma_ac_zeros(*ac_table, block.data@.subrange(chunk_start as int, 64), zero_run as nat, 16);
                    assert(block.data@.subrange(chunk_start as int, 64).skip(16) =~= block.data@.subrange(chunk_start + 16, 64));
                }
                zero_run += 16;
                chunk_start += 16;
                continue;
            }

            let mut checked_vals: u8 = 0;
            while non_zeros_bitmask != 0
                invariant
                    16 <= chunk_start < 64,
                    chunk_start % 16 == 0,
                    checked_vals <= 16,
                    zero_run <= chunk_start + checked_vals,
                    non_zeros_bitmask != 0 ==> checked_vals < 16,
                    checked_vals == 0 ==> non_zeros_bitmask != 0,
                    checked_vals > 0 ==> zero_run == 0,
                    forall|k: int| 0 <= k < 16 ==> #[trigger] lane_bit(non_zeros_bitmask, k) == (k
                        >= checked_vals && block.data[chunk_start + k] != 0),
                    all_codable(block.data@.subrange(1, 64)),
                    wrote_bits(s0, writer.stream(), emitted),
                    emitted + ac_bits(*ac_table, block.data@.subrange(chunk_start + checked_vals, 64), zero_run as nat) == total,
                decreases 16 - checked_vals,
            {
                let lz32 = non_zeros_bitmask.leading_zeros();
                let ghost m = non_zeros_bitmask;
                proof {
                    lemma_leading_lane(m);
                }
                let leading_zeros = lz32 as u8;
                proof {
                    assert(checked_vals <= leading_zeros) by {
                        if leading_zeros < checked_vals {
                            assert(lane_bit(m, leading_zeros as int));
                        }
                    }
                    let p = chunk_start + checked_vals;
                    let coefs = block.data@.subrange(p as int, 64);
                    assert forall|i: int| 0 <= i < leading_zeros - checked_vals implies coefs[i] == 0 by {
                        assert(!lane_bit(m, checked_vals + i));
                    }
                    lemma_ac_zeros(*ac_table, coefs, zero_run as nat, (leading_zeros - checked_vals) as nat);
                    assert(coefs.skip((leading_zeros - checked_vals) as int) =~= block.data@.subrange(chunk_start + leading_zeros, 64));
                }
                zero_run += leading_zeros - checked_vals;
                let ghost q = chunk_start + leading_zeros;
                let next_val = block.data[chunk_start + leading_zeros as usize];
                let ghost rest = block.data@.subrange(q + 1, 64);
                proof {
                    assert(next_val != 0);
                    assert(block.data@.subrange(q as int, 64).drop_first() =~= rest);
                    assert(block.data@.subrange(q as int, 64)[0] == next_val);
                    assert(block.data@.subrange(1, 64)[q - 1] == next_val);
                }
                let ghost zr0 = zero_run as nat;
                while zero_run >= 16
                    invariant
                        zero_run <= zr0,
                        zr0 % 16 == (zero_run as nat) % 16,
                        wrote_bits(s0, writer.stream(), emitted),
                        emitted + repeat(code_bits(*ac_table, 0xF0), (zero_run / 16) as nat)
                            + coefficient_bits(*ac_table, zr0 % 16, next_val) + ac_bits(*ac_table, rest, 0) == total,
                    decreases zero_run,
                {
                    let ghost si = writer.stream();
                    DefaultHuffmanEncoder::huffman_encode(writer, 0xF0, ac_table)?;
                    proof {
                        lemma_wrote_bits_trans(s0, si, writer.stream(), emitted, code_bits(*ac_table, 0xF0));
                        let f = code_bits(*ac_table, 0xF0);
                        assert(repeat(f, (zero_run / 16) as nat) == f + repeat(f, ((zero_run - 16) / 16) as nat));
                        emitted = emitted + f;
                        assert(emitted + repeat(f, ((zero_run - 16) / 16) as nat)
                            + coefficient_bits(*ac_table, zr0 % 16, next_val) + ac_bits(*ac_table, rest, 0) =~= total);
                    }
                    zero_run -= 16;
                }
                let ghost sv = writer.stream();
                DefaultHuffmanEncoder::write_val_with_preceding_zeros(writer, next_val, zero_run, ac_table)?;
                proof {
                    lemma_wrote_bits_trans(s0, sv, writer.stream(), emitted, coefficient_bits(*ac_table, zr0 % 16, next_val));
                    assert(repeat(code_bits(*ac_table, 0xF0), 0) =~= Seq::<bool>::empty());
                    emitted = emitted + coefficient_bits(*ac_table, zr0 % 16, next_val);
                    assert(emitted + ac_bits(*ac_table, rest, 0) =~= total);
                }
                zero_run = 0;
                checked_vals = leading_zeros + 1;
                let old_mask = non_zeros_bitmask;
                non_zeros_bitmask &= !((1u16 << 15) >> leading_zeros);
                proof {
                    assert forall|k: int| 0 <= k < 16 implies #[trigger] lane_bit(non_zeros_bitmask, k) == (k
                        >= checked_vals && block.data[chunk_start + k] != 0) by {
                        lemma_lane_clear(old_mask, leading_zeros as int, k);
                    }
                    lemma_lanes_zero(non_zeros_bitmask);
                }
            }
            proof {
                let p = chunk_start + checked_vals;
                let coefs = block.data@.subrange(p as int, 64);
                lemma_lanes_zero(non_zeros_bitmask);
                assert forall|i: int| 0 <= i < 16 - checked_vals implies coefs[i] == 0 by {
                    assert(!lane_bit(non_zeros_bitmask, checked_vals + i));
                }
                lemma_ac_zeros(*ac_table, coefs, zero_run as nat, (16 - checked_vals) as nat);
                assert(coefs.skip((16 - checked_vals) as int) =~= block.data@.subrange(chunk_start + 16, 64));
            }
            zero_run = 16 - checked_vals;
            chunk_start += 16;
        }

        if zero_run > 0 {
            let ghost se = writer.stream();
            DefaultHuffmanEncoder::huffman_encode(writer, 0x00, ac_table)?;
            proof {
                lemma_wrote_bits_trans(s0, se, writer.stream(), emitted, code_bits(*ac_table, 0x00));
                assert(emitted + code_bits(*ac_table, 0x00) =~= total);
            }
        } else {
            proof {
                assert(emitted + Seq::<bool>::empty() =~= total);
                assert(emitted =~= total);
            }
        }
        Ok(())
    }
}

impl HuffmanEncoder for SimdHuffmanEncoder {
    fn write_block<W: BitStream>(
        writer: &mut JfifWriter<W>,
        block: &AlignedBlock,
        prev_dc: i16,
        dc_table: &HuffmanTable,
        ac_table: &HuffmanTable,
    ) -> (r: Result<(), EncodingError>) {
        let ghost s0 = writer.stream();
        DefaultHuffmanEncoder::write_dc(writer, block.data[0], prev_dc, dc_table)?;
        let ghost s1 = writer.stream();
        let r = Self::write_ac_block_simd(writer, block, 1, 64, ac_table);
        proof {
            if r is Ok {
                lemma_wrote_bits_trans(s0, s1, writer.stream(), dc_bits(*dc_table, block.data[0], prev_dc), ac_bits(*ac_table, block.data@.subrange(1, 64), 0));
            }
        }
        r
    }
}

} // verus!
