use vstd::prelude::*;
use vstd::arithmetic::power2::pow2;
use crate::EncodingError;
use crate::bit_stream::{BitStream, wrote_bits, lemma_wrote_bits_trans, lemma_wrote_nothing};
use crate::coding::{codable, repeat};
use crate::encoder::AlignedBlock;
use crate::huffman::{HuffmanTable, code_bits, coded_value_bits, coefficient_bits, dc_bits, ac_bits,
    all_codable, block_codable, block_bits};
use crate::writer::{JfifWriter, get_code, lemma_code_value_bits, lemma_magnitude_fits, lemma_symbol};

verus! {

/// Writes the entropy-coded data of a block.
pub trait HuffmanEncoder {
    fn write_block<W: BitStream>(
        writer: &mut JfifWriter<W>,
        block: &AlignedBlock,
        prev_dc: i16,
        dc_table: &HuffmanTable,
        ac_table: &HuffmanTable,
    ) -> (r: Result<(), EncodingError>)
        requires
            old(writer).stream().inv(),
            block_codable(block.data, prev_dc),
        ensures
            W::infallible() ==> r is Ok,
            r is Ok ==> wrote_bits(
                old(writer).stream(),
                final(writer).stream(),
                block_bits(*dc_table, *ac_table, block.data, prev_dc),
            ),
    ;
}

pub struct DefaultHuffmanEncoder;

impl HuffmanEncoder for DefaultHuffmanEncoder {
    fn write_block<W: BitStream>(
        writer: &mut JfifWriter<W>,
        block: &AlignedBlock,
        prev_dc: i16,
        dc_table: &HuffmanTable,
        ac_table: &HuffmanTable,
    ) -> (r: Result<(), EncodingError>) {
        let ghost s0 = writer.stream();
        Self::write_dc(writer, block.data[0], prev_dc, dc_table)?;
        let ghost s1 = writer.stream();
        let r = Self::write_ac_block(writer, block, 1, 64, ac_table);
        proof {
            if r is Ok {
                lemma_wrote_bits_trans(s0, s1, writer.stream(), dc_bits(*dc_table, block.data[0], prev_dc), ac_bits(*ac_table, block.data@.subrange(1, 64), 0));
            }
        }
        r
    }
}

impl DefaultHuffmanEncoder {
    pub fn huffman_encode_value<W: BitStream>(
        writer: &mut JfifWriter<W>,
        size: u8,
        symbol: u8,
        value: u16,
        table: &HuffmanTable,
    ) -> (r: Result<(), EncodingError>)
        requires
            old(writer).stream().inv(),
            size <= 15,
            (value as nat) < pow2(size as nat),
        ensures
            W::infallible() ==> r is Ok,
            r is Ok ==> wrote_bits(
                old(writer).stream(),
                final(writer).stream(),
                coded_value_bits(*table, symbol, size, value),
            ),
    {
        let (num_bits, code) = *table.get_for_value(symbol);
        let mut temp = value as u32;
        temp |= (code as u32) << size;
        let size2 = size + num_bits;
        proof {
            lemma_code_value_bits(code, num_bits, value, size, temp);
        }
        writer.write_bits(temp, size2)
    }

    pub fn write_dc<W: BitStream>(
        writer: &mut JfifWriter<W>,
        value: i16,
        prev_dc: i16,
        dc_table: &HuffmanTable,
    ) -> (r: Result<(), EncodingError>)
        requires
            old(writer).stream().inv(),
            codable(value - prev_dc),
        ensures
            W::infallible() ==> r is Ok,
            r is Ok ==> wrote_bits(old(writer).stream(), final(writer).stream(), dc_bits(*dc_table, value, prev_dc)),
    {
        let diff = value - prev_dc;
        let (size, value) = get_code(diff);
        proof {
            lemma_magnitude_fits(diff as int);
        }
        Self::huffman_encode_value(writer, size, size, value, dc_table)?;
        Ok(())
    }

    pub fn write_ac_block<W: BitStream>(
        writer: &mut JfifWriter<W>,
        block: &AlignedBlock,
        start: usize,
        end: usize,
        ac_table: &HuffmanTable,
    ) -> (r: Result<(), EncodingError>)
        requires
            old(writer).stream().inv(),
            start <= end <= 64,
            all_codable(block.data@.subrange(start as int, end as int)),
        ensures
            W::infallible() ==> r is Ok,
            r is Ok ==> wrote_bits(
                old(writer).stream(),
                final(writer).stream(),
                ac_bits(*ac_table, block.data@.subrange(start as int, end as int), 0),
            ),
    {
        let ghost s0 = writer.stream();
        let ghost coefs = block.data@.subrange(start as int, end as int);
        let ghost total = ac_bits(*ac_table, coefs, 0);
        let ghost emitted = Seq::<bool>::empty();
        proof {
            lemma_wrote_nothing(s0);
            assert(emitted + ac_bits(*ac_table, block.data@.subrange(start as int, end as int), 0) =~= total);
        }
        let mut zero_run: i32 = 0;
        let mut i: usize = start;
        while i < end
            invariant
                start <= i <= end <= 64,
                0 <= zero_run <= i - start,
                coefs == block.data@.subrange(start as int, end as int),
                all_codable(coefs),
                wrote_bits(s0, writer.stream(), emitted),
                emitted + ac_bits(*ac_table, block.data@.subrange(i as int, end as int), zero_run as nat) == total,
            decreases end - i,
        {
            let value = block.data[i];
            let ghost rest = block.data@.subrange(i + 1 as int, end as int);
            proof {
                assert(block.data@.subrange(i as int, end as int).drop_first() =~= rest);
                assert(block.data@.subrange(i as int, end as int)[0] == value);
            }
            if value == 0 {
                zero_run += 1;
            } else {
                proof {
                    assert(coefs[i - start] == value);
                }
                let ghost zr0 = zero_run as nat;
                while zero_run > 15
                    invariant
                        0 <= zero_run <= zr0,
                        zr0 % 16 == (zero_run as nat) % 16,
                        wrote_bits(s0, writer.stream(), emitted),
                        emitted + repeat(code_bits(*ac_table, 0xF0), (zero_run / 16) as nat)
                            + coefficient_bits(*ac_table, zr0 % 16, value) + ac_bits(*ac_table, rest, 0) == total,
                    decreases zero_run,
                {
                    let ghost si = writer.stream();
                    Self::huffman_encode(writer, 0xF0, ac_table)?;
                    proof {
                        lemma_wrote_bits_trans(s0, si, writer.stream(), emitted, code_bits(*ac_table, 0xF0));
                        let f = code_bits(*ac_table, 0xF0);
                        assert(repeat(f, (zero_run / 16) as nat) == f + repeat(f, ((zero_run - 16) / 16) as nat));
                        emitted = emitted + f;
                        assert(emitted + repeat(f, ((zero_run - 16) / 16) as nat)
                            + coefficient_bits(*ac_table, zr0 % 16, value) + ac_bits(*ac_table, rest, 0) =~= total);
                    }
                    zero_run -= 16;
                }
                let ghost sv = writer.stream();
                Self::write_val_with_preceding_zeros(writer, value, zero_run as u8, ac_table)?;
                proof {
                    lemma_wrote_bits_trans(s0, sv, writer.stream(), emitted, coefficient_bits(*ac_table, zr0 % 16, value));
                    assert(repeat(code_bits(*ac_table, 0xF0), 0) =~= Seq::<bool>::empty());
                    emitted = emitted + coefficient_bits(*ac_table, zr0 % 16, value);
                    assert(emitted + ac_bits(*ac_table, rest, 0) =~= total);
                }
                zero_run = 0;
            }
            i += 1;
        }
        if zero_run > 0 {
            let ghost se = writer.stream();
            Self::huffman_encode(writer, 0x00, ac_table)?;
            proof {
                lemma_wrote_bits_trans(s0, se, writer.stream(), emitted, code_bits(*ac_table, 0x00));
                assert(emitted + code_bits(*ac_table, 0x00) =~= total);
            }
        } else {
            proof {
                assert(emitted + Seq::<bool>::empty() =~= total);
                assert(emitted =~= total);
            }
        }
        Ok(())
    }

    pub fn write_val_with_preceding_zeros<W: BitStream>(
        writer: &mut JfifWriter<W>,
        value: i16,
        preceding_zeros: u8,
        ac_table: &HuffmanTable,
    ) -> (r: Result<(), EncodingError>)
        requires
            old(writer).stream().inv(),
            preceding_zeros <= 15,
            codable(value as int),
        ensures
            W::infallible() ==> r is Ok,
            r is Ok ==> wrote_bits(
                old(writer).stream(),
                final(writer).stream(),
                coefficient_bits(*ac_table, preceding_zeros as nat, value),
            ),
    {
        let (size, value2) = get_code(value);
        let symbol = (preceding_zeros << 4) | size;
        proof {
            lemma_magnitude_fits(value as int);
            lemma_symbol(preceding_zeros, size);
        }
        Self::huffman_encode_value(writer, size, symbol, value2, ac_table)
    }

    pub fn huffman_encode<W: BitStream>(writer: &mut JfifWriter<W>, val: u8, table: &HuffmanTable) -> (r: Result<(), EncodingError>)
        requires
            old(writer).stream().inv(),
        ensures
            W::infallible() ==> r is Ok,
            r is Ok ==> wrote_bits(old(writer).stream(), final(writer).stream(), code_bits(*table, val)),
    {
        let (size, code) = *table.get_for_value(val);
        writer.write_bits(code as u32, size)
    }
}

} // verus!
