use vstd::prelude::*;
use crate::encoder::AlignedBlock;
use crate::quantization::{BlockQuantizer, QuantizationTable, quantize, quantize_value};
use crate::writer::{ZIGZAG, lemma_zigzag_bounds};

verus! {

const BLOCK_SIZE: usize = 64;
const SIMD_I32_WIDTH: usize = 8;
const SIMD_PER_QUANT: usize = 8;

/// Quantizes eight lanes at a time.
pub struct SimdBlockQuantizer;

impl BlockQuantizer for SimdBlockQuantizer {
    #[inline(always)]
    fn quantize_block(block: &AlignedBlock, q_block: &mut AlignedBlock, table: &QuantizationTable) {
        proof {
            lemma_zigzag_bounds();
        }
        let mut chunk_idx: usize = 0;
        while chunk_idx < SIMD_PER_QUANT
            invariant
                chunk_idx <= SIMD_PER_QUANT,
                forall|i: int| 0 <= i < 64 ==> #[trigger] ZIGZAG[i] < 64,
                forall|j: int|
                    0 <= j < chunk_idx * SIMD_I32_WIDTH ==> #[trigger] q_block.data[j]
                        == quantize_value(
                        block.data[ZIGZAG[j] as int],
                        table.reciprocal(j),
                        table.correction(j),
                    ),
            decreases SIMD_PER_QUANT - chunk_idx,
        {
            let base = chunk_idx * SIMD_I32_WIDTH;
            let mut lanes = [0i16;8];
            let mut lane: usize = 0;
            while lane < SIMD_I32_WIDTH
                invariant
                    lane <= SIMD_I32_WIDTH,
                    base == chunk_idx * SIMD_I32_WIDTH,
                    chunk_idx < SIMD_PER_QUANT,
                    forall|i: int| 0 <= i < 64 ==> #[trigger] ZIGZAG[i] < 64,
                    forall|l: int|
                        0 <= l < lane ==> #[trigger] lanes[l] == quantize_value(
                            block.data[ZIGZAG[base + l] as int],
                            table.reciprocal(base + l),
                            table.correction(base + l),
                        ),
                decreases SIMD_I32_WIDTH - lane,
            {
                let z = ZIGZAG[base + lane] as usize;
                lanes[lane] = quantize(
                    block.data[z],
                    table.reciprocal_at(base + lane),
                    table.correction_at(base + lane),
                );
                lane += 1;
            }
            let mut l: usize = 0;
            while l < SIMD_I32_WIDTH
                invariant
                    l <= SIMD_I32_WIDTH,
                    base == chunk_idx * SIMD_I32_WIDTH,
                    chunk_idx < SIMD_PER_QUANT,
                    forall|m: int|
                        0 <= m < SIMD_I32_WIDTH ==> #[trigger] lanes[m] == quantize_value(
                            block.data[ZIGZAG[base + m] as int],
                            table.reciprocal(base + m),
                            table.correction(base + m),
                        ),
                    forall|j: int|
                        0 <= j < base + l ==> #[trigger] q_block.data[j] == quantize_value(
                            block.data[ZIGZAG[j] as int],
                            table.reciprocal(j),
                            table.correction(j),
                        ),
                decreases SIMD_I32_WIDTH - l,
            {
                q_block.data[base + l] = lanes[l];
                proof {
                    assert(lanes[l as int] == quantize_value(
                        block.data[ZIGZAG[base + l] as int],
                        table.reciprocal(base + l),
                        table.correction(base + l),
                    ));
                }
                l += 1;
            }
            chunk_idx += 1;
        }
    }
}

} // verus!
