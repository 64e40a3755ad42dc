pub mod fdct;
pub mod huffman;
pub mod ycbcr;
pub mod quantize;
pub mod simd_vec_bitstream;

pub use fdct::SimdFDCT;
pub use quantize::SimdBlockQuantizer;
pub use simd_vec_bitstream::SimdVecBitStream;
pub use huffman::SimdHuffmanEncoder;
