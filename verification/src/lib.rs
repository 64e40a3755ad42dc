//! A JPEG (JFIF) baseline and progressive encoder whose bit-level output
//! is specified and proved with Verus.
#![allow(unused_imports)]

pub mod error;
pub mod coding;
pub mod marker;
pub mod huffman;
pub mod writer;
pub mod bit_stream;
pub mod simd;
pub mod encoder;
pub mod quantization;
pub mod fdct;
pub mod image_buffer;
pub mod scan;
pub mod quantized_block_iter;
pub mod huffman_sample_data;
pub mod properties;

pub use error::EncodingError;

