# jpeg-encoder (verified)

A JPEG encoder (baseline and progressive, with optional optimized Huffman
tables, restart intervals, chroma subsampling and APP/ICC/EXIF segments)
whose behaviour is specified with Verus contracts and proved.

## Layout

- `src/` — the verified library.
  - `encoder.rs`: the `Encoder`, its settings, block extraction and the
    scan writers; `encode` states the exact bytes it writes (`encoded`,
    `jpeg_bytes`).
  - `writer.rs`, `bit_stream.rs`, `coding.rs`, `scan.rs`, `marker.rs`: the
    JFIF segments, the bit-level entropy-coded output with 0xFF stuffing,
    and restart handling. A sink or stream type may declare itself
    `infallible` (a byte vector does); with such a type every writer, and
    `encode` on valid input, is proved to return `Ok`.
  - `huffman.rs`, `huffman/`: Huffman tables, the block coder, and tables
    optimized for symbol frequencies.
  - `quantization.rs`, `fdct.rs`: quantization tables and the forward DCT.
  - `image_buffer.rs`: pixel formats and color conversion.
  - `simd/`: lane-parallel variants of the DCT, quantizer, color
    conversion, AC coder and a byte-vector bit stream, each with the same
    contract as its scalar counterpart.
  - `quantized_block_iter.rs`, `huffman_sample_data.rs`: lazily computed
    quantized blocks and the Huffman sample set built from them. The block
    iterators of an image come in a `std::vec::Vec` rather than a
    `heapless::Vec`: the contents of an outside collection are named by a
    spec function without generics, whether the collection is declared as an
    outside type or held in a private field of an opaque struct, and the
    iterator type is generic.
    `Encoder::encode_blocks_iter` still collects the blocks in a
    `heapless::Vec`.
  - `properties.rs`: properties that span several functions.
- `tests/` — tests of the library.
- `app/` — code outside the verifier: encoders over `std::io::Write`
  and files (through the library's `ByteSink`/`SinkWriter`), serde forms of the
  sample data, error display, and a standard iterator over blocks.
