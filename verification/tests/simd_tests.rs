use jpeg_encoder::bit_stream::{BitStream, DefaultBitStream};
use jpeg_encoder::encoder::{AlignedBlock, ColorType, Encoder, SamplingFactor};
use jpeg_encoder::fdct::{DefaultFDCT, FDCT};
use jpeg_encoder::huffman::encoder::DefaultHuffmanEncoder;
use jpeg_encoder::huffman::HuffmanTable;
use jpeg_encoder::huffman_sample_data::{HuffmanSampleData, HuffmanSampleDataSet};
use jpeg_encoder::image_buffer::RgbImage;
use jpeg_encoder::simd::SimdHuffmanEncoder;
use jpeg_encoder::writer::JfifWriter;
use jpeg_encoder::EncodingError;
use jpeg_encoder::image_buffer::{rgb_to_ycbcr, ImageBuffer};
use jpeg_encoder::quantization::{BlockQuantizer, DefaultBlockQuantizer, QuantizationTable, QuantizationTableType};
use jpeg_encoder::simd::simd_vec_bitstream::SimdVecBitStream;
use jpeg_encoder::simd::ycbcr::{BgrImageSimd, BgraImageSimd, RgbImageSimd, RgbaImageSimd};
use jpeg_encoder::simd::{SimdBlockQuantizer, SimdFDCT};
use jpeg_encoder::writer::get_code;

const FDCT_INPUT1: [i16; 64] = [
    -70, -71, -70, -68, -67, -67, -67, -67, -72, -73, -72, -70, -69, -69, -68, -69, -75, -76, -74, -73,
    -73, -72, -71, -70, -77, -78, -77, -75, -76, -75, -73, -71, -78, -77, -77, -76, -79, -77, -76, -75,
    -78, -78, -77, -77, -77, -77, -78, -77, -79, -79, -78, -78, -78, -78, -79, -78, -80, -79, -78, -78,
    -81, -80, -78, -76,
];

const FDCT_INPUT2: [i16; 64] = [
    21, 28, 11, 24, -45, -37, -55, -103, 38, -8, 31, 17, -19, 49, 15, -76, 22, -48, -36, -31, -23, 35,
    -23, -72, 13, -30, -45, -42, -44, -15, -20, -44, 13, -30, -45, -42, -44, -15, -20, -44, 13, -30,
    -45, -42, -44, -15, -20, -44, 13, -30, -45, -42, -44, -15, -20, -44, 13, -30, -45, -42, -44, -15,
    -20, -44,
];

const QUANT_INPUT: [i16; 64] = [
    21, 28, 11, 24, -45, -37, -55, -103, 38, -8, 31, 17, -19, 49, 15, -76, 22, -48, -36, -31, -23, 35,
    -23, -72, 13, -30, -45, -42, -44, -15, -20, -44, 13, -30, -45, -42, -44, -15, -20, -44, 13, -30,
    -45, -42, -44, -15, -20, -44, 13, -30, -45, -42, -44, -15, -20, -44, 13, -30, -45, -42, -44, -15,
    -20, -44,
];

#[test]
fn simd_fdct_matches_scalar() {
    for input in [FDCT_INPUT1, FDCT_INPUT2] {
        let mut scalar = AlignedBlock::new(input);
        let mut simd = AlignedBlock::new(input);

        DefaultFDCT::fdct(&mut scalar);
        SimdFDCT::fdct(&mut simd);

        assert_eq!(simd.data, scalar.data);
    }
}

#[test]
fn simd_quantize_matches_scalar_quantize_block() {
    let block = AlignedBlock::new(QUANT_INPUT);
    let table = QuantizationTable::new_with_quality(&QuantizationTableType::Default, 80, true);

    let mut scalar = AlignedBlock::default();
    let mut simd = AlignedBlock::default();

    DefaultBlockQuantizer::quantize_block(&block, &mut scalar, &table);
    SimdBlockQuantizer::quantize_block(&block, &mut simd, &table);

    assert_eq!(simd.data, scalar.data);
}

#[test]
fn simd_operations_quantize_override_matches_scalar() {
    let block = AlignedBlock::new(QUANT_INPUT);
    let table = QuantizationTable::new_with_quality(&QuantizationTableType::Default, 55, false);

    let mut scalar = AlignedBlock::default();
    let mut simd = AlignedBlock::default();

    DefaultBlockQuantizer::quantize_block(&block, &mut scalar, &table);
    SimdBlockQuantizer::quantize_block(&block, &mut simd, &table);

    assert_eq!(simd.data, scalar.data);
}

const MIN_DC_COEFFICIENT: i16 = -1024;
const MAX_DC_COEFFICIENT: i16 = 1023;
const MIN_AC_COEFFICIENT: i16 = -1023;
const MAX_AC_COEFFICIENT: i16 = 1023;

struct TestRng {
    state: u64,
}

impl TestRng {
    fn new(seed: u64) -> Self {
        let mut state = seed.wrapping_add(0x9E37_79B9_7F4A_7C15);
        if state == 0 {
            state = 0xD1B5_4A32_D192_ED03;
        }
        Self { state }
    }

    fn next_u32(&mut self) -> u32 {
        let mut x = self.state;
        x ^= x << 13;
        x ^= x >> 7;
        x ^= x << 17;
        self.state = x;
        (x >> 32) as u32
    }

    fn next_bool(&mut self) -> bool {
        self.next_u32() & 1 != 0
    }

    fn next_range_i16(&mut self, min: i16, max: i16) -> i16 {
        let span = (i32::from(max) - i32::from(min) + 1) as u32;
        (i32::from(min) + (self.next_u32() % span) as i32) as i16
    }
}

fn random_ac_value(rng: &mut TestRng) -> i16 {
    // Keep AC values in category 0..10 (baseline default AC tables).
    if (rng.next_u32() & 0x0F) < 10 {
        return 0;
    }

    let size = (rng.next_u32() % 10 + 1) as u8;
    let min_magnitude = 1_i16 << (size - 1);
    let max_magnitude = (1_i16 << size) - 1;
    let magnitude = rng.next_range_i16(min_magnitude, max_magnitude);

    if rng.next_bool() {
        magnitude
    } else {
        -magnitude
    }
}

fn test_block(seed: u64, is_chroma: bool) -> HuffmanSampleData {
    let mut rng = TestRng::new(seed);
    let mut data = [0i16; 64];
    for (idx, slot) in data.iter_mut().enumerate() {
        *slot = if idx == 0 {
            rng.next_range_i16(MIN_DC_COEFFICIENT, MAX_DC_COEFFICIENT)
        } else {
            random_ac_value(&mut rng)
        };
    }
    let mut block = AlignedBlock { data };
    let mut last_dc = rng.next_range_i16(MIN_DC_COEFFICIENT, MAX_DC_COEFFICIENT);

    // Force boundary DC differences periodically to hit size=11.
    match seed & 0b11 {
        0 => {
            block.data[0] = MIN_DC_COEFFICIENT;
            last_dc = MAX_DC_COEFFICIENT;
        }
        1 => {
            block.data[0] = MAX_DC_COEFFICIENT;
            last_dc = MIN_DC_COEFFICIENT;
        }
        _ => {}
    }

    HuffmanSampleData {
        block,
        last_dc,
        dc_huffman_table: if is_chroma { 1 } else { 0 },
        ac_huffman_table: if is_chroma { 1 } else { 0 },
    }
}

#[test]
fn random_test_blocks_stay_within_huffman_limits() {
    for seed in 0..4096 {
        let sample = test_block(seed, (seed & 1) != 0);

        assert!(
            (MIN_DC_COEFFICIENT..=MAX_DC_COEFFICIENT).contains(&sample.block.data[0]),
            "DC coefficient out of range at seed {seed}: {}",
            sample.block.data[0]
        );
        assert!(
            (MIN_DC_COEFFICIENT..=MAX_DC_COEFFICIENT).contains(&sample.last_dc),
            "last_dc out of range at seed {seed}: {}",
            sample.last_dc
        );

        let dc_diff = sample.block.data[0] - sample.last_dc;
        let dc_size = get_code(dc_diff).0;
        assert!(
            dc_size <= 11,
            "DC diff category too large at seed {seed}: diff={dc_diff}, size={dc_size}"
        );

        for (idx, &value) in sample.block.data[1..].iter().enumerate() {
            assert!(
                (MIN_AC_COEFFICIENT..=MAX_AC_COEFFICIENT).contains(&value),
                "AC value out of range at seed {seed}, index {}: {value}",
                idx + 1
            );

            if value != 0 {
                let ac_size = get_code(value).0;
                assert!(
                    ac_size <= 10,
                    "AC category too large at seed {seed}, index {}: value={value}, size={ac_size}",
                    idx + 1
                );
            }
        }

        assert!(sample.dc_huffman_table <= 1);
        assert!(sample.ac_huffman_table <= 1);
    }
}

fn create_test_img_rgb() -> (Vec<u8>, u16, u16) {
    let width = 258;
    let height = 128;
    let mut data = Vec::with_capacity(width * height * 3);

    for y in 0..height {
        for x in 0..width {
            let x = x.min(255);
            data.push(x as u8);
            data.push((y * 2) as u8);
            data.push(((x + y * 2) / 2) as u8);
        }
    }

    (data, width as u16, height as u16)
}

#[derive(Clone, Copy)]
struct EncodeConfig {
    quality: u8,
    sampling: Option<SamplingFactor>,
    progressive: bool,
    optimized_huffman: bool,
    restart_interval: Option<u16>,
}

fn encode_with_default(data: &[u8], width: u16, height: u16, cfg: EncodeConfig) -> Vec<u8> {
    let mut out = Vec::new();
    let mut encoder = Encoder::new(DefaultBitStream::new(&mut out), cfg.quality);
    if let Some(sampling) = cfg.sampling {
        encoder.set_sampling_factor(sampling);
    }
    if cfg.progressive {
        encoder.set_progressive(true);
    }
    encoder.set_optimized_huffman_tables(cfg.optimized_huffman);
    if let Some(restart_interval) = cfg.restart_interval {
        encoder.set_restart_interval(restart_interval);
    }
    encoder.encode(data, width, height, ColorType::Rgb).unwrap();
    out
}

fn encode_with_simd_stream(data: &[u8], width: u16, height: u16, cfg: EncodeConfig) -> Vec<u8> {
    let mut stream = SimdVecBitStream::new(Vec::new());
    {
        let mut encoder = Encoder::new(&mut stream, cfg.quality);
        if let Some(sampling) = cfg.sampling {
            encoder.set_sampling_factor(sampling);
        }
        if cfg.progressive {
            encoder.set_progressive(true);
        }
        encoder.set_optimized_huffman_tables(cfg.optimized_huffman);
        if let Some(restart_interval) = cfg.restart_interval {
            encoder.set_restart_interval(restart_interval);
        }
        encoder.encode(data, width, height, ColorType::Rgb).unwrap();
    }
    stream.data
}

#[test]
fn simd_vec_bitstream_matches_default_bitstream_full_pipeline_rgb() {
    let (data, width, height) = create_test_img_rgb();
    let cases = [
        EncodeConfig {
            quality: 100,
            sampling: Some(SamplingFactor::F_1_1),
            progressive: false,
            optimized_huffman: false,
            restart_interval: None,
        },
        EncodeConfig {
            quality: 80,
            sampling: None,
            progressive: false,
            optimized_huffman: false,
            restart_interval: None,
        },
        EncodeConfig {
            quality: 100,
            sampling: Some(SamplingFactor::F_4_1),
            progressive: false,
            optimized_huffman: false,
            restart_interval: None,
        },
        EncodeConfig {
            quality: 100,
            sampling: Some(SamplingFactor::F_2_1),
            progressive: true,
            optimized_huffman: false,
            restart_interval: None,
        },
        EncodeConfig {
            quality: 100,
            sampling: Some(SamplingFactor::F_2_1),
            progressive: true,
            optimized_huffman: true,
            restart_interval: None,
        },
        EncodeConfig {
            quality: 100,
            sampling: Some(SamplingFactor::F_2_2),
            progressive: false,
            optimized_huffman: false,
            restart_interval: Some(32),
        },
        EncodeConfig {
            quality: 85,
            sampling: Some(SamplingFactor::F_2_2),
            progressive: true,
            optimized_huffman: false,
            restart_interval: Some(32),
        },
    ];

    for cfg in cases {
        let expected = encode_with_default(&data, width, height, cfg);
        let actual = encode_with_simd_stream(&data, width, height, cfg);
        assert_eq!(actual, expected, "bitstream mismatch for test case");
    }
}

#[test]
fn simd_vec_bitstream_matches_default_for_bit_ops() {
    let mut expected = Vec::new();
    let mut default = DefaultBitStream::new(&mut expected);
    default.write(&[0x12, 0x34]).unwrap();
    default.write_bits(0xFF, 8).unwrap();
    default.write_bits(0b101, 3).unwrap();
    default.write_bits(0xA5, 8).unwrap();
    default.finalize_bit_buffer().unwrap();
    default.write(&[0xFF, 0xD9]).unwrap();
    default.write_bits(0x7F, 7).unwrap();
    default.finalize_bit_buffer().unwrap();

    let mut simd = SimdVecBitStream::new(Vec::new());
    simd.write(&[0x12, 0x34]).unwrap();
    simd.write_bits(0xFF, 8).unwrap();
    simd.write_bits(0b101, 3).unwrap();
    simd.write_bits(0xA5, 8).unwrap();
    simd.finalize_bit_buffer().unwrap();
    simd.write(&[0xFF, 0xD9]).unwrap();
    simd.write_bits(0x7F, 7).unwrap();
    simd.finalize_bit_buffer().unwrap();

    assert_eq!(simd.data, expected);
}

struct SimpleRng {
    state: u64,
}

impl SimpleRng {
    fn new(seed: u64) -> Self {
        Self { state: seed }
    }

    fn next_u64(&mut self) -> u64 {
        self.state = self.state.wrapping_mul(6364136223846793005).wrapping_add(1);
        self.state
    }

    fn next_byte(&mut self) -> u8 {
        (self.next_u64() & 0xFF) as u8
    }

    fn random_bytes(&mut self, len: usize) -> Vec<u8> {
        (0..len).map(|_| self.next_byte()).collect()
    }
}

fn assert_matches_scalar<I: ImageBuffer>(input: &[u8], image: I, bytes_per_pixel: usize, offsets: [usize; 3]) {
    let scalar_result: Vec<[u8; 3]> = input
        .chunks_exact(bytes_per_pixel)
        .map(|chunk| {
            let [r, g, b] = offsets.map(|offset| chunk[offset]);
            let (y, cb, cr) = rgb_to_ycbcr(r, g, b);
            [y, cb, cr]
        })
        .collect();

    let mut buffers = [Vec::new(), Vec::new(), Vec::new(), Vec::new()];
    image.fill_buffers(0, &mut buffers);

    for buffer in &buffers[..3] {
        assert_eq!(buffer.len(), input.len() / bytes_per_pixel);
    }

    for (i, pixel) in scalar_result.iter().copied().enumerate() {
        let simd_pixel = [buffers[0][i], buffers[1][i], buffers[2][i]];
        assert_eq!(pixel, simd_pixel, "mismatch at index {i}");
    }
}

#[test]
fn simd_matches_scalar_rgb_formats() {
    let mut rng = SimpleRng::new(42);
    let width: usize = 512 + 3;
    let height: usize = 1;

    let rgb = rng.random_bytes(width * height * 3);
    assert_matches_scalar(
        &rgb,
        RgbImageSimd(&rgb, width.try_into().unwrap(), height.try_into().unwrap()),
        3,
        [0, 1, 2],
    );

    let rgba = rng.random_bytes(width * height * 4);
    assert_matches_scalar(
        &rgba,
        RgbaImageSimd(&rgba, width.try_into().unwrap(), height.try_into().unwrap()),
        4,
        [0, 1, 2],
    );

    let bgr = rng.random_bytes(width * height * 3);
    assert_matches_scalar(
        &bgr,
        BgrImageSimd(&bgr, width.try_into().unwrap(), height.try_into().unwrap()),
        3,
        [2, 1, 0],
    );

    let bgra = rng.random_bytes(width * height * 4);
    assert_matches_scalar(
        &bgra,
        BgraImageSimd(&bgra, width.try_into().unwrap(), height.try_into().unwrap()),
        4,
        [2, 1, 0],
    );
}

const START: usize = 1;
const END: usize = 64;
const PREFIX_BITS: (u32, u8) = (0b101, 3);
const FLUSH_BITS: (u32, u8) = (0xA5, 8);

fn write_og(block: &AlignedBlock, table: &HuffmanTable) -> Result<Vec<u8>, EncodingError> {
    let mut out = Vec::new();
    {
        let mut writer = JfifWriter::new(DefaultBitStream::new(&mut out));

        writer.write_bits(PREFIX_BITS.0, PREFIX_BITS.1)?;
        DefaultHuffmanEncoder::write_ac_block(&mut writer, block, START, END, table)?;
        writer.write_bits(FLUSH_BITS.0, FLUSH_BITS.1)?;
        writer.flush_bit_buffer()?;
    }
    Ok(out)
}

fn write_simd(block: &AlignedBlock, table: &HuffmanTable) -> Result<Vec<u8>, EncodingError> {
    let mut out = Vec::new();
    {
        let mut writer = JfifWriter::new(DefaultBitStream::new(&mut out));

        writer.write_bits(PREFIX_BITS.0, PREFIX_BITS.1)?;
        SimdHuffmanEncoder::write_ac_block_simd(&mut writer, block, START, END, table)?;
        writer.write_bits(FLUSH_BITS.0, FLUSH_BITS.1)?;
        writer.flush_bit_buffer()?;
    }
    Ok(out)
}

#[test]
fn simd_ac_writer_matches_original_for_test_image() {
    let (data, width, height) = create_test_img_rgb();
    let image_buffer = RgbImage(&data, width, height);
    let sample_set = HuffmanSampleDataSet::from_image::<_, DefaultFDCT, DefaultBlockQuantizer>(&image_buffer);

    for (idx, sample) in sample_set.samples.iter().enumerate() {
        let ac_table = &sample_set.huffman_tables[sample.ac_huffman_table as usize].1;
        let block = sample.block;
        let og = write_og(&block, ac_table).unwrap();
        let simd = write_simd(&block, ac_table).unwrap();

        assert_eq!(og, simd, "Mismatch at sample {idx} with block: {block:?}",);
    }
}

#[test]
fn simd_ac_writer_matches_original_for_random_samples() {
    let huffman_tables = [
        (HuffmanTable::default_luma_dc(), HuffmanTable::default_luma_ac()),
        (HuffmanTable::default_chroma_dc(), HuffmanTable::default_chroma_ac()),
    ];

    for seed in 0..20_000 {
        let sample = test_block(seed, (seed & 1) != 0);
        let ac_table = &huffman_tables[sample.ac_huffman_table as usize].1;

        let og = write_og(&sample.block, ac_table).unwrap();
        let simd = write_simd(&sample.block, ac_table).unwrap();

        assert_eq!(og, simd, "Mismatch at random seed {seed} with block: {:?}", sample.block);
    }
}
