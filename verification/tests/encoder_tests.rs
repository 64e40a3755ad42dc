use jpeg_encoder::bit_stream::DefaultBitStream;
use jpeg_encoder::encoder::{
    get_block_linear, get_block_simd, get_num_bits, ColorType, Encoder, JpegColorType, SamplingFactor,
};
use jpeg_encoder::fdct::DefaultFDCT;
use jpeg_encoder::image_buffer::RgbImage;
use jpeg_encoder::quantization::{DefaultBlockQuantizer, QuantizationTable, QuantizationTableType};
use jpeg_encoder::writer::get_code;

fn create_test_img_rgb() -> (Vec<u8>, u16, u16) {
    let width = 258;
    let height = 128;
    let mut data = Vec::with_capacity(width * height * 3);

    for y in 0..height {
        for x in 0..width {
            let x = x.min(255);
            data.push(x as u8);
            data.push((y * 2) as u8);
            data.push(((x + y * 2) / 2) as u8);
        }
    }

    (data, width as u16, height as u16)
}

#[test]
fn test_get_num_bits() {
    let min_max = 2i16.pow(13);

    for value in -min_max..=min_max {
        let num_bits1 = get_num_bits(value);
        let (num_bits2, _) = get_code(value);

        assert_eq!(
            num_bits1, num_bits2,
            "Difference in num bits for value {}: {} vs {}",
            value, num_bits1, num_bits2
        );
    }
}

#[test]
fn sampling_factors() {
    assert_eq!(SamplingFactor::F_1_1.get_sampling_factors(), (1, 1));
    assert_eq!(SamplingFactor::F_2_1.get_sampling_factors(), (2, 1));
    assert_eq!(SamplingFactor::F_1_2.get_sampling_factors(), (1, 2));
    assert_eq!(SamplingFactor::F_2_2.get_sampling_factors(), (2, 2));
    assert_eq!(SamplingFactor::F_4_1.get_sampling_factors(), (4, 1));
    assert_eq!(SamplingFactor::F_4_2.get_sampling_factors(), (4, 2));
    assert_eq!(SamplingFactor::F_1_4.get_sampling_factors(), (1, 4));
    assert_eq!(SamplingFactor::F_2_4.get_sampling_factors(), (2, 4));

    assert_eq!(SamplingFactor::R_4_4_4.get_sampling_factors(), (1, 1));
    assert_eq!(SamplingFactor::R_4_4_0.get_sampling_factors(), (1, 2));
    assert_eq!(SamplingFactor::R_4_4_1.get_sampling_factors(), (1, 4));
    assert_eq!(SamplingFactor::R_4_2_2.get_sampling_factors(), (2, 1));
    assert_eq!(SamplingFactor::R_4_2_0.get_sampling_factors(), (2, 2));
    assert_eq!(SamplingFactor::R_4_2_1.get_sampling_factors(), (2, 4));
    assert_eq!(SamplingFactor::R_4_1_1.get_sampling_factors(), (4, 1));
    assert_eq!(SamplingFactor::R_4_1_0.get_sampling_factors(), (4, 2));
}

#[test]
fn test_set_progressive() {
    let mut encoder = Encoder::new(DefaultBitStream::new(Vec::<u8>::new()), 100);
    encoder.set_progressive(true);
    assert_eq!(encoder.progressive_scans(), Some(4));

    encoder.set_progressive(false);
    assert_eq!(encoder.progressive_scans(), None);
}

#[test]
fn test_encode_blocks_iter_matches_encode_blocks() {
    let width = 587u16;
    let height = 181u16;
    let mut data = Vec::with_capacity(width as usize * height as usize * 3);

    for y in 0..height {
        for x in 0..width {
            data.push((x * 7 + y * 3) as u8);
            data.push((x * 5 + y * 11) as u8);
            data.push((x * 13 + y * 17) as u8);
        }
    }

    let image = RgbImage(&data, width, height);
    let q_tables = [
        QuantizationTable::new_with_quality(&QuantizationTableType::Default, 90, true),
        QuantizationTable::new_with_quality(&QuantizationTableType::Default, 90, false),
    ];

    for sampling_factor in [SamplingFactor::F_1_1, SamplingFactor::F_2_2] {
        let mut encoder_old = Encoder::new(DefaultBitStream::new(Vec::<u8>::new()), 90);
        encoder_old.set_sampling_factor(sampling_factor);
        encoder_old.init_components(JpegColorType::Ycbcr);

        let old_blocks = encoder_old.encode_blocks::<_, DefaultFDCT, DefaultBlockQuantizer>(&image, &q_tables);

        let mut encoder_new = Encoder::new(DefaultBitStream::new(Vec::<u8>::new()), 90);
        encoder_new.set_sampling_factor(sampling_factor);
        encoder_new.init_components(JpegColorType::Ycbcr);

        let iter_blocks = encoder_new.encode_blocks_iter::<_, DefaultFDCT, DefaultBlockQuantizer>(&image, &q_tables);

        old_blocks
            .iter()
            .zip(iter_blocks.iter())
            .enumerate()
            .for_each(|(component_index, (old_component, new_component))| {
                assert_eq!(
                    old_component.len(),
                    new_component.len(),
                    "different number of blocks for sampling {:?}, component {}",
                    sampling_factor,
                    component_index
                );

                for (block_index, (old_block, new_block)) in
                    old_component.iter().zip(new_component.iter()).enumerate()
                {
                    assert_eq!(
                        old_block.data, new_block.data,
                        "different block for sampling {:?}, component {}, block {}",
                        sampling_factor, component_index, block_index
                    );
                }
            });
    }
}

#[test]
fn test_get_block_linear_match_get_block_optimized() {
    let source_data = (0..=u16::MAX).map(|p| (p & 0x00FF) as u8).collect::<Vec<_>>();

    let normal = get_block_linear(&source_data, 0, 0, 1, 1, 256);
    let optimized = get_block_simd(&source_data, 0, 0, 1, 1, 256);
    assert_eq!(normal.data, optimized.data);

    // Non-zero starting offsets (x and y)
    let normal = get_block_linear(&source_data, 7, 13, 1, 1, 256);
    let optimized = get_block_simd(&source_data, 7, 13, 1, 1, 256);
    assert_eq!(normal.data, optimized.data);

    // Increased row_stride for vertically subsampled/spaced data
    let normal = get_block_linear(&source_data, 0, 0, 1, 2, 256);
    let optimized = get_block_simd(&source_data, 0, 0, 1, 2, 256);
    assert_eq!(normal.data, optimized.data);

    // Unique odd width, along with row_stride and offsets combined
    let normal = get_block_linear(&source_data, 15, 8, 1, 3, 127);
    let optimized = get_block_simd(&source_data, 15, 8, 1, 3, 127);
    assert_eq!(normal.data, optimized.data);

    // Near the end of the buffer boundaries
    let normal = get_block_linear(&source_data, 248, 248, 1, 1, 256);
    let optimized = get_block_simd(&source_data, 248, 248, 1, 1, 256);
    assert_eq!(normal.data, optimized.data);
}

#[test]
fn generate_test_image_sample_huffman_data() {
    let (data, width, height) = create_test_img_rgb();

    let mut result = Vec::new();
    let mut encoder = Encoder::new(DefaultBitStream::new(&mut result), 100);
    encoder.set_sampling_factor(SamplingFactor::F_2_1);
    encoder.encode(&data, width, height, ColorType::Rgb).unwrap();
}
