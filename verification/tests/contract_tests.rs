use jpeg_encoder::bit_stream::{BitStream, DefaultBitStream};
use jpeg_encoder::encoder::{get_num_bits, ColorType, Encoder, SamplingFactor};
use jpeg_encoder::fdct::DefaultFDCT;
use jpeg_encoder::huffman::optimize::new_optimized;
use jpeg_encoder::huffman::HuffmanTable;
use jpeg_encoder::huffman_sample_data::HuffmanSampleDataSet;
use jpeg_encoder::image_buffer::{rgb_to_ycbcr, GrayImage, RgbImage};
use jpeg_encoder::quantization::DefaultBlockQuantizer;
use jpeg_encoder::simd::SimdVecBitStream;
use jpeg_encoder::EncodingError;

fn small_rgb(width: u16, height: u16) -> Vec<u8> {
    let mut data = Vec::new();
    for y in 0..height {
        for x in 0..width {
            data.push((x * 16) as u8);
            data.push((y * 32) as u8);
            data.push((x * 8 + y * 8) as u8);
        }
    }
    data
}

fn encode_rgb(quality: u8, progressive: bool, optimized: bool, restart: u16) -> Vec<u8> {
    let data = small_rgb(16, 8);
    let mut out = Vec::new();
    let mut encoder = Encoder::new(DefaultBitStream::new(&mut out), quality);
    encoder.set_progressive(progressive);
    encoder.set_optimized_huffman_tables(optimized);
    encoder.set_restart_interval(restart);
    encoder.encode(&data, 16, 8, ColorType::Rgb).unwrap();
    out
}

#[test]
fn num_bits_of_edge_values() {
    assert_eq!(get_num_bits(0), 0);
    assert_eq!(get_num_bits(1), 1);
    assert_eq!(get_num_bits(-1), 1);
    assert_eq!(get_num_bits(255), 8);
    assert_eq!(get_num_bits(256), 9);
    assert_eq!(get_num_bits(-256), 9);
    assert_eq!(get_num_bits(i16::MAX), 15);
}

#[test]
fn sampling_factor_from_factors_round_trip() {
    for (h, v) in [(1u8, 1u8), (2, 1), (1, 2), (2, 2), (4, 1), (4, 2), (1, 4), (2, 4)] {
        let factor = SamplingFactor::from_factors(h, v).unwrap();
        assert_eq!(factor.get_sampling_factors(), (h, v));
    }
    assert_eq!(SamplingFactor::from_factors(3, 1), None);
    assert_eq!(SamplingFactor::from_factors(4, 4), None);
    assert_eq!(SamplingFactor::from_factors(0, 1), None);
}

#[test]
fn ycbcr_of_black_white_and_red() {
    assert_eq!(rgb_to_ycbcr(0, 0, 0), (0, 128, 128));
    assert_eq!(rgb_to_ycbcr(255, 255, 255), (255, 128, 128));
    assert_eq!(rgb_to_ycbcr(255, 0, 0), (76, 85, 255));
}

#[test]
fn encoded_file_is_framed_by_soi_and_eoi() {
    for (quality, progressive, optimized, restart) in
        [(90, false, false, 0), (75, true, false, 0), (100, false, true, 1), (50, true, true, 2)]
    {
        let out = encode_rgb(quality, progressive, optimized, restart);
        assert_eq!(&out[..2], &[0xFF, 0xD8]);
        assert_eq!(&out[out.len() - 2..], &[0xFF, 0xD9]);
    }
}

#[test]
fn encoding_is_deterministic() {
    assert_eq!(encode_rgb(80, false, false, 0), encode_rgb(80, false, false, 0));
    assert_eq!(encode_rgb(80, true, true, 3), encode_rgb(80, true, true, 3));
}

#[test]
fn short_image_data_is_refused() {
    let data = vec![0u8; 10];
    let mut out = Vec::new();
    let mut encoder = Encoder::new(DefaultBitStream::new(&mut out), 90);
    let r = encoder.encode(&data, 4, 4, ColorType::Rgb);
    assert_eq!(r, Err(EncodingError::BadImageData { length: 10, required: 48 }));
}

#[test]
fn zero_dimensions_are_refused() {
    let data = vec![0u8; 10];
    let mut out = Vec::new();
    let mut encoder = Encoder::new(DefaultBitStream::new(&mut out), 90);
    let r = encoder.encode(&data, 0, 4, ColorType::Luma);
    assert_eq!(r, Err(EncodingError::ZeroImageDimensions { width: 0, height: 4 }));
}

#[test]
fn app_segment_errors() {
    let mut encoder = Encoder::new(DefaultBitStream::new(Vec::<u8>::new()), 90);
    assert_eq!(encoder.add_app_segment(0, vec![1, 2]), Err(EncodingError::InvalidAppSegment(0)));
    assert_eq!(encoder.add_app_segment(16, vec![1, 2]), Err(EncodingError::InvalidAppSegment(16)));
    assert_eq!(
        encoder.add_app_segment(3, vec![0; 65535]),
        Err(EncodingError::AppSegmentTooLarge(65535))
    );
    assert_eq!(encoder.add_app_segment(3, vec![0; 65534]), Ok(()));
    assert_eq!(
        encoder.add_exif_metadata(&vec![0; 65529]),
        Err(EncodingError::AppSegmentTooLarge(65535))
    );
    assert_eq!(encoder.add_exif_metadata(&vec![0; 65528]), Ok(()));
    assert_eq!(encoder.add_exif_metadata(&[1, 2, 3]), Ok(()));
    assert_eq!(encoder.add_icc_profile(&[1, 2, 3]), Ok(()));
}

#[test]
fn app_segments_are_written_after_the_header() {
    let data = vec![128u8; 64];
    let mut out = Vec::new();
    let mut encoder = Encoder::new(DefaultBitStream::new(&mut out), 90);
    encoder.add_app_segment(5, vec![0xAB, 0xCD]).unwrap();
    encoder.encode(&data, 8, 8, ColorType::Luma).unwrap();
    let marker = [0xFF, 0xE5, 0x00, 0x04, 0xAB, 0xCD];
    assert!(out.windows(marker.len()).any(|w| w == marker));
}

#[test]
fn sample_data_of_a_small_image() {
    let data = small_rgb(16, 8);
    let image = RgbImage(&data, 16, 8);
    let set = HuffmanSampleDataSet::from_image::<_, DefaultFDCT, DefaultBlockQuantizer>(&image);

    // Three components of two blocks each.
    assert_eq!(set.samples.len(), 6);
    for (i, sample) in set.samples.iter().enumerate() {
        let component = i / 2;
        let table = if component == 0 { 0 } else { 1 };
        assert_eq!(sample.dc_huffman_table, table);
        assert_eq!(sample.ac_huffman_table, table);
        if i % 2 == 0 {
            assert_eq!(sample.last_dc, 0);
        } else {
            assert_eq!(sample.last_dc, set.samples[i - 1].block.data[0]);
        }
    }
}

#[test]
fn sample_data_of_a_flat_gray_image() {
    // A flat mid-gray image has no energy left after the level shift.
    let data = vec![128u8; 8 * 16];
    let image = GrayImage(&data, 8, 16);
    let set = HuffmanSampleDataSet::from_image::<_, DefaultFDCT, DefaultBlockQuantizer>(&image);
    assert_eq!(set.samples.len(), 2);
    for sample in &set.samples {
        assert!(sample.block.data.iter().all(|&c| c == 0));
        assert_eq!(sample.last_dc, 0);
    }
}

#[test]
fn every_sampling_factor_is_supported() {
    let all = [
        SamplingFactor::F_1_1,
        SamplingFactor::F_2_1,
        SamplingFactor::F_1_2,
        SamplingFactor::F_2_2,
        SamplingFactor::F_4_1,
        SamplingFactor::F_4_2,
        SamplingFactor::F_1_4,
        SamplingFactor::F_2_4,
        SamplingFactor::R_4_4_4,
        SamplingFactor::R_4_4_0,
        SamplingFactor::R_4_4_1,
        SamplingFactor::R_4_2_2,
        SamplingFactor::R_4_2_0,
        SamplingFactor::R_4_2_1,
        SamplingFactor::R_4_1_1,
        SamplingFactor::R_4_1_0,
    ];
    for f in all {
        let (h, v) = f.get_sampling_factors();
        let back = SamplingFactor::from_factors(h, v).unwrap();
        assert_eq!(back.get_sampling_factors(), (h, v));
    }
}

#[test]
fn output_does_not_depend_on_the_bit_stream() {
    let data = small_rgb(16, 8);
    let mut out = Vec::new();
    let mut a = Encoder::new(DefaultBitStream::new(&mut out), 70);
    a.set_restart_interval(1);
    a.encode(&data, 16, 8, ColorType::Rgb).unwrap();
    let mut stream = SimdVecBitStream::new(Vec::new());
    {
        let mut b = Encoder::new(&mut stream, 70);
        b.set_restart_interval(1);
        b.encode(&data, 16, 8, ColorType::Rgb).unwrap();
    }
    assert_eq!(out, stream.data);
}

#[test]
fn icc_profile_chunk_limit() {
    let mut encoder = Encoder::new(DefaultBitStream::new(Vec::<u8>::new()), 90);
    // 255 chunks of 65519 bytes fit; one byte more needs a 256th chunk.
    let fits = vec![0u8; 65519 * 255];
    assert_eq!(encoder.add_icc_profile(&fits), Ok(()));
    let too_large = vec![0u8; 65519 * 255 + 1];
    assert_eq!(
        encoder.add_icc_profile(&too_large),
        Err(EncodingError::IccTooLarge(65519 * 255 + 1))
    );
}

#[test]
fn icc_profile_is_split_into_numbered_chunks() {
    let data = vec![128u8; 64];
    let mut out = Vec::new();
    let mut encoder = Encoder::new(DefaultBitStream::new(&mut out), 90);
    encoder.add_icc_profile(&[7u8; 10]).unwrap();
    encoder.encode(&data, 8, 8, ColorType::Luma).unwrap();
    // APP2, length 2 + 12 + 2 + 10, "ICC_PROFILE\0", chunk 1 of 1, then the data.
    let mut segment = vec![0xFF, 0xE2, 0x00, 26];
    segment.extend_from_slice(b"ICC_PROFILE\0");
    segment.extend_from_slice(&[1, 1]);
    segment.extend_from_slice(&[7u8; 10]);
    assert!(out.windows(segment.len()).any(|w| w == segment.as_slice()));
}

#[test]
fn restart_markers_cycle_through_rst0_to_rst7() {
    // 16x8 RGB with 4:2:0 subsampling is one MCU wide and one high; use a
    // larger gray image to get many MCUs.
    let data = vec![100u8; 8 * 80];
    let mut out = Vec::new();
    let mut encoder = Encoder::new(DefaultBitStream::new(&mut out), 90);
    encoder.set_restart_interval(1);
    encoder.encode(&data, 80, 8, ColorType::Luma).unwrap();
    // Ten MCUs, a restart marker before each but the first.
    let markers: Vec<u8> = out
        .windows(2)
        .filter(|w| w[0] == 0xFF && (0xD0..=0xD7).contains(&w[1]))
        .map(|w| w[1])
        .collect();
    assert_eq!(markers, vec![0xD0, 0xD1, 0xD2, 0xD3, 0xD4, 0xD5, 0xD6, 0xD7, 0xD0]);
}

#[test]
fn luma_dc_table_has_the_canonical_codes() {
    let table = HuffmanTable::default_luma_dc();
    assert_eq!(*table.get_for_value(0), (2, 0b00));
    assert_eq!(*table.get_for_value(1), (3, 0b010));
    assert_eq!(*table.get_for_value(5), (3, 0b110));
    assert_eq!(*table.get_for_value(6), (4, 0b1110));
    assert_eq!(*table.get_for_value(11), (9, 0b1_1111_1110));
    assert_eq!(*table.get_for_value(12), (0, 0));
}

#[test]
fn default_table_codes_are_prefix_free() {
    let tables = [
        HuffmanTable::default_luma_dc(),
        HuffmanTable::default_luma_ac(),
        HuffmanTable::default_chroma_dc(),
        HuffmanTable::default_chroma_ac(),
    ];
    for table in &tables {
        let coded: Vec<(u8, u8, u16)> = (0..=255u8)
            .map(|v| {
                let (l, c) = *table.get_for_value(v);
                (v, l, c)
            })
            .filter(|e| e.1 > 0)
            .collect();
        assert_eq!(coded.len(), table.values().len());
        for &(a, la, ca) in &coded {
            for &(b, lb, cb) in &coded {
                if a != b && la <= lb {
                    assert_ne!((cb as u32) >> (lb - la), ca as u32);
                }
            }
        }
    }
}

#[test]
fn optimized_table_codes_exactly_the_symbols_that_occur() {
    let mut freq = [0u64; 257];
    freq[0] = 100;
    freq[3] = 40;
    freq[7] = 40;
    freq[200] = 1;
    freq[256] = 1;
    let table = new_optimized(freq).unwrap();
    let mut values = table.values().to_vec();
    values.sort();
    assert_eq!(values, vec![0, 3, 7, 200]);
    // The most frequent symbol gets the shortest code.
    let (l0, _) = *table.get_for_value(0);
    for v in [3u8, 7, 200] {
        assert!(table.get_for_value(v).0 >= l0);
    }
    // Symbols that do not occur get no code.
    assert_eq!(*table.get_for_value(1), (0, 0));
    // The lengths count the codes.
    let codes: usize = table.length().iter().map(|&l| l as usize).sum();
    assert_eq!(codes, 4);
}

#[test]
fn entropy_coded_0xff_is_stuffed() {
    let mut out = Vec::new();
    {
        let mut stream = DefaultBitStream::new(&mut out);
        stream.write_bits(0xFF, 8).unwrap();
        stream.write_bits(0b1, 1).unwrap();
        stream.finalize_bit_buffer().unwrap();
    }
    // 0xFF, its stuffed zero, then one bit padded with ones: 0xFF again.
    assert_eq!(out, vec![0xFF, 0x00, 0xFF, 0x00]);
}

#[test]
fn progressive_scan_counts_at_both_ends() {
    let data = small_rgb(16, 8);
    for scans in [2u8, 3, 64] {
        let mut out = Vec::new();
        let mut encoder = Encoder::new(DefaultBitStream::new(&mut out), 90);
        encoder.set_progressive_scans(scans);
        assert_eq!(encoder.progressive_scans(), Some(scans));
        encoder.encode(&data, 16, 8, ColorType::Rgb).unwrap();
        assert_eq!(&out[..2], &[0xFF, 0xD8]);
        assert_eq!(&out[out.len() - 2..], &[0xFF, 0xD9]);
        // A progressive frame header (SOF2) is written.
        assert!(out.windows(2).any(|w| w == [0xFF, 0xC2]));
    }
}
