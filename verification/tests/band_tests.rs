use jpeg_encoder::bit_stream::DefaultBitStream;
use jpeg_encoder::encoder::{ColorType, Encoder};
use jpeg_encoder::huffman::optimize::new_optimized;

/// The (Ss, Se) of every scan header in a JPEG stream.
fn scan_bands(jpeg: &[u8]) -> Vec<(u8, u8)> {
    let mut bands = Vec::new();
    let mut i = 0;
    while i + 1 < jpeg.len() {
        if jpeg[i] == 0xFF && jpeg[i + 1] == 0xDA {
            let ns = jpeg[i + 4] as usize;
            let at = i + 5 + 2 * ns;
            bands.push((jpeg[at], jpeg[at + 1]));
            i = at;
        } else {
            i += 1;
        }
    }
    bands
}

fn encode_gray_progressive(scans: u8, optimize: bool) -> Vec<u8> {
    let (w, h) = (24u16, 16u16);
    let data: Vec<u8> = (0..(w as usize * h as usize)).map(|i| (i * 37 % 256) as u8).collect();
    let mut out = Vec::new();
    let mut encoder = Encoder::new(DefaultBitStream::new(&mut out), 85);
    encoder.set_progressive_scans(scans);
    encoder.set_optimized_huffman_tables(optimize);
    encoder.encode(&data, w, h, ColorType::Luma).unwrap();
    drop(encoder);
    out
}

#[test]
fn every_ac_band_is_non_empty() {
    for scans in 2u8..=64 {
        for optimize in [false, true] {
            let bands = scan_bands(&encode_gray_progressive(scans, optimize));
            assert_eq!(bands.len(), scans as usize);
            assert_eq!(bands[0], (0, 0));
            let mut next = 1u8;
            for &(ss, se) in &bands[1..] {
                assert_eq!(ss, next, "scans {}", scans);
                assert!(ss <= se, "scans {}: empty band ({}, {})", scans, ss, se);
                next = se + 1;
            }
            assert_eq!(next, 64);
        }
    }
}

#[test]
fn bands_of_few_scans_follow_the_per_scan_split() {
    // 4 scans: 3 AC scans of 64 / 3 = 21 coefficients, the last takes the rest.
    let bands = scan_bands(&encode_gray_progressive(4, false));
    assert_eq!(bands, vec![(0, 0), (1, 20), (21, 41), (42, 63)]);
    // 64 scans: one coefficient per AC scan.
    let bands = scan_bands(&encode_gray_progressive(64, false));
    assert_eq!(bands[1], (1, 1));
    assert_eq!(bands[63], (63, 63));
}

#[test]
fn fibonacci_counts_exceed_the_code_length_limit() {
    let mut freq = [0u64; 257];
    // 1, 2, 3, 5, 8, ... over 33 symbols: the merge makes a 33-bit code.
    let (mut a, mut b) = (1u64, 2u64);
    for s in 0..33 {
        freq[s] = a;
        let c = a + b;
        a = b;
        b = c;
    }
    freq[256] = 1;
    assert!(new_optimized(freq).is_none());
}

#[test]
fn fibonacci_counts_within_the_code_length_limit() {
    let mut freq = [0u64; 257];
    let (mut a, mut b) = (1u64, 2u64);
    for s in 0..32 {
        freq[s] = a;
        let c = a + b;
        a = b;
        b = c;
    }
    freq[256] = 1;
    let table = new_optimized(freq).unwrap();
    assert_eq!(table.values().len(), 32);
}
