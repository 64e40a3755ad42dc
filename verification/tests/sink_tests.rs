use jpeg_encoder::bit_stream::{ByteSink, DefaultBitStream, SinkWriter};
use jpeg_encoder::encoder::{ColorType, Encoder};
use jpeg_encoder::EncodingError;
use std::cell::RefCell;
use std::rc::Rc;

/// Accepts a fixed number of writes, then refuses every further one.
struct LimitedSink {
    accepted: Rc<RefCell<Vec<u8>>>,
    writes_left: usize,
}

impl ByteSink for LimitedSink {
    fn write_bytes(&mut self, buf: &[u8]) -> Result<(), EncodingError> {
        if self.writes_left == 0 {
            return Err(EncodingError::Write("sink full".to_string()));
        }
        self.writes_left -= 1;
        self.accepted.borrow_mut().extend_from_slice(buf);
        Ok(())
    }
}

fn gray_image() -> (Vec<u8>, u16, u16) {
    let (w, h) = (20u16, 12u16);
    let data: Vec<u8> = (0..(w as usize * h as usize)).map(|i| (i * 7 % 256) as u8).collect();
    (data, w, h)
}

#[test]
fn refused_write_is_reported() {
    let (data, w, h) = gray_image();
    let sink = LimitedSink { accepted: Rc::new(RefCell::new(Vec::new())), writes_left: 3 };
    let mut encoder = Encoder::new(DefaultBitStream::new(SinkWriter::new(sink)), 90);
    let r = encoder.encode(&data, w, h, ColorType::Luma);
    assert_eq!(r, Err(EncodingError::Write("sink full".to_string())));
}

#[test]
fn sink_that_accepts_everything_matches_vec_output() {
    let (data, w, h) = gray_image();

    let mut out = Vec::new();
    let mut by_vec = Encoder::new(DefaultBitStream::new(&mut out), 90);
    by_vec.encode(&data, w, h, ColorType::Luma).unwrap();

    let accepted = Rc::new(RefCell::new(Vec::new()));
    let sink = LimitedSink { accepted: accepted.clone(), writes_left: usize::MAX };
    let mut by_sink = Encoder::new(DefaultBitStream::new(SinkWriter::new(sink)), 90);
    by_sink.encode(&data, w, h, ColorType::Luma).unwrap();

    drop(by_vec);
    assert!(out.len() > 4);
    assert_eq!(&out[..2], &[0xFF, 0xD8]);
    assert_eq!(&out[out.len() - 2..], &[0xFF, 0xD9]);
    assert_eq!(*accepted.borrow(), out);
}

#[test]
fn vec_stream_encodes_every_color_type() {
    let (w, h) = (9u16, 7u16);
    for (ct, bpp) in [
        (ColorType::Luma, 1usize),
        (ColorType::Rgb, 3),
        (ColorType::Rgba, 4),
        (ColorType::Bgr, 3),
        (ColorType::Bgra, 4),
        (ColorType::Ycbcr, 3),
        (ColorType::Cmyk, 4),
        (ColorType::CmykAsYcck, 4),
        (ColorType::Ycck, 4),
    ] {
        let data: Vec<u8> = (0..(w as usize * h as usize * bpp)).map(|i| (i * 13 % 256) as u8).collect();
        let mut out = Vec::new();
        let mut encoder = Encoder::new(DefaultBitStream::new(&mut out), 75);
        assert_eq!(encoder.encode(&data, w, h, ct), Ok(()));
    }
}
