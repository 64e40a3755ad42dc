use vstd::prelude::*;

verus! {

/// Errors that can occur while configuring the encoder or encoding an image.
#[derive(Debug, Clone, PartialEq, Eq)]
pub enum EncodingError {
    /// An app segment number is not in the range 1..=15.
    InvalidAppSegment(u8),
    /// An app segment holds more than 65534 bytes.
    AppSegmentTooLarge(usize),
    /// An ICC profile needs more than 255 chunks.
    IccTooLarge(usize),
    /// The image data is shorter than width * height * bytes per pixel.
    BadImageData { length: usize, required: usize },
    /// The width or the height of the image is zero.
    ZeroImageDimensions { width: u16, height: u16 },
    /// The byte sink refused the data.
    Write(String),
}

} // verus!
