use vstd::prelude::*;

verus! {

/// The kinds of start-of-frame markers.
#[derive(Clone, Copy, Debug, PartialEq, Eq)]
pub enum SOFType {
    /// SOF(0)
    BaselineDCT,
    /// SOF(1)
    ExtendedSequentialDCT,
    /// SOF(2)
    ProgressiveDCT,
    /// SOF(3)
    LosslessSequential,
}

/// A JPEG marker; its code follows an 0xFF byte in the file.
#[derive(Clone, Copy, Debug, PartialEq, Eq)]
pub enum Marker {
    ZERO,
    /// Start Of Frame markers
    SOF(SOFType),
    /// Define Huffman table
    DHT,
    /// Start of image
    SOI,
    /// End of image
    EOI,
    /// Start of scan
    SOS,
    /// Define quantization table
    DQT,
    /// Define restart interval
    DRI,
    /// Reset marker (0..=7)
    RST(u8),
    /// Application segment (0..=15)
    APP(u8),
    /// Comment
    COM,
}

/// The markers whose code fits in a byte.
pub open spec fn marker_valid(m: Marker) -> bool {
    match m {
        Marker::RST(v) => v < 8,
        Marker::APP(v) => v < 16,
        _ => true,
    }
}

/// The code of a marker.
pub open spec fn marker_code(m: Marker) -> u8 {
    match m {
        Marker::ZERO => 0x00,
        Marker::SOF(SOFType::BaselineDCT) => 0xC0,
        Marker::SOF(SOFType::ExtendedSequentialDCT) => 0xC1,
        Marker::SOF(SOFType::ProgressiveDCT) => 0xC2,
        Marker::SOF(SOFType::LosslessSequential) => 0xC3,
        Marker::DHT => 0xC4,
        Marker::SOI => 0xD8,
        Marker::EOI => 0xD9,
        Marker::SOS => 0xDA,
        Marker::DQT => 0xDB,
        Marker::DRI => 0xDD,
        Marker::RST(v) => (0xD0 + v) as u8,
        Marker::APP(v) => (0xE0 + v) as u8,
        Marker::COM => 0xFE,
    }
}

impl Marker {
    /// The code byte of this marker.
    pub fn code(self) -> (c: u8)
        requires
            marker_valid(self),
        ensures
            c == marker_code(self),
    {
        match self {
            Marker::ZERO => 0x00,
            Marker::SOF(SOFType::BaselineDCT) => 0xC0,
            Marker::SOF(SOFType::ExtendedSequentialDCT) => 0xC1,
            Marker::SOF(SOFType::ProgressiveDCT) => 0xC2,
            Marker::SOF(SOFType::LosslessSequential) => 0xC3,
            Marker::DHT => 0xC4,
            Marker::SOI => 0xD8,
            Marker::EOI => 0xD9,
            Marker::SOS => 0xDA,
            Marker::DQT => 0xDB,
            Marker::DRI => 0xDD,
            Marker::RST(v) => 0xD0 + v,
            Marker::APP(v) => 0xE0 + v,
            Marker::COM => 0xFE,
        }
    }
}

} // verus!
