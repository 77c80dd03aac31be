//! The ALA1 audio codec.
pub mod close_laws;
pub mod codec;
pub mod laws;
pub mod refusal_laws;
pub mod sample_laws;
pub mod syntax;

pub use crate::audio::v1::codec::{decode, encode, AudioDecoder};
use crate::bitstream::v1::BitstreamError;
use vstd::prelude::*;

verus! {

/// Four-byte packet magic.
pub const CODEC_MAGIC: [u8; 4] = [65, 76, 65, 49];

/// Transform block length in sample frames per channel.
pub const BLOCK: usize = 64;

/// Maximum sample frames accepted by a single codec packet.
pub const MAX_FRAMES: usize = 4096;

/// Errors from ALA1 packet encoding or decoding.
#[derive(Debug, Clone, Copy, PartialEq, Eq, Structural)]
pub enum AudioError {
    BadHeader,
    BadChannels,
    BadRate,
    BadFrames,
    BadQuantizer,
    UnexpectedEof,
    Bitstream(BitstreamError),
    BadCoefficient,
    SampleOverflow,
    TrailingData,
}

/// Encoder options for one ALA1 packet.
#[derive(Debug, Clone, Copy, PartialEq, Eq, Structural)]
pub struct EncodeOptions {
    /// PCM sample rate in Hz.
    pub sample_rate: u32,
    /// Interleaved channel count.
    pub channels: u8,
    /// Quantizer step. `1` selects mathematically lossless coding.
    pub qstep: u16,
    /// Enables reversible mid/side coupling for stereo input.
    pub mid_side: bool,
}

impl Default for EncodeOptions {
    fn default() -> (r: Self)
        ensures
            r == (EncodeOptions {
                sample_rate: 48_000,
                channels: 2,
                qstep: 512,
                mid_side: true,
            }),
    {
        EncodeOptions { sample_rate: 48_000, channels: 2, qstep: 512, mid_side: true }
    }
}

} // verus!
