//! The ALV1 video codec.
pub mod blocks;
pub mod choice;
pub mod close_laws;
pub mod decision_laws;
pub mod decoder;
pub mod encoder;
pub mod extent;
pub mod frame;
pub mod history;
pub mod packets;
pub mod picture_laws;
pub mod prediction;
pub mod refusal_laws;
pub mod search;
pub mod syntax;
pub mod token_laws;
pub mod writing;

use crate::bitstream::v1::BitstreamError;
pub use crate::video::v1::decoder::decode;
pub use crate::video::v1::frame::Frame420;
pub use crate::video::v1::history::{SharedEncodedFrame, VideoDecoder, VideoEncoder};
pub use crate::video::v1::packets::encode;
use vstd::prelude::*;

verus! {

/// Errors from ALV1 frame validation, encoding, or decoding.
#[derive(Debug, Clone, Copy, PartialEq, Eq, Structural)]
pub enum VideoError {
    /// Frame dimensions are zero, odd, too large, or not those that the stream declares.
    BadDimensions,
    /// One or more planes do not have the exact length implied by the frame dimensions.
    PlaneLength,
    /// A packet ended before all required syntax could be read.
    UnexpectedEof,
    /// The frame header, reserved fields, ids, or other header-level invariants are invalid.
    BadHeader,
    /// A block uses an unknown or invalid prediction mode.
    BadMode,
    /// The quantizer is outside the valid range.
    BadQuantizer,
    /// A referenced frame id is not present in the decoder's current history.
    ReferenceMissing(u64),
    /// A reference frame has dimensions incompatible with the frame being processed.
    ReferenceShape,
    /// Entropy or varint syntax failed.
    Bitstream(BitstreamError),
    /// Coefficient syntax is malformed or outside defensive numeric bounds.
    BadCoefficient,
    /// Palette syntax is malformed.
    BadPalette,
    /// A complete packet is followed by further bytes.
    TrailingData,
    /// Decoding would exceed a configured ceiling.
    OutputTooLarge,
}

/// Encoder search policy.
#[derive(Debug, Clone, Copy, PartialEq, Eq, Structural)]
pub enum EncoderPreset {
    /// Minimize search work; intended for interactive or throughput-sensitive encoding.
    Fast,
    /// Coarse-to-fine integer motion search over the whole radius plus half-sample refinement;
    /// alternatives are compared where they are close.
    Balanced,
    /// Exhaustive configured-radius integer search before half-sample refinement; alternatives are
    /// always compared.
    Quality,
}

impl Default for EncoderPreset {
    fn default() -> (r: Self)
        ensures
            r == EncoderPreset::Balanced,
    {
        EncoderPreset::Balanced
    }
}

/// Encoder search options.
#[derive(Debug, Clone, Copy, PartialEq, Eq, Structural)]
pub struct EncodeOptions {
    /// Quantizer step. `1` selects mathematically lossless residual coding.
    pub qstep: u16,
    /// Integer-pixel motion-search radius before half-sample refinement.
    pub motion_radius: u8,
    /// Maximum reference frames considered by the encoder.
    pub max_refs: u8,
    /// Motion and mode search policy.
    pub preset: EncoderPreset,
    /// Whether exact small-palette blocks may be considered.
    pub allow_palette: bool,
}

impl EncodeOptions {
    /// Builds the standard search configuration for one preset and caller-selected quantizer.
    pub fn for_preset(qstep: u16, preset: EncoderPreset) -> (r: Self)
        ensures
            r.qstep == qstep,
            r.preset == preset,
            r.allow_palette,
            (r.motion_radius, r.max_refs) == (match preset {
                EncoderPreset::Fast => (2u8, 1u8),
                EncoderPreset::Balanced => (4u8, 1u8),
                EncoderPreset::Quality => (5u8, 4u8),
            }),
    {
        let (motion_radius, max_refs): (u8, u8) = match preset {
            EncoderPreset::Fast => (2, 1),
            EncoderPreset::Balanced => (4, 1),
            EncoderPreset::Quality => (5, 4),
        };
        EncodeOptions { qstep, motion_radius, max_refs, preset, allow_palette: true }
    }
}

impl Default for EncodeOptions {
    fn default() -> (r: Self)
        ensures
            r == (EncodeOptions {
                qstep: 96,
                motion_radius: 4,
                max_refs: 1,
                preset: EncoderPreset::Balanced,
                allow_palette: true,
            }),
    {
        EncodeOptions {
            qstep: 96,
            motion_radius: 4,
            max_refs: 1,
            preset: EncoderPreset::Balanced,
            allow_palette: true,
        }
    }
}

/// Result of encoding one ALV1 frame.
#[derive(Debug)]
pub struct EncodedFrame {
    /// Complete ALV1 frame packet payload.
    pub packet: Vec<u8>,
    /// Encoder reconstruction, suitable for future reference prediction.
    pub reconstructed: Frame420,
    /// Exact immutable frame ids needed to decode this packet.
    pub dependencies: Vec<u64>,
}

} // verus!
