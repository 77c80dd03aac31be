//! Clips of frames, and the files that they become and are read from.
pub mod av_laws;
pub mod damage_laws;
pub mod decode;
pub mod encode;
pub mod examine;
pub mod handed_laws;
pub mod index_laws;
pub mod laws;
pub mod making_laws;
pub mod mutation;
pub mod pcm;
pub mod playback;
pub mod probe;
pub mod probe_laws;
pub mod reading_laws;
pub mod reference_laws;
pub mod reindex;
pub mod scene;
pub mod scene_laws;
pub mod sound_laws;
pub mod stream_laws;
pub mod text;
pub mod time_laws;
pub mod vector_laws;
pub mod vectors;
pub mod word_laws;
pub mod y4m;
pub mod y4m_laws;

use crate::audio::v1::AudioError;
use crate::container::v1::ContainerError;
use crate::reference;
use crate::reference::frame::Frame420;
use crate::video::v1::syntax;
use crate::video::v1::{EncodeOptions, EncoderPreset, VideoError};
use vstd::prelude::*;

verus! {

/// Which codecs do the work.
#[derive(Debug, Clone, Copy, PartialEq, Eq, Structural)]
pub enum Backend {
    Production,
    Reference,
}

/// Why media cannot be written or read.
#[derive(Debug, Clone, Copy, PartialEq, Eq, Structural)]
pub enum MediaError {
    /// The epoch length must be greater than zero.
    EpochLength,
    /// A timestamp does not fit 64 bits.
    Timestamp,
    /// A frame cannot be handed to the production encoder.
    Conversion(VideoError),
    /// This frame cannot be coded.
    VideoEncode(u64, VideoError),
    /// Samples cannot be coded.
    AudioEncode(AudioError),
    /// A packet cannot be framed.
    PacketEncode(ContainerError),
    /// The file cannot be built.
    Build(ContainerError),
    /// The file is too long.
    OutputLength,
    /// The file does not start as it should.
    Prefix(ContainerError),
    /// The packet at this position is refused.
    PacketAt(usize, ContainerError),
    /// There is no video stream.
    NoVideo,
    /// A video packet cannot be decoded.
    VideoDecode(VideoError),
    /// A video packet cannot be decoded by the reference decoder.
    ReferenceDecode(reference::video_decoder::Error),
    /// An audio packet cannot be decoded.
    AudioDecode(AudioError),
    /// The audio format changes in mid-stream.
    AudioFormat,
    /// No packet could be recovered.
    NothingRecovered,
    /// The two decoders disagree about this frame.
    Mismatch(u64),
    /// Lossless video did not come back.
    LosslessVideo,
    /// Lossless audio did not come back.
    LosslessAudio,
}

/// Frames in sequence, and how they are shown.
#[derive(Debug, PartialEq, Eq)]
pub struct Clip {
    pub width: u32,
    pub height: u32,
    pub fps_n: u32,
    pub fps_d: u32,
    /// Packed video metadata.
    pub meta0: u32,
    pub frames: Vec<Frame420>,
}

/// What a clip is.
#[verifier::ext_equal]
pub struct ClipModel {
    pub width: u32,
    pub height: u32,
    pub fps_n: u32,
    pub fps_d: u32,
    pub meta0: u32,
    pub frames: Seq<syntax::Picture>,
}

/// What frames show.
pub open spec fn pictures(frames: Seq<Frame420>) -> Seq<syntax::Picture> {
    Seq::new(frames.len(), |i: int| frames[i].picture())
}

impl Clip {
    pub open spec fn model(&self) -> ClipModel {
        ClipModel {
            width: self.width,
            height: self.height,
            fps_n: self.fps_n,
            fps_d: self.fps_d,
            meta0: self.meta0,
            frames: pictures(self.frames@),
        }
    }
}

// ---------------------------------------------------------------------------------------------
// Rates

pub open spec fn least(a: int, b: int) -> int {
    if a < b {
        a
    } else {
        b
    }
}

pub open spec fn most(a: int, b: int) -> int {
    if a > b {
        a
    } else {
        b
    }
}

/// Packs a frame rate into one word: numerator above, denominator below, each cut to 16 bits.
pub fn fps_flags(n: u32, d: u32) -> (r: u32)
    ensures
        r == least(n as int, 65535) * 65536 + least(d as int, 65535),
{
    let n: u32 = if n < 65535 {
        n
    } else {
        65535
    };
    let d: u32 = if d < 65535 {
        d
    } else {
        65535
    };
    n * 65536 + d
}

/// A packed frame rate, with one for each half that is zero.
pub open spec fn unpacked_rate(v: u32) -> (int, int) {
    (most(v as int / 65536, 1), most(v as int % 65536, 1))
}

/// Unpacks a frame rate; a half that is zero counts as one.
pub fn fps_from_flags(v: u32) -> (r: (u32, u32))
    ensures
        (r.0 as int, r.1 as int) == unpacked_rate(v),
{
    let n: u32 = v / 65536;
    let d: u32 = v % 65536;
    (
        if n > 1 {
            n
        } else {
            1
        },
        if d > 1 {
            d
        } else {
            1
        },
    )
}

/// A frame rate of 16-bit halves, neither zero, comes back from its word.
pub proof fn law_rate_round_trip(n: u32, d: u32)
    requires
        1 <= n <= 65535,
        1 <= d <= 65535,
    ensures
        unpacked_rate((least(n as int, 65535) * 65536 + least(d as int, 65535)) as u32) == (
            n as int,
            d as int,
        ),
{
}

/// Two seconds of frames, or one frame.
pub fn default_epoch_frames(fps_n: u32, fps_d: u32) -> (r: u64)
    ensures
        r == most(fps_n as int / most(fps_d as int, 1) * 2, 1),
        fps_n >= fps_d > 0 ==> r % 2 == 0 && r / 2 * fps_d <= fps_n < (r / 2 + 1) * fps_d,
        fps_n < fps_d ==> r == 1,
{
    let d: u32 = if fps_d > 1 {
        fps_d
    } else {
        1
    };
    let n: u64 = (fps_n / d) as u64 * 2;
    proof {
        vstd::arithmetic::div_mod::lemma_fundamental_div_mod(fps_n as int, d as int);
        vstd::arithmetic::div_mod::lemma_mod_bound(fps_n as int, d as int);
        let t = fps_n as int / d as int;
        assert(d * t == t * d) by (nonlinear_arith);
        assert((t + 1) * d == t * d + d) by (nonlinear_arith);
        assert(fps_n >= d ==> t >= 1) by (nonlinear_arith)
            requires
                fps_n < t * d + d,
                d >= 1,
        ;
        assert(fps_n < d ==> t < 1) by (nonlinear_arith)
            requires
                t * d <= fps_n,
                d >= 1,
        ;
    }
    if n > 1 {
        n
    } else {
        1
    }
}

/// The duration of a frame in microseconds.
pub open spec fn frame_duration(fps_n: u32, fps_d: u32) -> int {
    1_000_000 * fps_d as int / most(fps_n as int, 1)
}

// ---------------------------------------------------------------------------------------------
// Options

/// The reference encoder's options for a preset.
pub fn preset(name: EncoderPreset, q: u16) -> (r: reference::video_encoder::EncodeOptions)
    ensures
        r == reference_options(name, q),
{
    match name {
        EncoderPreset::Fast => reference::video_encoder::EncodeOptions {
            qstep: q,
            motion_radius: 2,
            max_refs: 1,
            allow_palette: true,
        },
        EncoderPreset::Quality => reference::video_encoder::EncodeOptions {
            qstep: q,
            motion_radius: 5,
            max_refs: 4,
            allow_palette: true,
        },
        EncoderPreset::Balanced => reference::video_encoder::EncodeOptions {
            qstep: q,
            motion_radius: 4,
            max_refs: 1,
            allow_palette: true,
        },
    }
}

/// The reference encoder's options for a preset.
pub open spec fn reference_options(
    name: EncoderPreset,
    q: u16,
) -> reference::video_encoder::EncodeOptions {
    reference::video_encoder::EncodeOptions {
        qstep: q,
        motion_radius: match name {
            EncoderPreset::Fast => 2,
            EncoderPreset::Quality => 5,
            EncoderPreset::Balanced => 4,
        },
        max_refs: if name == EncoderPreset::Quality {
            4
        } else {
            1
        },
        allow_palette: true,
    }
}

/// The production encoder's options that go with options of the reference encoder: the preset
/// follows from how far the search reaches.
pub open spec fn production_options(v: reference::video_encoder::EncodeOptions) -> EncodeOptions {
    EncodeOptions {
        qstep: v.qstep,
        motion_radius: v.motion_radius,
        max_refs: v.max_refs,
        preset: if v.max_refs >= 4 || v.motion_radius >= 5 {
            EncoderPreset::Quality
        } else if v.motion_radius <= 2 {
            EncoderPreset::Fast
        } else {
            EncoderPreset::Balanced
        },
        allow_palette: v.allow_palette,
    }
}

/// The production encoder's options that go with options of the reference encoder.
pub fn prod_voptions(v: reference::video_encoder::EncodeOptions) -> (r: EncodeOptions)
    ensures
        r == production_options(v),
{
    EncodeOptions {
        qstep: v.qstep,
        motion_radius: v.motion_radius,
        max_refs: v.max_refs,
        preset: if v.max_refs >= 4 || v.motion_radius >= 5 {
            EncoderPreset::Quality
        } else if v.motion_radius <= 2 {
            EncoderPreset::Fast
        } else {
            EncoderPreset::Balanced
        },
        allow_palette: v.allow_palette,
    }
}

/// A preset means the same wherever it is named.
pub proof fn law_presets_agree(name: EncoderPreset, q: u16)
    ensures
        production_options(reference_options(name, q)) == crate::mux::preset_options(q, name),
{
}

} // verus!
