//! Assembly of media files from frames and samples.
pub mod assemble;
pub mod av;
pub mod coder;
pub mod epoch;
pub mod setting_laws;
pub mod streaming;
pub mod video;

use crate::audio;
use crate::audio::v1::AudioError;
use crate::container::v1;
use crate::container::v1::{ChromaLocation, ContainerError, StreamDesc, StreamKind, VideoMeta, TIMEBASE};
use crate::limits::Limits;
use crate::video::v1::{EncodeOptions, EncoderPreset, VideoError};
use vstd::prelude::*;

verus! {

/// Why media cannot be assembled.
#[derive(Debug, Clone, Copy, PartialEq, Eq, Structural)]
pub enum MuxError {
    /// Video dimensions must be non-zero and even for 4:2:0.
    Dimensions,
    /// Video dimensions exceed the frame-pixel limit.
    TooManyPixels,
    /// A packed frame rate must contain a non-zero 16-bit numerator and denominator.
    FrameRate,
    /// The video quantizer step must be greater than zero.
    VideoQuantizer,
    /// The epoch frame count must be greater than zero.
    EpochLength,
    /// Invalid packed video metadata.
    Metadata(ContainerError),
    /// The frame rate cannot be represented by the microsecond timebase.
    Timebase,
    /// The audio channel count must be at most eight.
    ChannelCount,
    /// The audio sample rate must be greater than zero when audio is enabled.
    AudioRate,
    /// The audio channel count must be in 1..=8 when audio is enabled.
    AudioChannels,
    /// The audio quantizer step must be greater than zero when audio is enabled.
    AudioQuantizer,
    /// The frame does not fit the address space.
    AddressSpace,
    /// The encoder is already finished.
    Finished,
    /// A frame timestamp overflows.
    FrameTimestamp,
    /// The frame index overflows.
    FrameIndex,
    /// An epoch timestamp overflows.
    EpochTimestamp,
    /// An epoch duration exceeds the 32-bit range.
    EpochDuration,
    /// Epoch identifiers are used up.
    EpochIdentifier,
    /// An epoch frame index overflows.
    EpochIndex,
    /// The frame range of an epoch is not one of pending frames.
    EpochRange,
    /// Media without video frames cannot be finished.
    Empty,
    /// Audio is disabled for this encoder.
    AudioDisabled,
    /// An audio staging request is too large.
    AudioStaging,
    /// The audio length does not match the staging buffer.
    AudioLength,
    /// The audio sample count is not aligned to the channels.
    AudioAlignment,
    /// An audio timestamp overflows.
    AudioTimestamp,
    /// The audio frame index overflows.
    AudioIndex,
    /// An epoch was finalized before enough audio arrived.
    AudioMissing,
    /// The container output is too long.
    OutputLength,
    /// The front index exceeds 32 bits.
    FrontLength,
    /// Video coding failed.
    Video(VideoError),
    /// Audio coding failed.
    Audio(AudioError),
    /// Packet or file building failed.
    Container(ContainerError),
}

/// A frame rate packed into one word: the numerator above, the denominator below.
pub open spec fn rate_of(fps_flags: u32) -> (int, int) {
    (fps_flags as int / 65536, fps_flags as int % 65536)
}

/// The duration of a frame in microseconds.
pub open spec fn frame_duration(fps_flags: u32) -> int {
    1_000_000 * rate_of(fps_flags).1 / rate_of(fps_flags).0
}

/// Why a video configuration is refused, if it is.
pub open spec fn video_error(
    width: u32,
    height: u32,
    fps_flags: u32,
    qstep: u16,
    epoch_frames: u64,
    meta0: u32,
) -> Option<MuxError> {
    if width == 0 || height == 0 || width % 2 != 0 || height % 2 != 0 {
        Some(MuxError::Dimensions)
    } else if width * height > 67_108_864 {
        Some(MuxError::TooManyPixels)
    } else if rate_of(fps_flags).0 == 0 || rate_of(fps_flags).1 == 0 {
        Some(MuxError::FrameRate)
    } else if qstep == 0 {
        Some(MuxError::VideoQuantizer)
    } else if epoch_frames == 0 {
        Some(MuxError::EpochLength)
    } else if !v1::meta_ok(meta0 as int) {
        Some(MuxError::Metadata(ContainerError::BadFront))
    } else if frame_duration(fps_flags) == 0 || frame_duration(fps_flags) > u32::MAX {
        Some(MuxError::Timebase)
    } else {
        None
    }
}

/// Why an audio configuration is refused, if it is. A rate and a channel count of zero mean that
/// there is no audio.
pub open spec fn audio_error(rate: u32, channels: u32, qstep: u16) -> Option<MuxError> {
    if channels > 255 {
        Some(MuxError::ChannelCount)
    } else if rate == 0 && channels == 0 {
        None
    } else if rate == 0 {
        Some(MuxError::AudioRate)
    } else if channels == 0 || channels > 8 {
        Some(MuxError::AudioChannels)
    } else if qstep == 0 {
        Some(MuxError::AudioQuantizer)
    } else {
        None
    }
}

/// A validated configuration.
#[derive(Debug, Clone, Copy, PartialEq, Eq, Structural)]
pub struct Settings {
    pub width: u32,
    pub height: u32,
    pub fps_flags: u32,
    pub meta0: u32,
    /// Duration of a frame in microseconds.
    pub frame_us: u64,
    pub epoch_frames: u64,
    pub options: EncodeOptions,
    /// Bytes of one tightly packed frame.
    pub frame_bytes: usize,
    pub audio: Option<AudioTrack>,
}

/// How audio is coded.
#[derive(Debug, Clone, Copy, PartialEq, Eq, Structural)]
pub struct AudioTrack {
    pub rate: u32,
    pub channels: u8,
    pub qstep: u16,
}

impl AudioTrack {
    pub open spec fn wf(self) -> bool {
        self.rate > 0 && 1 <= self.channels <= 8
    }

    pub open spec fn options(self) -> audio::v1::EncodeOptions {
        audio::v1::EncodeOptions {
            sample_rate: self.rate,
            channels: self.channels,
            qstep: self.qstep,
            mid_side: self.channels == 2,
        }
    }

    /// Coding options of one packet; stereo is coupled.
    pub fn encode_options(self) -> (r: audio::v1::EncodeOptions)
        ensures
            r == self.options(),
    {
        audio::v1::EncodeOptions {
            sample_rate: self.rate,
            channels: self.channels,
            qstep: self.qstep,
            mid_side: self.channels == 2,
        }
    }
}

impl Settings {
    pub open spec fn wf(&self) -> bool {
        &&& 1 <= self.frame_us <= u32::MAX
        &&& self.epoch_frames >= 1
        &&& v1::meta_ok(self.meta0 as int)
        &&& self.frame_bytes == self.width * self.height + self.width * self.height / 2
        &&& self.audio matches Some(track) ==> track.wf()
    }

    /// The streams of the file.
    pub open spec fn stream_list(&self) -> Seq<StreamDesc> {
        let picture = StreamDesc {
            id: 1,
            kind: StreamKind::Video,
            codec: 1,
            timescale: 1_000_000,
            param0: self.width,
            param1: self.height,
            flags: self.fps_flags,
            meta0: self.meta0,
        };
        match self.audio {
            None => seq![picture],
            Some(track) => seq![picture, audio_stream(track)],
        }
    }

    /// Validates a configuration.
    pub fn new(
        width: u32,
        height: u32,
        fps_flags: u32,
        video_qstep: u16,
        preset: EncoderPreset,
        epoch_frames: u64,
        meta0: u32,
        audio_rate: u32,
        audio_channels: u32,
        audio_qstep: u16,
    ) -> (r: Result<Self, MuxError>)
        ensures
            match video_error(width, height, fps_flags, video_qstep, epoch_frames, meta0) {
                Some(e) => r == Err::<Self, MuxError>(e),
                None => match audio_error(audio_rate, audio_channels, audio_qstep) {
                    Some(e) => r == Err::<Self, MuxError>(e),
                    None => match r {
                        Err(e) => e == MuxError::AddressSpace && width * height + width * height / 2
                            > usize::MAX,
                        Ok(s) => {
                            &&& s.wf()
                            &&& s.width == width
                            &&& s.height == height
                            &&& s.fps_flags == fps_flags
                            &&& s.meta0 == meta0
                            &&& s.frame_us == frame_duration(fps_flags)
                            &&& s.epoch_frames == epoch_frames
                            &&& s.options == preset_options(video_qstep, preset)
                            &&& s.audio == if audio_rate == 0 {
                                None::<AudioTrack>
                            } else {
                                Some(
                                    AudioTrack {
                                        rate: audio_rate,
                                        channels: audio_channels as u8,
                                        qstep: audio_qstep,
                                    },
                                )
                            }
                        },
                    },
                },
            },
    {
        if width == 0 || height == 0 || width % 2 != 0 || height % 2 != 0 {
            return Err(MuxError::Dimensions);
        }
        proof {
            assert(0 <= width * height <= 0xffff_ffff * 0xffff_ffff) by (nonlinear_arith)
                requires
                    0 <= width <= 0xffff_ffff,
                    0 <= height <= 0xffff_ffff,
            ;
        }
        let pixels: u64 = width as u64 * height as u64;
        let limits: Limits = Limits::default();
        if pixels > limits.max_frame_pixels {
            return Err(MuxError::TooManyPixels);
        }
        let fps_n: u32 = fps_flags / 65536;
        let fps_d: u32 = fps_flags % 65536;
        if fps_n == 0 || fps_d == 0 {
            return Err(MuxError::FrameRate);
        }
        if video_qstep == 0 {
            return Err(MuxError::VideoQuantizer);
        }
        if epoch_frames == 0 {
            return Err(MuxError::EpochLength);
        }
        match VideoMeta::unpack(meta0) {
            Ok(_) => {},
            Err(e) => {
                return Err(MuxError::Metadata(e));
            },
        }
        let frame_us: u64 = 1_000_000 * fps_d as u64 / fps_n as u64;
        if frame_us == 0 || frame_us > 0xffff_ffff {
            return Err(MuxError::Timebase);
        }
        if audio_channels > 255 {
            return Err(MuxError::ChannelCount);
        }
        if audio_rate != 0 || audio_channels != 0 {
            if audio_rate == 0 {
                return Err(MuxError::AudioRate);
            }
            if audio_channels == 0 || audio_channels > 8 {
                return Err(MuxError::AudioChannels);
            }
            if audio_qstep == 0 {
                return Err(MuxError::AudioQuantizer);
            }
        }
        let bytes: u64 = pixels + pixels / 2;
        if bytes > usize::MAX as u64 {
            return Err(MuxError::AddressSpace);
        }
        Ok(
            Settings {
                width,
                height,
                fps_flags,
                meta0,
                frame_us,
                epoch_frames,
                options: EncodeOptions::for_preset(video_qstep, preset),
                frame_bytes: bytes as usize,
                audio: if audio_rate == 0 {
                    None
                } else {
                    Some(
                        AudioTrack {
                            rate: audio_rate,
                            channels: audio_channels as u8,
                            qstep: audio_qstep,
                        },
                    )
                },
            },
        )
    }

    /// The streams of the file.
    pub fn streams(&self) -> (r: Vec<StreamDesc>)
        ensures
            r@ == self.stream_list(),
    {
        let mut r: Vec<StreamDesc> = vec![StreamDesc {
            id: 1,
            kind: StreamKind::Video,
            codec: 1,
            timescale: TIMEBASE,
            param0: self.width,
            param1: self.height,
            flags: self.fps_flags,
            meta0: self.meta0,
        }];
        match self.audio {
            None => {},
            Some(track) => {
                r.push(track.stream());
            },
        }
        assert(r@ =~= self.stream_list());
        r
    }
}

/// The options of a preset.
pub open spec fn preset_options(qstep: u16, preset: EncoderPreset) -> EncodeOptions {
    EncodeOptions {
        qstep,
        motion_radius: match preset {
            EncoderPreset::Fast => 2,
            EncoderPreset::Balanced => 4,
            EncoderPreset::Quality => 5,
        },
        max_refs: match preset {
            EncoderPreset::Fast => 1,
            EncoderPreset::Balanced => 1,
            EncoderPreset::Quality => 4,
        },
        preset,
        allow_palette: true,
    }
}

/// The descriptor of an audio stream.
pub open spec fn audio_stream(track: AudioTrack) -> StreamDesc {
    StreamDesc {
        id: 2,
        kind: StreamKind::Audio,
        codec: 1,
        timescale: 1_000_000,
        param0: track.rate,
        param1: track.channels as u32,
        flags: 0,
        meta0: 0,
    }
}

impl AudioTrack {
    /// The descriptor of the stream.
    pub fn stream(self) -> (r: StreamDesc)
        ensures
            r == audio_stream(self),
    {
        StreamDesc {
            id: 2,
            kind: StreamKind::Audio,
            codec: 1,
            timescale: TIMEBASE,
            param0: self.rate,
            param1: self.channels as u32,
            flags: 0,
            meta0: 0,
        }
    }
}

/// Packs chroma location (`0` unspecified, `1` left, `2` center) and a full-range flag into the
/// video metadata field. Returns `u32::MAX` for an unknown chroma location.
pub fn video_encoder_pack_meta0(chroma_location: u32, full_range: u32) -> (r: u32)
    ensures
        r == if chroma_location > 2 {
            0xffff_ffff
        } else {
            8192 * chroma_location + if full_range != 0 {
                4096int
            } else {
                0
            }
        },
{
    let chroma: ChromaLocation = match chroma_location {
        0 => ChromaLocation::Unspecified,
        1 => ChromaLocation::Left,
        2 => ChromaLocation::Center,
        _ => {
            return 0xffff_ffff;
        },
    };
    let mut meta: VideoMeta = VideoMeta::default();
    meta.chroma = chroma;
    meta.full_range = full_range != 0;
    meta.pack()
}

} // verus!
