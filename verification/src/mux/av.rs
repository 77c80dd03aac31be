//! Encoder of files with video and audio that keeps everything until the end.
use crate::bytes::put_slice;
use crate::container::v1::syntax;
use crate::container::v1::wire;
use crate::container::v1::{Packet, PacketKind, StreamDesc};
use crate::mux::assemble;
use crate::mux::coder;
use crate::mux::coder::FrameCoder;
use crate::mux::epoch;
use crate::mux::epoch::{encode_audio_packets, write_epoch, EncodedFrame};
use crate::mux::{AudioTrack, MuxError, Settings};
use crate::video::v1::EncoderPreset;
use vstd::prelude::*;

verus! {

/// Codes frames as they come, collects samples, and cuts both into epochs at the end.
#[derive(Debug)]
pub struct AvEncoderState {
    pub video: FrameCoder,
    pub encoded_video: Vec<EncodedFrame>,
    pub audio_staging: Vec<i16>,
    pub audio_samples: Vec<i16>,
    pub output: Vec<u8>,
    pub finished: bool,
}

/// The state of the encoder.
#[verifier::ext_equal]
pub struct AvModel {
    pub coding: coder::Coding,
    pub video: Seq<syntax::PacketModel>,
    pub staging: Seq<i16>,
    pub samples: Seq<i16>,
    pub output: Seq<u8>,
    pub finished: bool,
}

pub open spec fn at_most(a: int, b: int) -> int {
    if a < b {
        a
    } else {
        b
    }
}

/// A list cut or filled with zeros to a length.
pub open spec fn resized(s: Seq<i16>, n: int) -> Seq<i16> {
    Seq::new(
        n as nat,
        |i: int|
            if i < s.len() {
                s[i]
            } else {
                0
            },
    )
}

/// Why a staging buffer is refused, if it is.
pub open spec fn reserve_error(
    finished: bool,
    audio: Option<AudioTrack>,
    count: int,
    most: int,
) -> Option<MuxError> {
    if finished {
        Some(MuxError::Finished)
    } else if audio is None {
        Some(MuxError::AudioDisabled)
    } else if count > most {
        Some(MuxError::AudioStaging)
    } else {
        None
    }
}

/// Why staged samples are refused, if they are.
pub open spec fn stage_error(audio: Option<AudioTrack>, count: int, staged: int) -> Option<MuxError> {
    match audio {
        None => Some(MuxError::AudioDisabled),
        Some(track) => if count != staged {
            Some(MuxError::AudioLength)
        } else if count % track.channels as int != 0 {
            Some(MuxError::AudioAlignment)
        } else {
            None
        },
    }
}

impl AvModel {
    pub open spec fn start(settings: Settings) -> AvModel {
        AvModel {
            coding: coder::Coding::start(settings),
            video: Seq::empty(),
            staging: Seq::empty(),
            samples: Seq::empty(),
            output: Seq::empty(),
            finished: false,
        }
    }

    /// The coding state of the next frame: the first frame of an epoch is predicted from nothing.
    pub open spec fn ready(self, settings: Settings) -> coder::Coding {
        if self.coding.frame_index > 0 && self.coding.frame_index as int % settings.epoch_frames as int
            == 0 {
            coder::Coding { references: Seq::empty(), ..self.coding }
        } else {
            self.coding
        }
    }

    /// Why a frame is refused, if it is.
    pub open spec fn push_error(self, settings: Settings) -> Option<MuxError> {
        if self.finished {
            Some(MuxError::Finished)
        } else {
            self.ready(settings).error(settings)
        }
    }

    /// The state after a frame, coded or refused.
    pub open spec fn pushed(self, settings: Settings) -> AvModel {
        if self.finished {
            self
        } else {
            let ready = self.ready(settings);
            let coded = AvModel { coding: ready.next(settings), ..self };
            if ready.error(settings) is Some {
                coded
            } else {
                AvModel {
                    video: self.video.push(
                        epoch::video_packet(
                            (ready.frame_index * settings.frame_us) as u64,
                            settings.frame_us as u32,
                            ready.payload(settings),
                        ),
                    ),
                    ..coded
                }
            }
        }
    }

    /// The audio packets of an epoch.
    pub open spec fn epoch_audio(self, settings: Settings, pts: int, end_pts: int) -> Result<
        Seq<syntax::PacketModel>,
        MuxError,
    > {
        match settings.audio {
            None => Ok(Seq::empty()),
            Some(track) => {
                let total = self.samples.len() as int / track.channels as int;
                match (
                    assemble::sample_at(pts, track.rate),
                    assemble::sample_at(end_pts, track.rate),
                ) {
                    (Ok(a), Ok(b)) => epoch::audio_packets(
                        self.samples,
                        0,
                        at_most(a as int, total),
                        at_most(b as int, total),
                        track,
                    ),
                    _ => Err(MuxError::AudioTimestamp),
                }
            },
        }
    }

    /// The epoch of the frames from `start` on.
    #[verifier::opaque]
    pub open spec fn epoch(self, settings: Settings, start: int, id: int) -> Result<
        syntax::EpochRange,
        MuxError,
    > {
        let end = at_most(start + settings.epoch_frames, self.video.len() as int);
        match assemble::epoch_span(start as u64, end as u64, settings.frame_us) {
            Err(e) => Err(e),
            Ok((pts, duration)) => if id > u32::MAX {
                Err(MuxError::EpochIdentifier)
            } else {
                match self.epoch_audio(settings, pts as int, pts + duration) {
                    Err(e) => Err(e),
                    Ok(audio) => match epoch::epoch_bytes(
                        id as u32,
                        pts,
                        duration,
                        self.video.subrange(start, end),
                        audio,
                    ) {
                        Err(e) => Err(e),
                        Ok(bytes) => Ok(
                            syntax::EpochRange { id: id as u32, pts, duration, bytes },
                        ),
                    },
                }
            },
        }
    }

    /// The epochs of the frames from `start` on, numbered from `id`.
    pub open spec fn epochs(self, settings: Settings, start: int, id: int) -> Result<
        Seq<syntax::EpochRange>,
        MuxError,
    >
        decreases
            if start < self.video.len() {
                self.video.len() - start
            } else {
                0
            },
    {
        if start >= self.video.len() || settings.epoch_frames == 0 {
            Ok(Seq::empty())
        } else {
            match self.epoch(settings, start, id) {
                Err(e) => Err(e),
                Ok(range) => match self.epochs(settings, start + settings.epoch_frames, id + 1) {
                    Err(e) => Err(e),
                    Ok(rest) => Ok(seq![range] + rest),
                },
            }
        }
    }

    /// What the file is, or why it cannot be finished.
    pub open spec fn file(self, settings: Settings) -> Result<Seq<u8>, MuxError> {
        if self.video.len() == 0 {
            Err(MuxError::Empty)
        } else {
            match self.epochs(settings, 0, 0) {
                Err(e) => Err(e),
                Ok(epochs) => assemble::output_of(settings.stream_list(), epochs),
            }
        }
    }
}

/// Cuts or fills a staging buffer to a length.
pub(crate) fn resize(samples: &mut Vec<i16>, count: usize)
    ensures
        final(samples)@ == resized(old(samples)@, count as int),
{
    let ghost before = samples@;
    samples.resize(count, 0);
    assert(samples@ =~= resized(before, count as int));
}

/// Appends samples.
pub(crate) fn append_samples(from: &Vec<i16>, to: &mut Vec<i16>)
    ensures
        final(to)@ == old(to)@ + from@,
{
    let ghost before = to@;
    let mut i: usize = 0;
    assert(to@ =~= before + from@.take(0));
    while i < from.len()
        invariant
            i <= from@.len(),
            to@ == before + from@.take(i as int),
        decreases from@.len() - i,
    {
        to.push(from[i]);
        assert(to@ =~= before + from@.take(i + 1));
        i = i + 1;
    }
    assert(from@.take(i as int) =~= from@);
}

/// The packets of the frames from `start` to `end`.
fn clone_packets(frames: &Vec<EncodedFrame>, start: usize, end: usize) -> (r: Vec<Packet>)
    requires
        start <= end <= frames@.len(),
    ensures
        epoch::contents(r@) == epoch::models(frames@).subrange(start as int, end as int),
        forall|i: int| 0 <= i < r@.len() ==> (#[trigger] r@[i]).flags == 0,
{
    let ghost all = epoch::models(frames@);
    let mut r: Vec<Packet> = Vec::new();
    let mut i: usize = start;
    assert(epoch::contents(r@) =~= all.subrange(start as int, i as int));
    while i < end
        invariant
            start <= i <= end,
            end <= frames@.len(),
            all == epoch::models(frames@),
            epoch::contents(r@) == all.subrange(start as int, i as int),
            forall|j: int| 0 <= j < r@.len() ==> (#[trigger] r@[j]).flags == 0,
        decreases end - i,
    {
        let ghost before = epoch::contents(r@);
        let frame: &EncodedFrame = &frames[i];
        let mut payload: Vec<u8> = Vec::new();
        put_slice(&frame.payload, &mut payload);
        assert(payload@ =~= frame.payload@);
        let packet: Packet = Packet {
            kind: PacketKind::VideoFrame,
            flags: 0,
            stream_id: 1,
            pts: frame.pts,
            duration: frame.duration,
            payload,
        };
        let ghost model = packet.model();
        r.push(packet);
        proof {
            assert(epoch::contents(r@) =~= before.push(model));
            assert(model == all[i as int]);
            assert(epoch::contents(r@) =~= all.subrange(start as int, i + 1));
        }
        i = i + 1;
    }
    r
}

impl AvEncoderState {
    pub open spec fn wf(&self) -> bool {
        &&& self.video.wf()
        &&& self.encoded_video@.len() == self.video.frame_index
        &&& self.video.settings.audio matches Some(track) ==> self.audio_samples@.len() as int
            % track.channels as int == 0
        &&& forall|i: int|
            0 <= i < self.encoded_video@.len() ==> (#[trigger] self.encoded_video@[i]).pts == i
                * self.video.settings.frame_us
    }

    pub open spec fn model(&self) -> AvModel {
        AvModel {
            coding: self.video.model(),
            video: epoch::models(self.encoded_video@),
            staging: self.audio_staging@,
            samples: self.audio_samples@,
            output: self.output@,
            finished: self.finished,
        }
    }

    /// Creates an encoder. A sample rate and a channel count of zero mean that there is no audio.
    pub fn new(
        width: u32,
        height: u32,
        fps_flags: u32,
        video_qstep: u16,
        preset: EncoderPreset,
        epoch_frames: u64,
        meta0: u32,
        audio_rate: u32,
        audio_channels: u32,
        audio_qstep: u16,
    ) -> (r: Result<Self, MuxError>)
        ensures
            match crate::mux::video_error(
                width,
                height,
                fps_flags,
                video_qstep,
                epoch_frames,
                meta0,
            ) {
                Some(e) => r == Err::<Self, MuxError>(e),
                None => match crate::mux::audio_error(audio_rate, audio_channels, audio_qstep) {
                    Some(e) => r == Err::<Self, MuxError>(e),
                    None => match r {
                        Err(e) => e == MuxError::AddressSpace && width * height + width * height / 2
                            > usize::MAX,
                        Ok(s) => {
                            &&& s.wf()
                            &&& s.model() == AvModel::start(s.video.settings)
                            &&& s.video.settings.width == width
                            &&& s.video.settings.height == height
                            &&& s.video.settings.fps_flags == fps_flags
                            &&& s.video.settings.meta0 == meta0
                            &&& s.video.settings.frame_us == crate::mux::frame_duration(fps_flags)
                            &&& s.video.settings.epoch_frames == epoch_frames
                            &&& s.video.settings.options == crate::mux::preset_options(
                                video_qstep,
                                preset,
                            )
                            &&& s.video.settings.audio == if audio_rate == 0 {
                                None::<AudioTrack>
                            } else {
                                Some(
                                    AudioTrack {
                                        rate: audio_rate,
                                        channels: audio_channels as u8,
                                        qstep: audio_qstep,
                                    },
                                )
                            }
                        },
                    },
                },
            },
    {
        let settings: Settings = match Settings::new(
            width,
            height,
            fps_flags,
            video_qstep,
            preset,
            epoch_frames,
            meta0,
            audio_rate,
            audio_channels,
            audio_qstep,
        ) {
            Ok(settings) => settings,
            Err(e) => {
                return Err(e);
            },
        };
        let r: AvEncoderState = AvEncoderState {
            video: FrameCoder::new(settings),
            encoded_video: Vec::new(),
            audio_staging: Vec::new(),
            audio_samples: Vec::new(),
            output: Vec::new(),
            finished: false,
        };
        assert(r.model() =~= AvModel::start(settings));
        proof {
            if let Some(track) = settings.audio {
                vstd::arithmetic::div_mod::lemma_small_mod(0, track.channels as nat);
            }
        }
        Ok(r)
    }

    /// Whether the file has audio.
    pub fn audio_enabled(&self) -> (r: bool)
        ensures
            r == self.video.settings.audio is Some,
    {
        self.video.settings.audio.is_some()
    }

    /// Codes the frame in the input buffer.
    pub fn push_video_frame(&mut self) -> (r: Result<(), MuxError>)
        requires
            old(self).wf(),
        ensures
            final(self).wf(),
            final(self).video.settings == old(self).video.settings,
            final(self).model() == old(self).model().pushed(old(self).video.settings),
            match r {
                Ok(()) => old(self).model().push_error(old(self).video.settings) is None,
                Err(e) => old(self).model().push_error(old(self).video.settings) == Some(e),
            },
    {
        let ghost before = self.model();
        let ghost settings = self.video.settings;
        if self.finished {
            return Err(MuxError::Finished);
        }
        if self.video.frame_index > 0 && self.video.frame_index % self.video.settings.epoch_frames
            == 0 {
            self.video.restart();
        }
        assert(self.video.model() =~= before.ready(settings));
        let frame: EncodedFrame = match self.video.code() {
            Ok(frame) => frame,
            Err(e) => {
                assert(self.model() =~= before.pushed(settings));
                return Err(e);
            },
        };
        let ghost model = frame.model();
        self.encoded_video.push(frame);
        assert(epoch::models(self.encoded_video@) =~= before.video.push(model));
        assert(self.model() =~= before.pushed(settings));
        Ok(())
    }

    /// Makes room for samples that are about to be pushed, at most 128 MiB of them.
    pub fn reserve_audio(&mut self, sample_count: usize) -> (r: Result<(), MuxError>)
        requires
            old(self).wf(),
        ensures
            final(self).wf(),
            final(self).video.settings == old(self).video.settings,
            ({
                let error = reserve_error(
                    old(self).finished,
                    old(self).video.settings.audio,
                    sample_count as int,
                    67_108_864,
                );
                match r {
                    Ok(()) => error is None && final(self).model() == (AvModel {
                        staging: resized(old(self).audio_staging@, sample_count as int),
                        ..old(self).model()
                    }),
                    Err(e) => error == Some(e) && final(self).model() == old(self).model(),
                }
            }),
    {
        if self.finished {
            return Err(MuxError::Finished);
        }
        if !self.audio_enabled() {
            return Err(MuxError::AudioDisabled);
        }
        if sample_count > 67_108_864 {
            return Err(MuxError::AudioStaging);
        }
        resize(&mut self.audio_staging, sample_count);
        Ok(())
    }

    /// Takes the staged samples.
    pub fn push_audio(&mut self, sample_count: usize) -> (r: Result<(), MuxError>)
        requires
            old(self).wf(),
        ensures
            final(self).wf(),
            final(self).video.settings == old(self).video.settings,
            ({
                let error = stage_error(
                    old(self).video.settings.audio,
                    sample_count as int,
                    old(self).audio_staging@.len() as int,
                );
                match r {
                    Ok(()) => error is None && final(self).model() == (AvModel {
                        samples: old(self).audio_samples@ + old(self).audio_staging@,
                        staging: Seq::empty(),
                        ..old(self).model()
                    }),
                    Err(e) => error == Some(e) && final(self).model() == old(self).model(),
                }
            }),
    {
        let track: AudioTrack = match self.video.settings.audio {
            Some(track) => track,
            None => {
                return Err(MuxError::AudioDisabled);
            },
        };
        if sample_count != self.audio_staging.len() {
            return Err(MuxError::AudioLength);
        }
        if sample_count % track.channels as usize != 0 {
            return Err(MuxError::AudioAlignment);
        }
        proof {
            vstd::arithmetic::div_mod::lemma_add_mod_noop(
                self.audio_samples@.len() as int,
                self.audio_staging@.len() as int,
                track.channels as int,
            );
            vstd::arithmetic::div_mod::lemma_small_mod(0, track.channels as nat);
        }
        append_samples(&self.audio_staging, &mut self.audio_samples);
        self.audio_staging.clear();
        Ok(())
    }

    /// The audio packets of an epoch.
    fn audio_of(&self, pts: u64, end_pts: u64) -> (r: Result<Vec<Packet>, MuxError>)
        requires
            self.wf(),
            pts <= end_pts,
        ensures
            match r {
                Ok(packets) => {
                    &&& self.model().epoch_audio(
                        self.video.settings,
                        pts as int,
                        end_pts as int,
                    ) == Ok::<Seq<syntax::PacketModel>, MuxError>(epoch::contents(packets@))
                    &&& forall|i: int|
                        0 <= i < packets@.len() ==> (#[trigger] packets@[i]).flags == 0
                },
                Err(e) => self.model().epoch_audio(self.video.settings, pts as int, end_pts as int)
                    == Err::<Seq<syntax::PacketModel>, MuxError>(e),
            },
    {
        let track: AudioTrack = match self.video.settings.audio {
            Some(track) => track,
            None => {
                let none: Vec<Packet> = Vec::new();
                assert(epoch::contents(none@) =~= Seq::empty());
                return Ok(none);
            },
        };
        let first: u64 = match assemble::audio_frame_for_pts(pts, track.rate) {
            Ok(frame) => frame,
            Err(e) => {
                return Err(e);
            },
        };
        let last: u64 = match assemble::audio_frame_for_pts(end_pts, track.rate) {
            Ok(frame) => frame,
            Err(e) => {
                return Err(e);
            },
        };
        let total: usize = self.audio_samples.len() / track.channels as usize;
        let from: u64 = if first < total as u64 {
            first
        } else {
            total as u64
        };
        let to: u64 = if last < total as u64 {
            last
        } else {
            total as u64
        };
        proof {
            let c = track.channels as int;
            let n = self.audio_samples@.len() as int;
            assert(pts * track.rate <= end_pts * track.rate) by (nonlinear_arith)
                requires
                    0 <= pts <= end_pts,
                    0 <= track.rate,
            ;
            vstd::arithmetic::div_mod::lemma_fundamental_div_mod(n, c);
            assert(to * c <= n) by (nonlinear_arith)
                requires
                    to <= n / c,
                    n == c * (n / c) + n % c,
                    0 <= n % c,
                    1 <= c,
            ;
        }
        encode_audio_packets(self.audio_samples.as_slice(), 0, from, to, track)
    }

    /// The epoch of the frames from `start` on.
    fn build_epoch(&self, start: u64, index: u64) -> (r: Result<(u32, u64, u32, Vec<u8>), MuxError>)
        requires
            self.wf(),
            start < self.encoded_video@.len(),
        ensures
            match r {
                Ok(entry) => self.model().epoch(self.video.settings, start as int, index as int)
                    == Ok::<syntax::EpochRange, MuxError>(wire::ranges(seq![entry])[0]),
                Err(e) => self.model().epoch(self.video.settings, start as int, index as int)
                    == Err::<syntax::EpochRange, MuxError>(e),
            },
    {
        reveal(AvModel::epoch);
        let settings: Settings = self.video.settings;
        let total: u64 = self.encoded_video.len() as u64;
        let end: u64 = if total - start <= settings.epoch_frames {
            total
        } else {
            start + settings.epoch_frames
        };
        assert(end == at_most(start + settings.epoch_frames, total as int));
        let (pts, duration): (u64, u32) = match assemble::span(start, end, settings.frame_us) {
            Ok(span) => span,
            Err(e) => {
                return Err(e);
            },
        };
        if index > 0xffff_ffff {
            return Err(MuxError::EpochIdentifier);
        }
        let audio: Vec<Packet> = match self.audio_of(pts, pts + duration as u64) {
            Ok(audio) => audio,
            Err(e) => {
                return Err(e);
            },
        };
        let video: Vec<Packet> = clone_packets(
            &self.encoded_video,
            start as usize,
            end as usize,
        );
        let bytes: Vec<u8> = match write_epoch(index as u32, pts, duration, video, audio) {
            Ok(bytes) => bytes,
            Err(e) => {
                return Err(e);
            },
        };
        Ok((index as u32, pts, duration, bytes))
    }

    /// The epochs of all frames.
    fn build_epochs(&self) -> (r: Result<Vec<(u32, u64, u32, Vec<u8>)>, MuxError>)
        requires
            self.wf(),
        ensures
            match r {
                Ok(epochs) => self.model().epochs(self.video.settings, 0, 0) == Ok::<
                    Seq<syntax::EpochRange>,
                    MuxError,
                >(wire::ranges(epochs@)),
                Err(e) => self.model().epochs(self.video.settings, 0, 0) == Err::<
                    Seq<syntax::EpochRange>,
                    MuxError,
                >(e),
            },
    {
        let ghost model = self.model();
        let settings: Settings = self.video.settings;
        let ghost all = model.epochs(settings, 0, 0);
        let total: u64 = self.encoded_video.len() as u64;
        let mut epochs: Vec<(u32, u64, u32, Vec<u8>)> = Vec::new();
        let mut start: u64 = 0;
        let mut index: u64 = 0;
        assert(wire::ranges(epochs@) =~= Seq::empty());
        proof {
            if let Ok(rest) = all {
                assert(wire::ranges(epochs@) + rest =~= rest);
            }
        }
        while start < total
            invariant
                self.wf(),
                model == self.model(),
                settings == self.video.settings,
                total == self.encoded_video@.len(),
                start <= total,
                index <= start,
                all == model.epochs(settings, 0, 0),
                match model.epochs(settings, start as int, index as int) {
                    Ok(rest) => all == Ok::<Seq<syntax::EpochRange>, MuxError>(
                        wire::ranges(epochs@) + rest,
                    ),
                    Err(e) => all == Err::<Seq<syntax::EpochRange>, MuxError>(e),
                },
            decreases total - start,
        {
            let entry: (u32, u64, u32, Vec<u8>) = match self.build_epoch(start, index) {
                Ok(entry) => entry,
                Err(e) => {
                    return Err(e);
                },
            };
            let end: u64 = if total - start <= settings.epoch_frames {
                total
            } else {
                start + settings.epoch_frames
            };
            let ghost before = wire::ranges(epochs@);
            let ghost range = wire::ranges(seq![entry])[0];
            epochs.push(entry);
            proof {
                assert(wire::ranges(epochs@) =~= before.push(range));
                let next = model.epochs(settings, start + settings.epoch_frames, index + 1);
                if let Ok(rest) = next {
                    assert(before + (seq![range] + rest) =~= wire::ranges(epochs@) + rest);
                }
                if start + settings.epoch_frames >= total {
                    assert(next == model.epochs(settings, end as int, index + 1));
                }
            }
            start = end;
            index = index + 1;
        }
        assert(wire::ranges(epochs@) + Seq::<syntax::EpochRange>::empty() =~= wire::ranges(epochs@));
        Ok(epochs)
    }

    /// Cuts frames and samples into epochs and builds the file. A finished encoder stays as it is.
    pub fn finish(&mut self) -> (r: Result<(), MuxError>)
        requires
            old(self).wf(),
        ensures
            final(self).wf(),
            final(self).video.settings == old(self).video.settings,
            match r {
                Ok(()) => if old(self).finished {
                    final(self).model() == old(self).model()
                } else {
                    old(self).model().file(old(self).video.settings) matches Ok(file)
                        && final(self).model() == (AvModel {
                        output: file,
                        finished: true,
                        ..old(self).model()
                    })
                },
                Err(e) => {
                    &&& !old(self).finished
                    &&& old(self).model().file(old(self).video.settings) == Err::<Seq<u8>, MuxError>(e)
                    &&& final(self).model() == old(self).model()
                },
            },
    {
        if self.finished {
            return Ok(());
        }
        assert(self.model().video.len() == self.encoded_video@.len());
        if self.encoded_video.len() == 0 {
            return Err(MuxError::Empty);
        }
        let epochs: Vec<(u32, u64, u32, Vec<u8>)> = match self.build_epochs() {
            Ok(epochs) => epochs,
            Err(e) => {
                return Err(e);
            },
        };
        let streams: Vec<StreamDesc> = self.video.settings.streams();
        match assemble::build_output(streams, epochs) {
            Ok(file) => {
                self.output = file;
                self.finished = true;
                Ok(())
            },
            Err(e) => Err(e),
        }
    }
}

} // verus!
