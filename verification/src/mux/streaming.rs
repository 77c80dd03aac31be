//! Encoder of files with video and audio that hands out epochs as they are complete.
use crate::bytes::put_slice;
use crate::container::v1::syntax;
use crate::container::v1::{encode_front, encode_header, EpochIndex, FileHeader, Front, Packet, StreamDesc};
use crate::mux::assemble;
use crate::mux::av;
use crate::mux::av::{append_samples, resize};
use crate::mux::coder;
use crate::mux::coder::FrameCoder;
use crate::mux::epoch;
use crate::mux::epoch::{encode_audio_packets, video_packets, write_epoch, EncodedFrame};
use crate::mux::{AudioTrack, MuxError, Settings};
use crate::video::v1::EncoderPreset;
use std::collections::VecDeque;
use vstd::prelude::*;

verus! {

/// Codes frames and samples as they come. An epoch is complete when its frames and the samples
/// that belong to them are there; the front of the file is known at the end.
pub struct StreamingAvEncoderState {
    pub video: FrameCoder,
    pub epoch_start_frame: u64,
    pub epoch_id: u32,
    pub pending_video: Vec<EncodedFrame>,
    pub audio_staging: Vec<i16>,
    pub audio_pending: Vec<i16>,
    pub audio_base_frame: u64,
    pub audio_total_frames: u64,
    pub ready_epochs: VecDeque<Vec<u8>>,
    pub epoch_records: Vec<(u32, u64, u32, u64)>,
    pub transfer: Vec<u8>,
    pub prefix: Vec<u8>,
    pub finished: bool,
    /// Every epoch that was completed.
    pub made: Ghost<Seq<syntax::EpochRange>>,
}

/// The state of the encoder.
#[verifier::ext_equal]
pub struct StreamModel {
    pub coding: coder::Coding,
    pub epoch_start: u64,
    pub epoch_id: u32,
    pub pending: Seq<syntax::PacketModel>,
    pub staging: Seq<i16>,
    /// Samples that no epoch has taken yet; the first belongs to sample frame `base`.
    pub samples: Seq<i16>,
    pub base: u64,
    pub total: u64,
    /// Every epoch that was completed.
    pub made: Seq<syntax::EpochRange>,
    /// How many of them were not handed out yet.
    pub waiting: nat,
    pub transfer: Seq<u8>,
    pub prefix: Seq<u8>,
    pub finished: bool,
}

impl StreamModel {
    pub open spec fn start(settings: Settings) -> StreamModel {
        StreamModel {
            coding: coder::Coding::start(settings),
            epoch_start: 0,
            epoch_id: 0,
            pending: Seq::empty(),
            staging: Seq::empty(),
            samples: Seq::empty(),
            base: 0,
            total: 0,
            made: Seq::empty(),
            waiting: 0,
            transfer: Seq::empty(),
            prefix: Seq::empty(),
            finished: false,
        }
    }

    /// Drops the samples before a sample frame, as far as there are any.
    pub open spec fn discarded(self, first: u64, channels: int) -> StreamModel {
        let base = av::at_most(first as int, self.total as int);
        if self.base < first {
            StreamModel {
                samples: self.samples.skip((base - self.base) * channels),
                base: base as u64,
                ..self
            }
        } else {
            self
        }
    }

    /// Takes the samples up to a sample frame.
    pub open spec fn taken(self, end: int, channels: int) -> StreamModel {
        StreamModel {
            samples: self.samples.skip((end - self.base) * channels),
            base: end as u64,
            ..self
        }
    }

    /// The audio packets of the sample frames from `first` to `last`, and the state after them. Of
    /// an epoch whose audio has ended only what there is is coded.
    pub open spec fn with_audio(
        self,
        track: AudioTrack,
        first: u64,
        last: u64,
        short: bool,
    ) -> (Result<Seq<syntax::PacketModel>, MuxError>, StreamModel) {
        if !short && self.total < last {
            (Err(MuxError::AudioMissing), self)
        } else {
            let m = self.discarded(first, track.channels as int);
            let end = av::at_most(last as int, m.total as int);
            if end > first && m.base <= first {
                match epoch::audio_packets(m.samples, first as int, first as int, end, track) {
                    Err(e) => (Err(e), m),
                    Ok(packets) => (Ok(packets), m.taken(end, track.channels as int)),
                }
            } else {
                (Ok(Seq::empty()), m)
            }
        }
    }

    /// The audio packets of an epoch, and the state after them.
    pub open spec fn epoch_audio(self, settings: Settings, pts: int, end_pts: int, short: bool) -> (
        Result<Seq<syntax::PacketModel>, MuxError>,
        StreamModel,
    ) {
        match settings.audio {
            None => (Ok(Seq::empty()), self),
            Some(track) => match (
                assemble::sample_at(pts, track.rate),
                assemble::sample_at(end_pts, track.rate),
            ) {
                (Ok(first), Ok(last)) => self.with_audio(track, first, last, short),
                _ => (Err(MuxError::AudioTimestamp), self),
            },
        }
    }

    /// Adds a completed epoch.
    pub open spec fn completed(self, range: syntax::EpochRange, end: u64) -> (
        Option<MuxError>,
        StreamModel,
    ) {
        let added = StreamModel { made: self.made.push(range), waiting: self.waiting + 1, ..self };
        if self.epoch_id == u32::MAX {
            (Some(MuxError::EpochIdentifier), added)
        } else {
            (
                None,
                StreamModel { epoch_id: (self.epoch_id + 1) as u32, epoch_start: end, ..added },
            )
        }
    }

    /// The frames before `end` become an epoch.
    #[verifier::opaque]
    pub open spec fn closed(self, settings: Settings, end: u64, short: bool) -> (
        Option<MuxError>,
        StreamModel,
    ) {
        let count = end - self.epoch_start;
        if end <= self.epoch_start || end > self.coding.frame_index || self.pending.len() < count {
            (Some(MuxError::EpochRange), self)
        } else {
            match assemble::epoch_span(self.epoch_start, end, settings.frame_us) {
                Err(e) => (Some(e), self),
                Ok((pts, duration)) => {
                    let drained = StreamModel { pending: self.pending.skip(count), ..self };
                    let (audio, m) = drained.epoch_audio(
                        settings,
                        pts as int,
                        pts + duration,
                        short,
                    );
                    match audio {
                        Err(e) => (Some(e), m),
                        Ok(audio) => match epoch::epoch_bytes(
                            self.epoch_id,
                            pts,
                            duration,
                            self.pending.take(count),
                            audio,
                        ) {
                            Err(e) => (Some(e), m),
                            Ok(bytes) => m.completed(
                                syntax::EpochRange { id: self.epoch_id, pts, duration, bytes },
                                end,
                            ),
                        },
                    }
                },
            }
        }
    }

    /// Where the epoch ends, or why that cannot be said.
    pub open spec fn epoch_end(self, settings: Settings) -> Result<u64, MuxError> {
        if self.epoch_start + settings.epoch_frames > u64::MAX {
            Err(MuxError::EpochIndex)
        } else {
            Ok((self.epoch_start + settings.epoch_frames) as u64)
        }
    }

    /// Whether the frames and the samples of the epoch are all there.
    pub open spec fn complete(self, settings: Settings, end: u64) -> Result<bool, MuxError> {
        if self.coding.frame_index < end {
            Ok(false)
        } else {
            match settings.audio {
                None => Ok(true),
                Some(track) => if end * settings.frame_us > u64::MAX {
                    Err(MuxError::EpochTimestamp)
                } else {
                    match assemble::sample_at(end * settings.frame_us, track.rate) {
                        Err(e) => Err(e),
                        Ok(need) => Ok(self.total >= need),
                    }
                },
            }
        }
    }

    /// How many frames no epoch has taken yet.
    pub open spec fn left(self) -> nat {
        if self.coding.frame_index > self.epoch_start {
            (self.coding.frame_index - self.epoch_start) as nat
        } else {
            0
        }
    }

    /// Every epoch that is complete is closed.
    pub open spec fn settled(self, settings: Settings) -> (Option<MuxError>, StreamModel)
        decreases self.left(),
    {
        match self.epoch_end(settings) {
            Err(e) => (Some(e), self),
            Ok(end) => match self.complete(settings, end) {
                Err(e) => (Some(e), self),
                Ok(false) => (None, self),
                Ok(true) => {
                    let (error, m) = self.closed(settings, end, false);
                    if error is Some {
                        (error, m)
                    } else if m.left() >= self.left() {
                        (None, m)
                    } else {
                        m.settled(settings)
                    }
                },
            },
        }
    }

    /// Every frame that waits is put into an epoch.
    pub open spec fn drained(self, settings: Settings) -> (Option<MuxError>, StreamModel)
        decreases self.left(),
    {
        if self.epoch_start >= self.coding.frame_index {
            (None, self)
        } else {
            match self.epoch_end(settings) {
                Err(e) => (Some(e), self),
                Ok(end) => {
                    let (error, m) = self.closed(
                        settings,
                        av::at_most(end as int, self.coding.frame_index as int) as u64,
                        true,
                    );
                    if error is Some {
                        (error, m)
                    } else if m.left() >= self.left() {
                        (None, m)
                    } else {
                        m.drained(settings)
                    }
                },
            }
        }
    }

    /// The coding state of the next frame: the first frame of an epoch is predicted from nothing.
    pub open spec fn ready(self, settings: Settings) -> coder::Coding {
        if self.coding.frame_index > 0 && self.coding.frame_index as int % settings.epoch_frames as int
            == 0 {
            coder::Coding { references: Seq::empty(), ..self.coding }
        } else {
            self.coding
        }
    }

    /// What a frame does.
    pub open spec fn pushed(self, settings: Settings) -> (Option<MuxError>, StreamModel) {
        if self.finished {
            (Some(MuxError::Finished), self)
        } else {
            let ready = self.ready(settings);
            let coded = StreamModel { coding: ready.next(settings), ..self };
            match ready.error(settings) {
                Some(e) => (Some(e), coded),
                None => StreamModel {
                    pending: self.pending.push(
                        epoch::video_packet(
                            (ready.frame_index * settings.frame_us) as u64,
                            settings.frame_us as u32,
                            ready.payload(settings),
                        ),
                    ),
                    ..coded
                }.settled(settings),
            }
        }
    }

    /// What staged samples do.
    pub open spec fn heard(self, settings: Settings, count: int) -> (Option<MuxError>, StreamModel) {
        match av::stage_error(settings.audio, count, self.staging.len() as int) {
            Some(e) => (Some(e), self),
            None => {
                let frames = count / settings.audio->0.channels as int;
                if self.total + frames > u64::MAX {
                    (Some(MuxError::AudioIndex), self)
                } else {
                    StreamModel {
                        samples: self.samples + self.staging,
                        staging: Seq::empty(),
                        total: (self.total + frames) as u64,
                        ..self
                    }.settled(settings)
                }
            },
        }
    }

    /// Why the front of the file cannot be written, if it cannot.
    pub open spec fn prefix_error(self, settings: Settings) -> Option<MuxError> {
        if syntax::file_len(settings.stream_list(), self.made) > u64::MAX {
            Some(MuxError::OutputLength)
        } else if syntax::file_base(settings.stream_list().len() as int, self.made.len() as int) - 32
            > u32::MAX {
            Some(MuxError::FrontLength)
        } else {
            None
        }
    }

    /// What ends the file.
    pub open spec fn ended(self, settings: Settings) -> (Option<MuxError>, StreamModel) {
        if self.finished {
            (None, self)
        } else if self.coding.frame_index == 0 {
            (Some(MuxError::Empty), self)
        } else {
            let (error, m) = self.drained(settings);
            if error is Some {
                (error, m)
            } else {
                match m.prefix_error(settings) {
                    Some(e) => (Some(e), m),
                    None => (
                        None,
                        StreamModel {
                            prefix: prefix_bytes(settings.stream_list(), m.made),
                            finished: true,
                            ..m
                        },
                    ),
                }
            }
        }
    }
}

/// Header and front index of a file.
pub open spec fn prefix_bytes(streams: Seq<StreamDesc>, epochs: Seq<syntax::EpochRange>) -> Seq<u8> {
    syntax::header_bytes(syntax::file_header(streams, epochs)) + syntax::front_bytes(
        syntax::file_front(streams, epochs),
    )
}

/// The records tell what was made.
#[verifier::opaque]
pub open spec fn records_kept(
    records: Seq<(u32, u64, u32, u64)>,
    made: Seq<syntax::EpochRange>,
) -> bool {
    &&& records.len() == made.len()
    &&& forall|i: int|
        0 <= i < made.len() ==> #[trigger] records[i] == (
            made[i].id,
            made[i].pts,
            made[i].duration,
            made[i].bytes.len() as u64,
        )
    &&& forall|i: int| 0 <= i < made.len() ==> 0 < (#[trigger] made[i]).bytes.len() <= usize::MAX
}

/// The epochs that wait are the last that were made.
#[verifier::opaque]
pub open spec fn epochs_kept(ready: Seq<Vec<u8>>, made: Seq<syntax::EpochRange>) -> bool {
    &&& ready.len() <= made.len()
    &&& forall|i: int|
        0 <= i < ready.len() ==> (#[trigger] ready[i])@ == made[made.len() - ready.len() + i].bytes
}

/// Header and front index of a file with these streams and this index.
fn write_prefix(
    streams: Vec<StreamDesc>,
    entries: Vec<EpochIndex>,
    Ghost(made): Ghost<Seq<syntax::EpochRange>>,
) -> (r: Vec<u8>)
    requires
        streams@.len() <= u16::MAX,
        16 + 24 * streams@.len() + 32 * made.len() <= u32::MAX,
        entries@ == syntax::index_of(
            made,
            syntax::file_base(streams@.len() as int, made.len() as int),
        ),
    ensures
        r@ == prefix_bytes(streams@, made),
{
    let ghost list = streams@;
    let count: usize = streams.len();
    let front: Front = Front { streams, epochs: entries };
    let bytes: Vec<u8> = encode_front(&front);
    proof {
        assert(front.model() == syntax::file_front(list, made));
        syntax::lemma_front_len(front.model());
    }
    let mut prefix: Vec<u8> = Vec::new();
    encode_header(
        &FileHeader { flags: 1, stream_count: count as u16, front_len: bytes.len() as u32 },
        &mut prefix,
    );
    put_slice(&bytes, &mut prefix);
    assert(prefix@ =~= prefix_bytes(list, made));
    prefix
}

impl StreamingAvEncoderState {
    pub open spec fn wf(&self) -> bool {
        &&& self.video.wf()
        &&& self.epoch_start_frame <= self.video.frame_index
        &&& self.audio_base_frame <= self.audio_total_frames
        &&& self.video.settings.audio matches Some(track) ==> self.audio_pending@.len() == (
        self.audio_total_frames - self.audio_base_frame) * track.channels
        &&& records_kept(self.epoch_records@, self.made@)
        &&& epochs_kept(self.ready_epochs@, self.made@)
    }

    pub open spec fn model(&self) -> StreamModel {
        StreamModel {
            coding: self.video.model(),
            epoch_start: self.epoch_start_frame,
            epoch_id: self.epoch_id,
            pending: epoch::models(self.pending_video@),
            staging: self.audio_staging@,
            samples: self.audio_pending@,
            base: self.audio_base_frame,
            total: self.audio_total_frames,
            made: self.made@,
            waiting: self.ready_epochs@.len(),
            transfer: self.transfer@,
            prefix: self.prefix@,
            finished: self.finished,
        }
    }

    /// Creates an encoder. A sample rate and a channel count of zero mean that there is no audio.
    pub fn new(
        width: u32,
        height: u32,
        fps_flags: u32,
        video_qstep: u16,
        preset: EncoderPreset,
        epoch_frames: u64,
        meta0: u32,
        audio_rate: u32,
        audio_channels: u32,
        audio_qstep: u16,
    ) -> (r: Result<Self, MuxError>)
        ensures
            match crate::mux::video_error(
                width,
                height,
                fps_flags,
                video_qstep,
                epoch_frames,
                meta0,
            ) {
                Some(e) => r == Err::<Self, MuxError>(e),
                None => match crate::mux::audio_error(audio_rate, audio_channels, audio_qstep) {
                    Some(e) => r == Err::<Self, MuxError>(e),
                    None => match r {
                        Err(e) => e == MuxError::AddressSpace && width * height + width * height / 2
                            > usize::MAX,
                        Ok(s) => {
                            &&& s.wf()
                            &&& s.model() == StreamModel::start(s.video.settings)
                            &&& s.video.settings.width == width
                            &&& s.video.settings.height == height
                            &&& s.video.settings.fps_flags == fps_flags
                            &&& s.video.settings.meta0 == meta0
                            &&& s.video.settings.frame_us == crate::mux::frame_duration(fps_flags)
                            &&& s.video.settings.epoch_frames == epoch_frames
                            &&& s.video.settings.options == crate::mux::preset_options(
                                video_qstep,
                                preset,
                            )
                            &&& s.video.settings.audio == if audio_rate == 0 {
                                None::<AudioTrack>
                            } else {
                                Some(
                                    AudioTrack {
                                        rate: audio_rate,
                                        channels: audio_channels as u8,
                                        qstep: audio_qstep,
                                    },
                                )
                            }
                        },
                    },
                },
            },
    {
        let settings: Settings = match Settings::new(
            width,
            height,
            fps_flags,
            video_qstep,
            preset,
            epoch_frames,
            meta0,
            audio_rate,
            audio_channels,
            audio_qstep,
        ) {
            Ok(settings) => settings,
            Err(e) => {
                return Err(e);
            },
        };
        let r: StreamingAvEncoderState = StreamingAvEncoderState {
            video: FrameCoder::new(settings),
            epoch_start_frame: 0,
            epoch_id: 0,
            pending_video: Vec::new(),
            audio_staging: Vec::new(),
            audio_pending: Vec::new(),
            audio_base_frame: 0,
            audio_total_frames: 0,
            ready_epochs: VecDeque::new(),
            epoch_records: Vec::new(),
            transfer: Vec::new(),
            prefix: Vec::new(),
            finished: false,
            made: Ghost(Seq::empty()),
        };
        proof {
            reveal(records_kept);
            reveal(epochs_kept);
            assert(r.model() =~= StreamModel::start(settings));
        }
        Ok(r)
    }

    /// Whether the file has audio.
    pub fn audio_enabled(&self) -> (r: bool)
        ensures
            r == self.video.settings.audio is Some,
    {
        self.video.settings.audio.is_some()
    }

    /// Drops samples from the front of those that wait.
    fn drop_samples(&mut self, frames: u64, channels: usize)
        requires
            old(self).wf(),
            old(self).video.settings.audio matches Some(track) && track.channels == channels,
            frames <= old(self).audio_total_frames - old(self).audio_base_frame,
        ensures
            final(self).wf(),
            final(self).video.settings == old(self).video.settings,
            final(self).model() == (StreamModel {
                samples: old(self).audio_pending@.skip(frames * channels),
                base: (old(self).audio_base_frame + frames) as u64,
                ..old(self).model()
            }),
    {
        let ghost held = self.audio_total_frames - self.audio_base_frame;
        proof {
            assert(0 <= frames * channels <= held * channels && frames <= frames * channels)
                by (nonlinear_arith)
                requires
                    0 <= frames <= held,
                    1 <= channels,
            ;
            assert(held * channels - frames * channels == (held - frames) * channels)
                by (nonlinear_arith);
            assert(self.audio_pending.len() == self.audio_pending@.len());
        }
        let cut: usize = frames as usize * channels;
        let rest: Vec<i16> = self.audio_pending.split_off(cut);
        assert(rest@ =~= old(self).audio_pending@.skip(frames * channels));
        self.audio_pending = rest;
        self.audio_base_frame = self.audio_base_frame + frames;
    }

    /// Drops the samples before a sample frame.
    fn discard(&mut self, first: u64, channels: usize)
        requires
            old(self).wf(),
            old(self).video.settings.audio matches Some(track) && track.channels == channels,
        ensures
            final(self).wf(),
            final(self).video.settings == old(self).video.settings,
            final(self).model() == old(self).model().discarded(first, channels as int),
    {
        if self.audio_base_frame < first {
            let wanted: u64 = first - self.audio_base_frame;
            let held: u64 = self.audio_total_frames - self.audio_base_frame;
            let frames: u64 = if wanted < held {
                wanted
            } else {
                held
            };
            self.drop_samples(frames, channels);
        }
    }

    /// Codes the samples of an epoch.
    fn take_audio(&mut self, track: AudioTrack, first: u64, last: u64, short: bool) -> (r: Result<
        Vec<Packet>,
        MuxError,
    >)
        requires
            old(self).wf(),
            old(self).video.settings.audio == Some(track),
            last * 1_000_000 <= u64::MAX,
        ensures
            final(self).wf(),
            final(self).video.settings == old(self).video.settings,
            final(self).model() == old(self).model().with_audio(track, first, last, short).1,
            match r {
                Ok(packets) => {
                    &&& old(self).model().with_audio(track, first, last, short).0 == Ok::<
                        Seq<syntax::PacketModel>,
                        MuxError,
                    >(epoch::contents(packets@))
                    &&& forall|i: int|
                        0 <= i < packets@.len() ==> (#[trigger] packets@[i]).flags == 0
                },
                Err(e) => old(self).model().with_audio(track, first, last, short).0 == Err::<
                    Seq<syntax::PacketModel>,
                    MuxError,
                >(e),
            },
    {
        let channels: usize = track.channels as usize;
        if !short && self.audio_total_frames < last {
            return Err(MuxError::AudioMissing);
        }
        self.discard(first, channels);
        let end: u64 = if last < self.audio_total_frames {
            last
        } else {
            self.audio_total_frames
        };
        let none: Vec<Packet> = Vec::new();
        assert(epoch::contents(none@) =~= Seq::empty());
        if end > first && self.audio_base_frame <= first {
            proof {
                let (t, b, c) = (self.audio_total_frames, self.audio_base_frame, track.channels);
                assert((end - first) * c <= (t - b) * c) by (nonlinear_arith)
                    requires
                        end - first <= t - b,
                        0 <= c,
                ;
            }
            let packets: Vec<Packet> = match encode_audio_packets(
                self.audio_pending.as_slice(),
                first,
                first,
                end,
                track,
            ) {
                Ok(packets) => packets,
                Err(e) => {
                    return Err(e);
                },
            };
            self.drop_samples(end - first, channels);
            assert(self.model() =~= old(self).model().with_audio(track, first, last, short).1);
            Ok(packets)
        } else {
            Ok(none)
        }
    }

    /// The audio packets of an epoch.
    fn audio_of(&mut self, pts: u64, end_pts: u64, short: bool) -> (r: Result<Vec<Packet>, MuxError>)
        requires
            old(self).wf(),
        ensures
            final(self).wf(),
            final(self).video.settings == old(self).video.settings,
            ({
                let want = old(self).model().epoch_audio(
                    old(self).video.settings,
                    pts as int,
                    end_pts as int,
                    short,
                );
                &&& final(self).model() == want.1
                &&& match r {
                    Ok(packets) => {
                        &&& want.0 == Ok::<Seq<syntax::PacketModel>, MuxError>(
                            epoch::contents(packets@),
                        )
                        &&& forall|i: int|
                            0 <= i < packets@.len() ==> (#[trigger] packets@[i]).flags == 0
                    },
                    Err(e) => want.0 == Err::<Seq<syntax::PacketModel>, MuxError>(e),
                }
            }),
    {
        let track: AudioTrack = match self.video.settings.audio {
            Some(track) => track,
            None => {
                let none: Vec<Packet> = Vec::new();
                assert(epoch::contents(none@) =~= Seq::empty());
                return Ok(none);
            },
        };
        let first: u64 = match assemble::audio_frame_for_pts(pts, track.rate) {
            Ok(frame) => frame,
            Err(e) => {
                return Err(e);
            },
        };
        let last: u64 = match assemble::audio_frame_for_pts(end_pts, track.rate) {
            Ok(frame) => frame,
            Err(e) => {
                return Err(e);
            },
        };
        self.take_audio(track, first, last, short)
    }

    /// The frames before `end_frame` become an epoch.
    fn finish_epoch(&mut self, end_frame: u64, allow_short_audio: bool) -> (r: Result<(), MuxError>)
        requires
            old(self).wf(),
        ensures
            final(self).wf(),
            final(self).video.settings == old(self).video.settings,
            ({
                let want = old(self).model().closed(
                    old(self).video.settings,
                    end_frame,
                    allow_short_audio,
                );
                &&& final(self).model() == want.1
                &&& match r {
                    Ok(()) => {
                        &&& want.0 is None
                        &&& end_frame > old(self).epoch_start_frame
                        &&& final(self).epoch_start_frame == end_frame
                        &&& final(self).video.frame_index == old(self).video.frame_index
                    },
                    Err(e) => want.0 == Some(e),
                }
            }),
    {
        reveal(StreamModel::closed);
        let ghost before = self.model();
        let ghost settings = self.video.settings;
        if end_frame <= self.epoch_start_frame || end_frame > self.video.frame_index {
            return Err(MuxError::EpochRange);
        }
        let count: u64 = end_frame - self.epoch_start_frame;
        assert(before.pending.len() == self.pending_video@.len());
        if (self.pending_video.len() as u64) < count {
            return Err(MuxError::EpochRange);
        }
        let (pts, duration): (u64, u32) = match assemble::span(
            self.epoch_start_frame,
            end_frame,
            self.video.settings.frame_us,
        ) {
            Ok(span) => span,
            Err(e) => {
                return Err(e);
            },
        };
        let ghost all = self.pending_video@;
        let mut frames: Vec<EncodedFrame> = self.pending_video.split_off(count as usize);
        std::mem::swap(&mut frames, &mut self.pending_video);
        proof {
            assert(epoch::models(self.pending_video@) =~= before.pending.skip(count as int));
            assert(epoch::models(frames@) =~= before.pending.take(count as int));
            assert(self.model() =~= (StreamModel {
                pending: before.pending.skip(count as int),
                ..before
            }));
        }
        let audio: Vec<Packet> = match self.audio_of(
            pts,
            pts + duration as u64,
            allow_short_audio,
        ) {
            Ok(audio) => audio,
            Err(e) => {
                return Err(e);
            },
        };
        let ghost m = self.model();
        let packets: Vec<Packet> = video_packets(frames);
        let bytes: Vec<u8> = match write_epoch(self.epoch_id, pts, duration, packets, audio) {
            Ok(bytes) => bytes,
            Err(e) => {
                return Err(e);
            },
        };
        let ghost range = syntax::EpochRange { id: self.epoch_id, pts, duration, bytes: bytes@ };
        proof {
            epoch::lemma_epoch_len(self.epoch_id, pts, duration);
            assert(bytes.len() == bytes@.len());
        }
        self.add_epoch(pts, duration, bytes);
        if self.epoch_id == u32::MAX {
            assert(self.model() =~= m.completed(range, end_frame).1);
            return Err(MuxError::EpochIdentifier);
        }
        self.epoch_id = self.epoch_id + 1;
        self.epoch_start_frame = end_frame;
        assert(self.model() =~= m.completed(range, end_frame).1);
        Ok(())
    }

    /// Adds a completed epoch.
    fn add_epoch(&mut self, pts: u64, duration: u32, bytes: Vec<u8>)
        requires
            old(self).wf(),
            bytes@.len() > 0,
        ensures
            final(self).wf(),
            final(self).video == old(self).video,
            final(self).model() == (StreamModel {
                made: old(self).made@.push(
                    syntax::EpochRange { id: old(self).epoch_id, pts, duration, bytes: bytes@ },
                ),
                waiting: old(self).ready_epochs@.len() + 1,
                ..old(self).model()
            }),
    {
        let ghost range = syntax::EpochRange { id: self.epoch_id, pts, duration, bytes: bytes@ };
        let ghost before = *self;
        assert(bytes.len() == bytes@.len());
        self.epoch_records.push((self.epoch_id, pts, duration, bytes.len() as u64));
        self.ready_epochs.push_back(bytes);
        self.made = Ghost(self.made@.push(range));
        proof {
            reveal(records_kept);
            reveal(epochs_kept);
            assert forall|i: int| 0 <= i < self.ready_epochs@.len() implies (
            #[trigger] self.ready_epochs@[i])@ == self.made@[self.made@.len()
                - self.ready_epochs@.len() + i].bytes by {
                if i < before.ready_epochs@.len() {
                    assert(before.ready_epochs@[i]@ == before.made@[before.made@.len()
                        - before.ready_epochs@.len() + i].bytes);
                }
            }
            assert forall|i: int| 0 <= i < self.made@.len() implies #[trigger] self.epoch_records@[i]
                == (
                self.made@[i].id,
                self.made@[i].pts,
                self.made@[i].duration,
                self.made@[i].bytes.len() as u64,
            ) by {
                if i < before.made@.len() {
                    assert(before.epoch_records@[i] == self.epoch_records@[i]);
                }
            }
        }
    }
}

impl StreamingAvEncoderState {
    /// Whether the frames and the samples of the epoch are all there.
    fn is_complete(&self, end_frame: u64) -> (r: Result<bool, MuxError>)
        requires
            self.wf(),
        ensures
            r == self.model().complete(self.video.settings, end_frame),
    {
        if self.video.frame_index < end_frame {
            return Ok(false);
        }
        let track: AudioTrack = match self.video.settings.audio {
            Some(track) => track,
            None => {
                return Ok(true);
            },
        };
        let end_pts: u64 = match end_frame.checked_mul(self.video.settings.frame_us) {
            Some(pts) => pts,
            None => {
                return Err(MuxError::EpochTimestamp);
            },
        };
        match assemble::audio_frame_for_pts(end_pts, track.rate) {
            Ok(need) => Ok(self.audio_total_frames >= need),
            Err(e) => Err(e),
        }
    }

    /// Closes every epoch that is complete.
    fn try_finish_full_epochs(&mut self) -> (r: Result<(), MuxError>)
        requires
            old(self).wf(),
        ensures
            final(self).wf(),
            final(self).video.settings == old(self).video.settings,
            final(self).model() == old(self).model().settled(old(self).video.settings).1,
            match r {
                Ok(()) => old(self).model().settled(old(self).video.settings).0 is None,
                Err(e) => old(self).model().settled(old(self).video.settings).0 == Some(e),
            },
    {
        let ghost settings = self.video.settings;
        let ghost want = self.model().settled(settings);
        loop
            invariant
                self.wf(),
                self.video.settings == settings,
                want == self.model().settled(settings),
                settings == old(self).video.settings,
                want == old(self).model().settled(settings),
            decreases self.video.frame_index - self.epoch_start_frame,
        {
            let end_frame: u64 = match self.epoch_start_frame.checked_add(
                self.video.settings.epoch_frames,
            ) {
                Some(end) => end,
                None => {
                    return Err(MuxError::EpochIndex);
                },
            };
            match self.is_complete(end_frame) {
                Ok(true) => {},
                Ok(false) => {
                    return Ok(());
                },
                Err(e) => {
                    return Err(e);
                },
            }
            match self.finish_epoch(end_frame, false) {
                Ok(()) => {},
                Err(e) => {
                    return Err(e);
                },
            }
        }
    }

    /// Codes the frame in the input buffer, and closes the epochs that it completes.
    pub fn push_video_frame(&mut self) -> (r: Result<(), MuxError>)
        requires
            old(self).wf(),
        ensures
            final(self).wf(),
            final(self).video.settings == old(self).video.settings,
            final(self).model() == old(self).model().pushed(old(self).video.settings).1,
            match r {
                Ok(()) => old(self).model().pushed(old(self).video.settings).0 is None,
                Err(e) => old(self).model().pushed(old(self).video.settings).0 == Some(e),
            },
    {
        let ghost before = self.model();
        let ghost settings = self.video.settings;
        if self.finished {
            return Err(MuxError::Finished);
        }
        if self.video.frame_index > 0 && self.video.frame_index % self.video.settings.epoch_frames
            == 0 {
            self.video.restart();
        }
        assert(self.video.model() =~= before.ready(settings));
        let frame: EncodedFrame = match self.video.code() {
            Ok(frame) => frame,
            Err(e) => {
                assert(self.model() =~= before.pushed(settings).1);
                return Err(e);
            },
        };
        let ghost model = frame.model();
        self.pending_video.push(frame);
        proof {
            assert(epoch::models(self.pending_video@) =~= before.pending.push(model));
            assert(self.model() =~= (StreamModel {
                coding: before.ready(settings).next(settings),
                pending: before.pending.push(model),
                ..before
            }));
        }
        self.try_finish_full_epochs()
    }

    /// Makes room for samples that are about to be pushed, at most 16 MiB of them.
    pub fn reserve_audio(&mut self, sample_count: usize) -> (r: Result<(), MuxError>)
        requires
            old(self).wf(),
        ensures
            final(self).wf(),
            final(self).video.settings == old(self).video.settings,
            ({
                let error = av::reserve_error(
                    old(self).finished,
                    old(self).video.settings.audio,
                    sample_count as int,
                    8_388_608,
                );
                match r {
                    Ok(()) => error is None && final(self).model() == (StreamModel {
                        staging: av::resized(old(self).audio_staging@, sample_count as int),
                        ..old(self).model()
                    }),
                    Err(e) => error == Some(e) && final(self).model() == old(self).model(),
                }
            }),
    {
        if self.finished {
            return Err(MuxError::Finished);
        }
        if !self.audio_enabled() {
            return Err(MuxError::AudioDisabled);
        }
        if sample_count > 8_388_608 {
            return Err(MuxError::AudioStaging);
        }
        resize(&mut self.audio_staging, sample_count);
        Ok(())
    }

    /// Takes the staged samples, and closes the epochs that they complete.
    pub fn push_audio(&mut self, sample_count: usize) -> (r: Result<(), MuxError>)
        requires
            old(self).wf(),
        ensures
            final(self).wf(),
            final(self).video.settings == old(self).video.settings,
            ({
                let want = old(self).model().heard(old(self).video.settings, sample_count as int);
                &&& final(self).model() == want.1
                &&& match r {
                    Ok(()) => want.0 is None,
                    Err(e) => want.0 == Some(e),
                }
            }),
    {
        let ghost before = self.model();
        let track: AudioTrack = match self.video.settings.audio {
            Some(track) => track,
            None => {
                return Err(MuxError::AudioDisabled);
            },
        };
        if sample_count != self.audio_staging.len() {
            return Err(MuxError::AudioLength);
        }
        let channels: usize = track.channels as usize;
        if sample_count % channels != 0 {
            return Err(MuxError::AudioAlignment);
        }
        let frames: u64 = (sample_count / channels) as u64;
        let total: u64 = match self.audio_total_frames.checked_add(frames) {
            Some(total) => total,
            None => {
                return Err(MuxError::AudioIndex);
            },
        };
        proof {
            let held = self.audio_total_frames - self.audio_base_frame;
            let (n, c) = (sample_count as int, channels as int);
            vstd::arithmetic::div_mod::lemma_fundamental_div_mod(n, c);
            assert(held * c + n == (held + n / c) * c) by (nonlinear_arith)
                requires
                    n == c * (n / c),
            ;
        }
        append_samples(&self.audio_staging, &mut self.audio_pending);
        self.audio_staging.clear();
        self.audio_total_frames = total;
        proof {
            assert(self.model() =~= (StreamModel {
                samples: before.samples + before.staging,
                staging: Seq::empty(),
                total,
                ..before
            }));
        }
        self.try_finish_full_epochs()
    }

    /// The index of the epochs that were made.
    fn index_entries(&self, base: u64) -> (r: Result<Vec<EpochIndex>, MuxError>)
        requires
            self.wf(),
        ensures
            match r {
                Ok(entries) => base + syntax::payload_before(
                    self.made@,
                    self.made@.len() as int,
                ).len() <= u64::MAX && entries@ == syntax::index_of(self.made@, base as int),
                Err(e) => e == MuxError::OutputLength && base + syntax::payload_before(
                    self.made@,
                    self.made@.len() as int,
                ).len() > u64::MAX,
            },
    {
        reveal(records_kept);
        let ghost list = self.made@;
        let mut offset: u64 = base;
        let mut entries: Vec<EpochIndex> = Vec::new();
        let mut k: usize = 0;
        while k < self.epoch_records.len()
            invariant
                self.wf(),
                list == self.made@,
                records_kept(self.epoch_records@, list),
                k <= self.epoch_records@.len(),
                offset == base + syntax::payload_before(list, k as int).len(),
                entries@ == syntax::index_of(list, base as int).take(k as int),
            decreases self.epoch_records@.len() - k,
        {
            reveal(records_kept);
            let record: (u32, u64, u32, u64) = self.epoch_records[k];
            proof {
                assert(list[k as int].bytes.len() <= usize::MAX);
                syntax::lemma_payload_before(list, k + 1, list.len() as int);
                assert(syntax::payload_before(list, k + 1).len() == syntax::payload_before(
                    list,
                    k as int,
                ).len() + list[k as int].bytes.len());
            }
            entries.push(
                EpochIndex {
                    id: record.0,
                    pts: record.1,
                    offset,
                    len: record.3,
                    duration: record.2,
                },
            );
            assert(entries@ =~= syntax::index_of(list, base as int).take(k + 1));
            offset = match offset.checked_add(record.3) {
                Some(offset) => offset,
                None => {
                    return Err(MuxError::OutputLength);
                },
            };
            k = k + 1;
        }
        assert(entries@ =~= syntax::index_of(list, base as int));
        Ok(entries)
    }

    /// Writes header and front index.
    #[verifier::spinoff_prover]
    fn build_prefix(&mut self) -> (r: Result<(), MuxError>)
        requires
            old(self).wf(),
        ensures
            final(self).wf(),
            final(self).video.settings == old(self).video.settings,
            match r {
                Ok(()) => old(self).model().prefix_error(old(self).video.settings) is None
                    && final(self).model() == (StreamModel {
                    prefix: prefix_bytes(old(self).video.settings.stream_list(), old(self).made@),
                    ..old(self).model()
                }),
                Err(e) => old(self).model().prefix_error(old(self).video.settings) == Some(e)
                    && final(self).model() == old(self).model(),
            },
    {
        let streams: Vec<StreamDesc> = self.video.settings.streams();
        let count: usize = streams.len();
        let total: usize = self.epoch_records.len();
        assert(total == self.made@.len()) by {
            reveal(records_kept);
        }
        let base: u128 = 48 + 24 * count as u128 + 32 * total as u128;
        if base > u64::MAX as u128 {
            return Err(MuxError::OutputLength);
        }
        let entries: Vec<EpochIndex> = match self.index_entries(base as u64) {
            Ok(entries) => entries,
            Err(e) => {
                return Err(e);
            },
        };
        if base - 32 > 0xffff_ffff {
            return Err(MuxError::FrontLength);
        }
        self.prefix = write_prefix(streams, entries, Ghost(self.made@));
        Ok(())
    }

    /// Puts every frame that waits into an epoch and writes the front of the file. A finished
    /// encoder stays as it is.
    pub fn finish(&mut self) -> (r: Result<(), MuxError>)
        requires
            old(self).wf(),
        ensures
            final(self).wf(),
            final(self).video.settings == old(self).video.settings,
            final(self).model() == old(self).model().ended(old(self).video.settings).1,
            match r {
                Ok(()) => old(self).model().ended(old(self).video.settings).0 is None,
                Err(e) => old(self).model().ended(old(self).video.settings).0 == Some(e),
            },
    {
        let ghost settings = self.video.settings;
        if self.finished {
            return Ok(());
        }
        if self.video.frame_index == 0 {
            return Err(MuxError::Empty);
        }
        let ghost before = self.model();
        let ghost want = before.drained(settings);
        while self.epoch_start_frame < self.video.frame_index
            invariant
                self.wf(),
                self.video.settings == settings,
                want == self.model().drained(settings),
                want == before.drained(settings),
                before == old(self).model(),
                settings == old(self).video.settings,
                !before.finished,
                before.coding.frame_index != 0,
            decreases self.video.frame_index - self.epoch_start_frame,
        {
            let end: u64 = match self.epoch_start_frame.checked_add(
                self.video.settings.epoch_frames,
            ) {
                Some(end) => end,
                None => {
                    return Err(MuxError::EpochIndex);
                },
            };
            let end_frame: u64 = if end < self.video.frame_index {
                end
            } else {
                self.video.frame_index
            };
            match self.finish_epoch(end_frame, true) {
                Ok(()) => {},
                Err(e) => {
                    return Err(e);
                },
            }
        }
        match self.build_prefix() {
            Ok(()) => {},
            Err(e) => {
                return Err(e);
            },
        }
        self.finished = true;
        Ok(())
    }

    /// Moves the oldest epoch that waits to the transfer buffer, which is empty where there is none.
    pub fn take_epoch(&mut self) -> (r: bool)
        requires
            old(self).wf(),
        ensures
            final(self).wf(),
            final(self).video.settings == old(self).video.settings,
            final(self).model() == old(self).model().handed_out(),
            r == (old(self).model().waiting > 0),
    {
        let ghost before = *self;
        proof {
            reveal(epochs_kept);
            reveal(records_kept);
        }
        match self.ready_epochs.pop_front() {
            Some(bytes) => {
                self.transfer = bytes;
                proof {
                    assert forall|i: int| 0 <= i < self.ready_epochs@.len() implies (
                    #[trigger] self.ready_epochs@[i])@ == self.made@[self.made@.len()
                        - self.ready_epochs@.len() + i].bytes by {
                        assert(before.ready_epochs@[i + 1] == self.ready_epochs@[i]);
                    }
                    assert(before.ready_epochs@[0]@ == self.transfer@);
                    assert(self.model() =~= before.model().handed_out());
                }
                true
            },
            None => {
                self.transfer = Vec::new();
                assert(self.model() =~= before.model().handed_out());
                false
            },
        }
    }
}

impl StreamModel {
    /// The state after an epoch was asked for.
    pub open spec fn handed_out(self) -> StreamModel {
        if self.waiting == 0 {
            StreamModel { transfer: Seq::empty(), ..self }
        } else {
            StreamModel {
                transfer: self.made[self.made.len() - self.waiting].bytes,
                waiting: (self.waiting - 1) as nat,
                ..self
            }
        }
    }
}

// ---------------------------------------------------------------------------------------------
// Laws

/// The front that is written at the end, followed by the epochs in the order in which they were
/// handed out, is the file of these epochs.
pub proof fn law_prefix_and_epochs(settings: Settings, m: StreamModel)
    requires
        !m.finished,
        m.ended(settings).0 is None,
    ensures
        ({
            let after = m.ended(settings).1;
            &&& after.finished
            &&& after.prefix + syntax::payload_before(after.made, after.made.len() as int)
                == syntax::file_bytes(settings.stream_list(), after.made)
        }),
{
}

/// Taking every epoch that waits gives them in the order in which they were made.
pub proof fn law_taken_in_order(m: StreamModel)
    requires
        0 < m.waiting <= m.made.len(),
    ensures
        ({
            let first = m.made.len() - m.waiting;
            let after = m.handed_out();
            &&& after.transfer == m.made[first].bytes
            &&& after.made == m.made
            &&& after.made.len() - after.waiting == first + 1
        }),
{
}

/// Completed epochs are never changed: whatever comes later only adds to them.
proof fn lemma_closed_keeps(m: StreamModel, settings: Settings, end: u64, short: bool)
    ensures
        m.made.is_prefix_of(m.closed(settings, end, short).1.made),
        m.closed(settings, end, short).1.made.len() - m.closed(settings, end, short).1.waiting
            == m.made.len() - m.waiting,
{
    reveal(StreamModel::closed);
}

proof fn lemma_settled_keeps(m: StreamModel, settings: Settings)
    ensures
        m.made.is_prefix_of(m.settled(settings).1.made),
        m.settled(settings).1.made.len() - m.settled(settings).1.waiting == m.made.len() - m.waiting,
    decreases m.left(),
{
    if let Ok(end) = m.epoch_end(settings) {
        if m.complete(settings, end) == Ok::<bool, MuxError>(true) {
            lemma_closed_keeps(m, settings, end, false);
            let (error, next) = m.closed(settings, end, false);
            if error is None && next.left() < m.left() {
                lemma_settled_keeps(next, settings);
            }
        }
    }
}

proof fn lemma_drained_keeps(m: StreamModel, settings: Settings)
    ensures
        m.made.is_prefix_of(m.drained(settings).1.made),
        m.drained(settings).1.made.len() - m.drained(settings).1.waiting == m.made.len() - m.waiting,
    decreases m.left(),
{
    if m.epoch_start < m.coding.frame_index {
        if let Ok(end) = m.epoch_end(settings) {
            let stop = av::at_most(end as int, m.coding.frame_index as int) as u64;
            lemma_closed_keeps(m, settings, stop, true);
            let (error, next) = m.closed(settings, stop, true);
            if error is None && next.left() < m.left() {
                lemma_drained_keeps(next, settings);
            }
        }
    }
}

/// No frame, no samples and no end of the file change an epoch that was completed, nor how many
/// were handed out.
pub proof fn law_epochs_final(m: StreamModel, settings: Settings, count: int)
    ensures
        ({
            let (a, b, c) = (
                m.pushed(settings).1,
                m.heard(settings, count).1,
                m.ended(settings).1,
            );
            &&& m.made.is_prefix_of(a.made) && m.made.is_prefix_of(b.made) && m.made.is_prefix_of(
                c.made,
            )
            &&& a.made.len() - a.waiting == m.made.len() - m.waiting
            &&& b.made.len() - b.waiting == m.made.len() - m.waiting
            &&& c.made.len() - c.waiting == m.made.len() - m.waiting
        }),
{
    let ready = m.ready(settings);
    lemma_settled_keeps(
        StreamModel {
            pending: m.pending.push(
                epoch::video_packet(
                    (ready.frame_index * settings.frame_us) as u64,
                    settings.frame_us as u32,
                    ready.payload(settings),
                ),
            ),
            coding: ready.next(settings),
            ..m
        },
        settings,
    );
    if settings.audio is Some {
        let frames = count / settings.audio->0.channels as int;
        lemma_settled_keeps(
            StreamModel {
                samples: m.samples + m.staging,
                staging: Seq::empty(),
                total: (m.total + frames) as u64,
                ..m
            },
            settings,
        );
    }
    lemma_drained_keeps(m, settings);
}

} // verus!
