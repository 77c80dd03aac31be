//! Decoding of a stream: container and codecs together.
use crate::audio;
use crate::audio::v1::{AudioDecoder, AudioError};
use crate::bytes;
use crate::config;
use crate::config::{kernel_set, BackendUnavailable, Config};
use crate::container::v1::flow;
use crate::container::v1::parser;
use crate::container::v1::parser::{EpochTracker, PacketView, StreamParser};
use crate::container::v1::syntax;
use crate::container::v1::{ContainerError, FileHeader, Front, PacketKind, StreamDesc};
use crate::limits::Limits;
use crate::video;
use crate::video::v1::{Frame420, VideoDecoder, VideoError};
use std::sync::Arc;
use vstd::prelude::*;

verus! {

/// One decoded output emitted by [`ContainerStreamDecoder`].
#[derive(Debug)]
pub enum DecodedOutput {
    /// Validated epoch boundary. Video reference state has already been reset.
    EpochStart {
        /// Epoch identifier carried by the EpochStart payload.
        id: u32,
        /// Container presentation timestamp.
        pts: u64,
        /// Indexed epoch duration when supplied by the packet.
        duration: u32,
    },
    /// Reconstructed ALV1 video frame.
    Video {
        /// Declared container stream identifier.
        stream_id: u16,
        /// Container presentation timestamp.
        pts: u64,
        /// Packet duration.
        duration: u32,
        /// Immutable ALV1 frame identifier.
        frame_id: u64,
        /// Shared reconstruction; the decoder may retain the same allocation as a reference.
        frame: Arc<Frame420>,
        /// Immutable reference frame IDs required by this packet.
        dependencies: Vec<u64>,
    },
    /// Decoded ALA1 PCM packet.
    Audio {
        /// Declared container stream identifier.
        stream_id: u16,
        /// Container presentation timestamp.
        pts: u64,
        /// Packet duration.
        duration: u32,
        /// Decoded PCM rate.
        sample_rate: u32,
        /// Decoded channel count.
        channels: u8,
        /// Interleaved signed-16 PCM.
        pcm: Vec<i16>,
    },
    /// Metadata packet; its contents are not interpreted.
    Metadata {
        /// Declared stream identifier (zero may denote container-global metadata).
        stream_id: u16,
        /// Container presentation timestamp.
        pts: u64,
        /// Packet duration.
        duration: u32,
        /// Owned metadata payload.
        payload: Vec<u8>,
    },
}

/// What an output says.
pub enum OutputModel {
    EpochStart { id: u32, pts: u64, duration: u32 },
    Video {
        stream_id: u16,
        pts: u64,
        duration: u32,
        frame_id: u64,
        picture: video::v1::syntax::Picture,
        dependencies: Seq<u64>,
    },
    Audio {
        stream_id: u16,
        pts: u64,
        duration: u32,
        sample_rate: u32,
        channels: u8,
        pcm: Seq<i16>,
    },
    Metadata { stream_id: u16, pts: u64, duration: u32, payload: Seq<u8> },
}

impl DecodedOutput {
    pub open spec fn model(&self) -> OutputModel {
        match *self {
            DecodedOutput::EpochStart { id, pts, duration } => OutputModel::EpochStart {
                id,
                pts,
                duration,
            },
            DecodedOutput::Video { stream_id, pts, duration, frame_id, frame, dependencies } =>
                OutputModel::Video {
                stream_id,
                pts,
                duration,
                frame_id,
                picture: frame.picture(),
                dependencies: dependencies@,
            },
            DecodedOutput::Audio { stream_id, pts, duration, sample_rate, channels, pcm } =>
                OutputModel::Audio { stream_id, pts, duration, sample_rate, channels, pcm: pcm@ },
            DecodedOutput::Metadata { stream_id, pts, duration, payload } =>
                OutputModel::Metadata { stream_id, pts, duration, payload: payload@ },
        }
    }
}

/// Error from the combined streaming container/codec decoder.
#[derive(Debug)]
pub enum StreamDecodeError<E> {
    /// Container framing, checksum, routing, epoch, or resource failure.
    Container(ContainerError),
    /// ALV1 syntax/reconstruction failure.
    Video(VideoError),
    /// ALA1 syntax/reconstruction failure.
    Audio(AudioError),
    /// Error returned by the caller's decoded-output consumer.
    Consumer(E),
}

/// Why a packet cannot be decoded.
#[derive(Debug, Clone, Copy, PartialEq, Eq, Structural)]
pub enum DecodeFailure {
    Container(ContainerError),
    Video(VideoError),
    Audio(AudioError),
}

// ---------------------------------------------------------------------------------------------
// What packets mean

/// What a video decoder knows.
pub struct VideoModel {
    pub history: Seq<(u64, video::v1::syntax::Picture)>,
    pub bounds: video::v1::syntax::Bounds,
}

/// What a session knows: each stream has a decoder of its own from its first packet on.
pub struct Session {
    pub epoch: EpochTracker,
    pub limits: Limits,
    pub video: Seq<(u16, VideoModel)>,
    pub audio: Seq<(u16, audio::v1::syntax::Bounds)>,
}

/// The place of a stream in a list from `i` on, or the length of the list.
pub open spec fn slot<T>(list: Seq<(u16, T)>, id: u16, i: int) -> int
    decreases list.len() - i,
{
    if i < 0 || i >= list.len() {
        list.len() as int
    } else if list[i].0 == id {
        i
    } else {
        slot(list, id, i + 1)
    }
}

/// The list with the state of one stream replaced, or added.
pub open spec fn with_slot<T>(list: Seq<(u16, T)>, id: u16, value: T) -> Seq<(u16, T)> {
    let k = slot(list, id, 0);
    if k < list.len() {
        list.update(k, (id, value))
    } else {
        list.push((id, value))
    }
}

/// A video stream that can be decoded.
pub open spec fn video_stream_ok(stream: StreamDesc, limits: Limits) -> bool {
    &&& stream.codec == 1
    &&& stream.param0 > 0
    &&& stream.param1 > 0
    &&& stream.param0 % 2 == 0
    &&& stream.param1 % 2 == 0
    &&& stream.param0 * stream.param1 <= limits.max_frame_pixels
}

/// An audio stream that can be decoded.
pub open spec fn audio_stream_ok(stream: StreamDesc) -> bool {
    stream.codec == 1 && 8_000 <= stream.param0 <= 384_000 && 1 <= stream.param1 <= 8
}

/// The bounds of a decoder for a video stream that can be decoded.
pub open spec fn video_bounds(stream: StreamDesc, limits: Limits) -> video::v1::syntax::Bounds {
    video::v1::syntax::Bounds {
        max_pixels: stream.param0 * stream.param1,
        max_entropy: limits.max_entropy_bytes as nat,
        expected: Some((stream.param0, stream.param1)),
    }
}

/// The bounds of a decoder for an audio stream that can be decoded.
pub open spec fn audio_bounds(stream: StreamDesc, limits: Limits) -> audio::v1::syntax::Bounds {
    audio::v1::codec::bounds(
        limits.max_entropy_bytes,
        Some((stream.param0, stream.param1 as u8)),
    )
}

impl Session {
    pub open spec fn video_state(self, id: u16, stream: StreamDesc) -> VideoModel {
        let k = slot(self.video, id, 0);
        if k < self.video.len() {
            self.video[k].1
        } else {
            VideoModel { history: Seq::empty(), bounds: video_bounds(stream, self.limits) }
        }
    }

    pub open spec fn audio_state(self, id: u16, stream: StreamDesc) -> audio::v1::syntax::Bounds {
        let k = slot(self.audio, id, 0);
        if k < self.audio.len() {
            self.audio[k].1
        } else {
            audio_bounds(stream, self.limits)
        }
    }

    /// The session with every video history forgotten.
    pub open spec fn forgotten(self) -> Session {
        Session {
            video: Seq::new(
                self.video.len(),
                |i: int|
                    (
                        self.video[i].0,
                        VideoModel { history: Seq::empty(), bounds: self.video[i].1.bounds },
                    ),
            ),
            ..self
        }
    }

    pub open spec fn video_step(self, p: syntax::PacketModel, stream: Option<StreamDesc>) -> (
        Session,
        Result<OutputModel, DecodeFailure>,
    ) {
        match stream {
            None => (self, Err(DecodeFailure::Container(ContainerError::BadStream))),
            Some(stream) => if !video_stream_ok(stream, self.limits) {
                (self, Err(DecodeFailure::Container(ContainerError::BadStream)))
            } else {
                let state = self.video_state(p.stream_id, stream);
                match video::v1::history::decoded_next(p.payload, state.history, state.bounds) {
                    Err(e) => (
                        Session { video: with_slot(self.video, p.stream_id, state), ..self },
                        Err(
                            if e == VideoError::BadDimensions {
                                DecodeFailure::Container(ContainerError::BadStream)
                            } else {
                                DecodeFailure::Video(e)
                            },
                        ),
                    ),
                    Ok((frame_id, picture, dependencies)) => (
                        Session {
                            video: with_slot(
                                self.video,
                                p.stream_id,
                                VideoModel {
                                    history: video::v1::history::extended(
                                        state.history,
                                        frame_id,
                                        picture,
                                    ),
                                    bounds: state.bounds,
                                },
                            ),
                            ..self
                        },
                        Ok(
                            OutputModel::Video {
                                stream_id: p.stream_id,
                                pts: p.pts,
                                duration: p.duration,
                                frame_id,
                                picture,
                                dependencies,
                            },
                        ),
                    ),
                }
            },
        }
    }

    pub open spec fn audio_step(self, p: syntax::PacketModel, stream: Option<StreamDesc>) -> (
        Session,
        Result<OutputModel, DecodeFailure>,
    ) {
        match stream {
            None => (self, Err(DecodeFailure::Container(ContainerError::BadStream))),
            Some(stream) => if !audio_stream_ok(stream) {
                (self, Err(DecodeFailure::Container(ContainerError::BadStream)))
            } else {
                let state = self.audio_state(p.stream_id, stream);
                let after = Session { audio: with_slot(self.audio, p.stream_id, state), ..self };
                match audio::v1::syntax::decoded_packet(p.payload, state) {
                    Err(e) => (
                        after,
                        Err(
                            if e == AudioError::BadRate || e == AudioError::BadChannels {
                                DecodeFailure::Container(ContainerError::BadStream)
                            } else {
                                DecodeFailure::Audio(e)
                            },
                        ),
                    ),
                    Ok((sample_rate, channels, pcm)) => (
                        after,
                        Ok(
                            OutputModel::Audio {
                                stream_id: p.stream_id,
                                pts: p.pts,
                                duration: p.duration,
                                sample_rate,
                                channels,
                                pcm,
                            },
                        ),
                    ),
                }
            },
        }
    }

    /// What a packet does: the session after it, and its output or why it is refused.
    #[verifier::opaque]
    pub open spec fn step(self, p: syntax::PacketModel, stream: Option<StreamDesc>) -> (
        Session,
        Result<OutputModel, DecodeFailure>,
    ) {
        match self.epoch.observed(p) {
            Err(e) => (self, Err(DecodeFailure::Container(e))),
            Ok((epoch, started)) => {
                let here = Session { epoch, ..self };
                match p.kind {
                    PacketKind::EpochStart => (
                        here.forgotten(),
                        Ok(
                            OutputModel::EpochStart {
                                id: started->0,
                                pts: p.pts,
                                duration: p.duration,
                            },
                        ),
                    ),
                    PacketKind::VideoFrame => here.video_step(p, stream),
                    PacketKind::AudioFrame => here.audio_step(p, stream),
                    PacketKind::Metadata => (
                        here,
                        Ok(
                            OutputModel::Metadata {
                                stream_id: p.stream_id,
                                pts: p.pts,
                                duration: p.duration,
                                payload: p.payload,
                            },
                        ),
                    ),
                }
            },
        }
    }

    /// The session after the first `k` packets.
    pub open spec fn after(
        self,
        packets: Seq<(syntax::PacketModel, Option<StreamDesc>)>,
        k: int,
    ) -> Session
        decreases k,
    {
        if k <= 0 {
            self
        } else {
            self.after(packets, k - 1).step(packets[k - 1].0, packets[k - 1].1).0
        }
    }

    /// What packet `k` gives.
    pub open spec fn output(
        self,
        packets: Seq<(syntax::PacketModel, Option<StreamDesc>)>,
        k: int,
    ) -> Result<OutputModel, DecodeFailure> {
        self.after(packets, k).step(packets[k].0, packets[k].1).1
    }
}

// ---------------------------------------------------------------------------------------------
// Decoders

/// The codec side of a session.
#[derive(Debug)]
pub struct Codecs {
    pub epoch: EpochTracker,
    pub config: Config,
    pub video: Vec<(u16, VideoDecoder)>,
    pub audio: Vec<(u16, AudioDecoder)>,
}

pub open spec fn video_models(list: Seq<(u16, VideoDecoder)>) -> Seq<(u16, VideoModel)> {
    Seq::new(
        list.len(),
        |i: int|
            (
                list[i].0,
                VideoModel { history: list[i].1.references(), bounds: list[i].1.bounds() },
            ),
    )
}

pub open spec fn audio_models(list: Seq<(u16, AudioDecoder)>) -> Seq<
    (u16, audio::v1::syntax::Bounds),
> {
    Seq::new(list.len(), |i: int| (list[i].0, list[i].1.bounds()))
}

impl Codecs {
    pub open spec fn wf(&self) -> bool {
        &&& config::available(self.config.cpu)
        &&& forall|i: int| 0 <= i < self.video@.len() ==> (#[trigger] self.video@[i]).1.wf()
    }

    pub open spec fn model(&self) -> Session {
        Session {
            epoch: self.epoch,
            limits: self.config.limits,
            video: video_models(self.video@),
            audio: audio_models(self.audio@),
        }
    }

    /// Forgets every reference picture.
    fn forget(&mut self)
        requires
            old(self).wf(),
        ensures
            final(self).wf(),
            final(self).model() == old(self).model().forgotten(),
            final(self).config == old(self).config,
    {
        let ghost before = self.video@;
        let mut i: usize = 0;
        while i < self.video.len()
            invariant
                self.wf(),
                self.config == old(self).config,
                self.epoch == old(self).epoch,
                self.audio@ == old(self).audio@,
                before == old(self).video@,
                self.video@.len() == before.len(),
                i <= before.len(),
                forall|j: int|
                    0 <= j < i ==> video_models(self.video@)[j] == #[trigger] old(
                        self,
                    ).model().forgotten().video[j],
                forall|j: int| i <= j < before.len() ==> #[trigger] self.video@[j] == before[j],
            decreases before.len() - i,
        {
            let ghost list = self.video@;
            let entry: &mut (u16, VideoDecoder) = &mut self.video[i];
            entry.1.reset_epoch();
            proof {
                assert(self.video@.len() == list.len());
                assert forall|j: int| 0 <= j < list.len() && j != i implies #[trigger] self.video@[j]
                    == list[j] by {}
            }
            i = i + 1;
        }
        assert(self.model().video =~= old(self).model().forgotten().video);
    }
}

/// Finds the decoder of a video stream.
fn video_slot(list: &Vec<(u16, VideoDecoder)>, id: u16) -> (r: usize)
    ensures
        r == slot(video_models(list@), id, 0),
        r <= list@.len(),
{
    let mut i: usize = 0;
    while i < list.len()
        invariant
            i <= list@.len(),
            slot(video_models(list@), id, 0) == slot(video_models(list@), id, i as int),
        decreases list@.len() - i,
    {
        assert(video_models(list@)[i as int].0 == list@[i as int].0);
        if list[i].0 == id {
            return i;
        }
        i = i + 1;
    }
    i
}

/// Finds the decoder of an audio stream.
fn audio_slot(list: &Vec<(u16, AudioDecoder)>, id: u16) -> (r: usize)
    ensures
        r == slot(audio_models(list@), id, 0),
        r <= list@.len(),
{
    let mut i: usize = 0;
    while i < list.len()
        invariant
            i <= list@.len(),
            slot(audio_models(list@), id, 0) == slot(audio_models(list@), id, i as int),
        decreases list@.len() - i,
    {
        assert(audio_models(list@)[i as int].0 == list@[i as int].0);
        if list[i].0 == id {
            return i;
        }
        i = i + 1;
    }
    i
}

pub proof fn lemma_slot<T>(list: Seq<(u16, T)>, id: u16, i: int)
    requires
        0 <= i <= list.len(),
    ensures
        i <= slot(list, id, i) <= list.len(),
        slot(list, id, i) < list.len() ==> list[slot(list, id, i)].0 == id,
    decreases list.len() - i,
{
    if i < list.len() {
        lemma_slot(list, id, i + 1);
    }
}

/// What decoding a packet gives.
pub open spec fn output_result(
    spec: Result<OutputModel, DecodeFailure>,
    r: Result<DecodedOutput, DecodeFailure>,
) -> bool {
    match r {
        Ok(output) => spec == Ok::<OutputModel, DecodeFailure>(output.model()),
        Err(e) => spec == Err::<OutputModel, DecodeFailure>(e),
    }
}

impl Codecs {
    /// Decodes a video packet.
    fn decode_video(&mut self, packet: PacketView<'_>, stream: Option<&StreamDesc>) -> (r: Result<
        DecodedOutput,
        DecodeFailure,
    >)
        requires
            old(self).wf(),
        ensures
            final(self).wf(),
            final(self).config == old(self).config,
            final(self).model() == old(self).model().video_step(packet.model(), copied(stream)).0,
            output_result(old(self).model().video_step(packet.model(), copied(stream)).1, r),
    {
        let stream: &StreamDesc = match stream {
            Some(stream) => stream,
            None => {
                return Err(DecodeFailure::Container(ContainerError::BadStream));
            },
        };
        let (w, h): (u32, u32) = (stream.param0, stream.param1);
        proof {
            assert(0 <= w * h <= 0xffff_ffff * 0xffff_ffff) by (nonlinear_arith)
                requires
                    0 <= w <= 0xffff_ffff,
                    0 <= h <= 0xffff_ffff,
            ;
        }
        if stream.codec != 1 || w == 0 || h == 0 || w % 2 != 0 || h % 2 != 0 || w as u64 * h as u64
            > self.config.limits.max_frame_pixels {
            return Err(DecodeFailure::Container(ContainerError::BadStream));
        }
        let ghost start = self.model();
        let ghost id = packet.stream_id;
        let ghost state = start.video_state(id, *stream);
        let k: usize = video_slot(&self.video, packet.stream_id);
        proof {
            lemma_slot(start.video, id, 0);
        }
        if k == self.video.len() {
            let decoder: VideoDecoder = match VideoDecoder::for_stream(self.config, w, h) {
                Ok(decoder) => decoder,
                Err(_) => {
                    assert(false);
                    return Err(DecodeFailure::Container(ContainerError::BadStream));
                },
            };
            self.video.push((packet.stream_id, decoder));
        }
        let ghost list = self.video@;
        proof {
            assert(list.len() > k && list[k as int].0 == id);
            assert(video_models(list)[k as int].1 == state);
            assert(video_models(list) =~= with_slot(start.video, id, state));
        }
        let entry: &mut (u16, VideoDecoder) = &mut self.video[k];
        let result: Result<(u64, Arc<Frame420>, Vec<u64>), VideoError> = entry.1.decode_shared(
            packet.payload,
        );
        proof {
            assert forall|j: int| 0 <= j < list.len() && j != k implies #[trigger] self.video@[j]
                == list[j] by {}
        }
        match result {
            Ok((frame_id, frame, dependencies)) => {
                proof {
                    let after = VideoModel {
                        history: video::v1::history::extended(
                            state.history,
                            frame_id,
                            frame.picture(),
                        ),
                        bounds: state.bounds,
                    };
                    assert(video_models(self.video@) =~= with_slot(start.video, id, after));
                }
                Ok(
                    DecodedOutput::Video {
                        stream_id: packet.stream_id,
                        pts: packet.pts,
                        duration: packet.duration,
                        frame_id,
                        frame,
                        dependencies,
                    },
                )
            },
            Err(e) => {
                assert(video_models(self.video@) =~= with_slot(start.video, id, state));
                match e {
                    VideoError::BadDimensions => Err(
                        DecodeFailure::Container(ContainerError::BadStream),
                    ),
                    other => Err(DecodeFailure::Video(other)),
                }
            },
        }
    }

    /// Decodes an audio packet.
    fn decode_audio(&mut self, packet: PacketView<'_>, stream: Option<&StreamDesc>) -> (r: Result<
        DecodedOutput,
        DecodeFailure,
    >)
        requires
            old(self).wf(),
        ensures
            final(self).wf(),
            final(self).config == old(self).config,
            final(self).model() == old(self).model().audio_step(packet.model(), copied(stream)).0,
            output_result(old(self).model().audio_step(packet.model(), copied(stream)).1, r),
    {
        let stream: &StreamDesc = match stream {
            Some(stream) => stream,
            None => {
                return Err(DecodeFailure::Container(ContainerError::BadStream));
            },
        };
        if stream.codec != 1 || stream.param0 < 8_000 || stream.param0 > 384_000 || stream.param1 < 1
            || stream.param1 > 8 {
            return Err(DecodeFailure::Container(ContainerError::BadStream));
        }
        let ghost start = self.model();
        let ghost id = packet.stream_id;
        let ghost state = start.audio_state(id, *stream);
        let k: usize = audio_slot(&self.audio, packet.stream_id);
        proof {
            lemma_slot(start.audio, id, 0);
        }
        if k == self.audio.len() {
            let decoder: AudioDecoder = AudioDecoder::for_stream(
                self.config.limits,
                stream.param0,
                stream.param1 as u8,
            );
            self.audio.push((packet.stream_id, decoder));
        }
        let ghost list = self.audio@;
        proof {
            assert(list.len() > k && list[k as int].0 == id);
            assert(audio_models(list)[k as int].1 == state);
            assert(audio_models(list) =~= with_slot(start.audio, id, state));
        }
        let entry: &mut (u16, AudioDecoder) = &mut self.audio[k];
        let result: Result<(u32, u8, Vec<i16>), AudioError> = entry.1.decode(packet.payload);
        proof {
            assert forall|j: int| 0 <= j < list.len() && j != k implies #[trigger] self.audio@[j]
                == list[j] by {}
            assert(audio_models(self.audio@) =~= with_slot(start.audio, id, state));
        }
        match result {
            Ok((sample_rate, channels, pcm)) => Ok(
                DecodedOutput::Audio {
                    stream_id: packet.stream_id,
                    pts: packet.pts,
                    duration: packet.duration,
                    sample_rate,
                    channels,
                    pcm,
                },
            ),
            Err(AudioError::BadRate) => Err(DecodeFailure::Container(ContainerError::BadStream)),
            Err(AudioError::BadChannels) => Err(
                DecodeFailure::Container(ContainerError::BadStream),
            ),
            Err(other) => Err(DecodeFailure::Audio(other)),
        }
    }

    /// Decodes one packet.
    pub fn decode(&mut self, packet: PacketView<'_>, stream: Option<&StreamDesc>) -> (r: Result<
        DecodedOutput,
        DecodeFailure,
    >)
        requires
            old(self).wf(),
        ensures
            final(self).wf(),
            final(self).config == old(self).config,
            final(self).model() == old(self).model().step(packet.model(), copied(stream)).0,
            output_result(old(self).model().step(packet.model(), copied(stream)).1, r),
    {
        proof {
            reveal(Session::step);
        }
        let started: Option<u32> = match self.epoch.observe(packet) {
            Ok(started) => started,
            Err(e) => {
                return Err(DecodeFailure::Container(e));
            },
        };
        match packet.kind {
            PacketKind::EpochStart => match started {
                Some(id) => {
                    self.forget();
                    Ok(
                        DecodedOutput::EpochStart {
                            id,
                            pts: packet.pts,
                            duration: packet.duration,
                        },
                    )
                },
                None => Err(DecodeFailure::Container(ContainerError::BadEpoch)),
            },
            PacketKind::VideoFrame => self.decode_video(packet, stream),
            PacketKind::AudioFrame => self.decode_audio(packet, stream),
            PacketKind::Metadata => {
                let mut payload: Vec<u8> = Vec::new();
                bytes::put_slice(packet.payload, &mut payload);
                assert(payload@ =~= packet.payload@);
                Ok(
                    DecodedOutput::Metadata {
                        stream_id: packet.stream_id,
                        pts: packet.pts,
                        duration: packet.duration,
                        payload,
                    },
                )
            },
        }
    }
}

/// The stream that a reference points at.
pub open spec fn copied(stream: Option<&StreamDesc>) -> Option<StreamDesc> {
    match stream {
        Some(stream) => Some(*stream),
        None => None,
    }
}

// ---------------------------------------------------------------------------------------------
// Streams

/// The consumer was handed this output and answered so.
pub open spec fn handed<E, F: FnMut(DecodedOutput) -> Result<(), E>>(
    consume: F,
    output: OutputModel,
    answer: Result<(), E>,
) -> bool {
    exists|o: DecodedOutput| #[trigger]
        o.model() == output && call_ensures(consume, (o,), answer)
}

/// The consumer was handed this output and took it.
pub open spec fn accepted<E, F: FnMut(DecodedOutput) -> Result<(), E>>(
    consume: F,
    output: OutputModel,
) -> bool {
    exists|answer: Result<(), E>| answer is Ok && #[trigger] handed::<E, F>(consume, output, answer)
}

/// Each of the first `k` packets gave an output, and the consumer took it.
pub open spec fn took<E, F: FnMut(DecodedOutput) -> Result<(), E>>(
    consume: F,
    session: Session,
    packets: Seq<(syntax::PacketModel, Option<StreamDesc>)>,
    k: int,
) -> bool {
    forall|i: int|
        0 <= i < k ==> ((#[trigger] session.output(packets, i)) matches Ok(output) && accepted::<
            E,
            F,
        >(consume, output))
}

/// The failure as the stream decoder reports it.
pub open spec fn reported<E>(failure: DecodeFailure) -> StreamDecodeError<E> {
    match failure {
        DecodeFailure::Container(e) => StreamDecodeError::Container(e),
        DecodeFailure::Video(e) => StreamDecodeError::Video(e),
        DecodeFailure::Audio(e) => StreamDecodeError::Audio(e),
    }
}

/// The packet `k` failed to decode; it stays pending.
pub open spec fn failed_at<E, F: FnMut(DecodedOutput) -> Result<(), E>>(
    open: flow::Flow,
    session: Session,
    consume: F,
    after: (flow::Flow, Session),
    e: StreamDecodeError<E>,
    k: int,
) -> bool {
    let packets = open.drained().packets;
    &&& 0 <= k < packets.len()
    &&& after == (open.after(k), session.after(packets, k + 1))
    &&& took::<E, F>(consume, session, packets, k)
    &&& session.output(packets, k) matches Err(failure) && e == reported::<E>(failure)
}

/// The consumer refused the output of packet `k`; the packet stays pending.
pub open spec fn refused_at<E, F: FnMut(DecodedOutput) -> Result<(), E>>(
    open: flow::Flow,
    session: Session,
    consume: F,
    after: (flow::Flow, Session),
    e: E,
    k: int,
) -> bool {
    let packets = open.drained().packets;
    &&& 0 <= k < packets.len()
    &&& after == (open.after(k), session.after(packets, k + 1))
    &&& took::<E, F>(consume, session, packets, k)
    &&& session.output(packets, k) matches Ok(output) && handed::<E, F>(consume, output, Err(e))
}

/// All packets were taken, up to the end of the input or a framing error.
pub open spec fn all_taken<E, F: FnMut(DecodedOutput) -> Result<(), E>>(
    open: flow::Flow,
    session: Session,
    consume: F,
    after: (flow::Flow, Session),
) -> bool {
    let d = open.drained();
    &&& after == (d.flow, session.after(d.packets, d.packets.len() as int))
    &&& took::<E, F>(consume, session, d.packets, d.packets.len() as int)
}

/// What decoding the complete packets of a flow gives.
pub open spec fn decoded<E, F: FnMut(DecodedOutput) -> Result<(), E>>(
    open: flow::Flow,
    session: Session,
    consume: F,
    after: (flow::Flow, Session),
    r: Result<(), StreamDecodeError<E>>,
) -> bool {
    match r {
        Ok(()) => open.drained().error is None && all_taken::<E, F>(open, session, consume, after),
        Err(StreamDecodeError::Consumer(e)) => exists|k: int| #[trigger]
            refused_at::<E, F>(open, session, consume, after, e, k),
        Err(e) => {
            ||| open.drained().error matches Some(c) && e == StreamDecodeError::<E>::Container(c)
                && all_taken::<E, F>(open, session, consume, after)
            ||| exists|k: int| #[trigger]
                failed_at::<E, F>(open, session, consume, after, e, k)
        },
    }
}

/// Stateful end-to-end streaming decoder: the incremental container parser, the epoch validator and
/// a codec state for each stream. Transport code may either copy fragments with
/// [`Self::push_each`] or write directly into the parser-owned tail returned by
/// [`Self::reserve_fragment`] and then call [`Self::commit_reserved`].
#[derive(Debug)]
pub struct ContainerStreamDecoder {
    pub parser: StreamParser,
    pub codecs: Codecs,
}

impl Default for ContainerStreamDecoder {
    fn default() -> (r: Self)
        ensures
            r.wf(),
            r.flow() == parser::fresh_flow(134_217_728, 167_772_160),
            r.parser.reserved() is None,
            r.session().limits == (Limits {
                max_frame_pixels: 67_108_864,
                max_packet_bytes: 134_217_728,
                max_entropy_bytes: 8_388_608,
                max_stream_buffer_bytes: 167_772_160,
            }),
            r.session().video.len() == 0,
            r.session().audio.len() == 0,
            r.session().epoch == (EpochTracker { active: false, expected: None, current: None }),
    {
        ContainerStreamDecoder::new()
    }
}

impl ContainerStreamDecoder {
    pub open spec fn wf(&self) -> bool {
        self.parser.wf() && self.codecs.wf()
    }

    pub open spec fn flow(&self) -> flow::Flow {
        self.parser.flow()
    }

    pub open spec fn session(&self) -> Session {
        self.codecs.model()
    }

    /// Creates a decoder with default resource ceilings.
    pub fn new() -> (r: Self)
        ensures
            r.wf(),
            r.flow() == parser::fresh_flow(134_217_728, 167_772_160),
            r.parser.reserved() is None,
            r.session().limits == (Limits {
                max_frame_pixels: 67_108_864,
                max_packet_bytes: 134_217_728,
                max_entropy_bytes: 8_388_608,
                max_stream_buffer_bytes: 167_772_160,
            }),
            r.session().video.len() == 0,
            r.session().audio.len() == 0,
            r.session().epoch == (EpochTracker { active: false, expected: None, current: None }),
    {
        let config: Config = Config::default();
        ContainerStreamDecoder {
            parser: StreamParser::default(),
            codecs: Codecs {
                epoch: EpochTracker::default(),
                config,
                video: Vec::new(),
                audio: Vec::new(),
            },
        }
    }

    /// Creates a decoder from one common runtime configuration.
    pub fn with_config(config: Config) -> (r: Result<Self, BackendUnavailable>)
        ensures
            match r {
                Ok(decoder) => {
                    &&& config::available(config.cpu)
                    &&& decoder.wf()
                    &&& decoder.flow() == parser::fresh_flow(
                        config.limits.max_packet_bytes as int,
                        if config.limits.max_stream_buffer_bytes < 32 {
                            32
                        } else {
                            config.limits.max_stream_buffer_bytes as int
                        },
                    )
                    &&& decoder.parser.reserved() is None
                    &&& decoder.session().limits == config.limits
                    &&& decoder.session().video.len() == 0
                    &&& decoder.session().audio.len() == 0
                    &&& decoder.session().epoch == (EpochTracker {
                        active: false,
                        expected: None,
                        current: None,
                    })
                },
                Err(e) => !config::available(config.cpu) && e == BackendUnavailable(config.cpu),
            },
    {
        match kernel_set(config.cpu) {
            Ok(kernels) => Ok(
                ContainerStreamDecoder {
                    parser: StreamParser::with_limits(config.limits, kernels),
                    codecs: Codecs {
                        epoch: EpochTracker::default(),
                        config,
                        video: Vec::new(),
                        audio: Vec::new(),
                    },
                },
            ),
            Err(e) => Err(e),
        }
    }

    /// Reserves parser-owned writable storage for a transport fragment.
    pub fn reserve_fragment(&mut self, len: usize) -> (r: Result<&mut [u8], ContainerError>)
        requires
            old(self).wf(),
        ensures
            match r {
                Ok(slot) => {
                    &&& old(self).parser.reserved() is None
                    &&& old(self).flow().pending.len() + len <= old(self).parser.max_buffer
                    &&& slot@.len() == len
                    &&& forall|i: int| 0 <= i < len ==> #[trigger] slot@[i] == 0
                    &&& final(slot)@.len() == len ==> {
                        &&& final(self).wf()
                        &&& final(self).flow() == old(self).flow()
                        &&& final(self).session() == old(self).session()
                        &&& final(self).parser.reserved() == Some(final(slot)@)
                    }
                },
                Err(e) => {
                    &&& final(self).wf()
                    &&& final(self).flow() == old(self).flow()
                    &&& final(self).session() == old(self).session()
                    &&& final(self).parser.reserved() == old(self).parser.reserved()
                    &&& if old(self).parser.reserved() is Some {
                        e == ContainerError::ParserState
                    } else {
                        e == ContainerError::ResourceLimit && (old(self).flow().pending.len() + len
                            > old(self).parser.max_buffer || old(self).parser.max_buffer + 65_536
                            > usize::MAX)
                    }
                },
            },
    {
        self.parser.reserve_fragment(len)
    }

    /// Decodes complete packets while the consumer takes their outputs.
    fn deliver<E, F: FnMut(DecodedOutput) -> Result<(), E>>(&mut self, consume: F) -> (r: Result<
        (),
        StreamDecodeError<E>,
    >)
        requires
            old(self).wf(),
            old(self).parser.reserved_start is None,
            forall|o: DecodedOutput| call_requires(consume, (o,)),
        ensures
            final(self).wf(),
            final(self).parser.reserved_start is None,
            decoded(
                old(self).flow(),
                old(self).session(),
                consume,
                (final(self).flow(), final(self).session()),
                r,
            ),
    {
        let ghost handler = consume;
        let mut consumer: F = consume;
        let ghost open = self.flow();
        let ghost session = self.session();
        let ghost d = open.drained();
        let ghost mut k: int = 0;
        assert(d.packets.skip(0) =~= d.packets);
        loop
            invariant_except_break
                self.wf(),
                self.parser.reserved_start is None,
                forall|o: DecodedOutput| call_requires(consumer, (o,)),
                consumer == handler,
                handler == consume,
                open == old(self).flow(),
                session == old(self).session(),
                d == open.drained(),
                0 <= k <= d.packets.len(),
                self.flow() == open.after(k),
                self.session() == session.after(d.packets, k),
                self.flow().drained().packets == d.packets.skip(k),
                self.flow().drained().flow == d.flow,
                self.flow().drained().error == d.error,
                took::<E, F>(handler, session, d.packets, k),
            ensures
                self.wf(),
                self.parser.reserved_start is None,
                handler == consume,
                open == old(self).flow(),
                session == old(self).session(),
                d == open.drained(),
                d.error is None,
                all_taken::<E, F>(open, session, handler, (self.flow(), self.session())),
            decreases self.flow().pending.len(),
        {
            let ghost mut given: Result<(), E> = arbitrary();
            proof {
                flow::lemma_next_size(self.flow());
                if k < d.packets.len() {
                    flow::lemma_after(open, k);
                } else {
                    flow::lemma_after_all(open);
                    assert(d.packets.skip(k) =~= Seq::empty());
                }
            }
            let n: usize = match self.parser.peek() {
                Err(e) => {
                    assert(k == d.packets.len());
                    assert(all_taken::<E, F>(open, session, handler, (self.flow(), self.session())));
                    return Err(StreamDecodeError::Container(e));
                },
                Ok(None) => {
                    assert(k == d.packets.len());
                    break;
                },
                Ok(Some((view, stream, n))) => {
                    assert(k < d.packets.len());
                    assert(d.packets[k] == (view.model(), copied(stream)));
                    let output: DecodedOutput = match self.codecs.decode(view, stream) {
                        Ok(output) => output,
                        Err(failure) => {
                            let e: StreamDecodeError<E> = match failure {
                                DecodeFailure::Container(e) => StreamDecodeError::Container(e),
                                DecodeFailure::Video(e) => StreamDecodeError::Video(e),
                                DecodeFailure::Audio(e) => StreamDecodeError::Audio(e),
                            };
                            assert(failed_at::<E, F>(
                                open,
                                session,
                                handler,
                                (self.flow(), self.session()),
                                e,
                                k,
                            ));
                            return Err(e);
                        },
                    };
                    let ghost model = output.model();
                    let answer: Result<(), E> = consumer(output);
                    proof {
                        given = answer;
                    }
                    assert(handed::<E, F>(handler, model, given));
                    match answer {
                        Ok(()) => {},
                        Err(e) => {
                            let ghost reason = e;
                            let stop: Result<(), StreamDecodeError<E>> = Err(
                                StreamDecodeError::Consumer(e),
                            );
                            assert(refused_at::<E, F>(
                                open,
                                session,
                                handler,
                                (self.flow(), self.session()),
                                reason,
                                k,
                            ));
                            assert(stop->Err_0->Consumer_0 == reason);
                            return stop;
                        },
                    }
                    n
                },
            };
            self.parser.skip(n);
            proof {
                assert forall|i: int| 0 <= i < k + 1 implies ((#[trigger] session.output(
                    d.packets,
                    i,
                )) matches Ok(output) && accepted::<E, F>(handler, output)) by {
                    if i == k {
                        let output = session.output(d.packets, k)->Ok_0;
                        assert(handed::<E, F>(handler, output, given));
                    }
                }
                assert(self.flow() == open.after(k + 1));
                if k + 1 < d.packets.len() {
                    flow::lemma_after(open, k + 1);
                } else {
                    flow::lemma_after_all(open);
                    assert(d.packets.skip(k + 1) =~= Seq::empty());
                }
                k = k + 1;
            }
        }
        self.parser.settle();
        Ok(())
    }

    /// Commits bytes from the latest reservation and synchronously emits decoded outputs.
    pub fn commit_reserved<E, F: FnMut(DecodedOutput) -> Result<(), E>>(
        &mut self,
        written: usize,
        consume: F,
    ) -> (r: Result<(), StreamDecodeError<E>>)
        requires
            old(self).wf(),
            forall|o: DecodedOutput| call_requires(consume, (o,)),
        ensures
            final(self).wf(),
            final(self).parser.reserved_start is None,
            match old(self).parser.reserved() {
                None => r == Err::<(), StreamDecodeError<E>>(
                    StreamDecodeError::Container(ContainerError::ParserState),
                ) && final(self).flow() == old(self).flow() && final(self).session() == old(
                    self
                ).session(),
                Some(slot) => if written > slot.len() {
                    r == Err::<(), StreamDecodeError<E>>(
                        StreamDecodeError::Container(ContainerError::ParserState),
                    ) && final(self).flow() == old(self).flow() && final(self).session() == old(
                        self
                    ).session()
                } else {
                    stepped(
                        old(self).flow().with_pending(
                            old(self).flow().pending + slot.take(written as int),
                        ),
                        old(self).session(),
                        consume,
                        (final(self).flow(), final(self).session()),
                        r,
                    )
                },
            },
    {
        match self.parser.begin_commit(written) {
            Ok(()) => self.deliver(consume),
            Err(e) => Err(StreamDecodeError::Container(e)),
        }
    }

    /// Copies one arbitrary transport fragment and emits every complete decoded output available.
    pub fn push_each<E, F: FnMut(DecodedOutput) -> Result<(), E>>(
        &mut self,
        fragment: &[u8],
        consume: F,
    ) -> (r: Result<(), StreamDecodeError<E>>)
        requires
            old(self).wf(),
            forall|o: DecodedOutput| call_requires(consume, (o,)),
        ensures
            final(self).wf(),
            if old(self).parser.reserved() is Some {
                &&& r == Err::<(), StreamDecodeError<E>>(
                    StreamDecodeError::Container(ContainerError::ParserState),
                )
                &&& final(self).flow() == old(self).flow()
                &&& final(self).session() == old(self).session()
                &&& final(self).parser.reserved() == old(self).parser.reserved()
            } else {
                &&& final(self).parser.reserved() is None
                &&& if old(self).flow().pending.len() + fragment@.len() > old(
                    self
                ).parser.max_buffer {
                    &&& r == Err::<(), StreamDecodeError<E>>(
                        StreamDecodeError::Container(ContainerError::ResourceLimit),
                    )
                    &&& final(self).flow() == old(self).flow()
                    &&& final(self).session() == old(self).session()
                } else {
                    ||| stepped(
                        old(self).flow().with_pending(old(self).flow().pending + fragment@),
                        old(self).session(),
                        consume,
                        (final(self).flow(), final(self).session()),
                        r,
                    )
                    ||| old(self).parser.max_buffer + 65_536 > usize::MAX && r == Err::<
                        (),
                        StreamDecodeError<E>,
                    >(StreamDecodeError::Container(ContainerError::ResourceLimit)) && final(
                        self
                    ).flow() == old(self).flow() && final(self).session() == old(self).session()
                }
            },
    {
        match self.parser.reserve_copy(fragment) {
            Ok(()) => {},
            Err(e) => {
                return Err(StreamDecodeError::Container(e));
            },
        }
        assert(fragment@.take(fragment@.len() as int) =~= fragment@);
        self.commit_reserved(fragment.len(), consume)
    }

    /// Resets to a new complete file stream, clearing codec state and previously parsed index data.
    pub fn reset_file(&mut self)
        requires
            old(self).wf(),
        ensures
            final(self).wf(),
            final(self).flow() == parser::fresh_flow(
                old(self).parser.max_packet as int,
                old(self).parser.max_buffer as int,
            ),
            final(self).parser.reserved() is None,
            final(self).session() == (Session {
                epoch: EpochTracker { active: false, expected: None, current: None },
                limits: old(self).session().limits,
                video: Seq::empty(),
                audio: Seq::empty(),
            }),
    {
        self.parser.reset_file();
        self.codecs.epoch.reset_file();
        self.codecs.video.clear();
        self.codecs.audio.clear();
        assert(self.session().video =~= Seq::empty());
        assert(self.session().audio =~= Seq::empty());
    }

    /// Resets to one independently fetched indexed epoch range. Stream-local codec state is
    /// retained, while every video reference history is cleared as required by an epoch boundary.
    pub fn reset_epoch_range(&mut self, expected_epoch: Option<u32>)
        requires
            old(self).wf(),
        ensures
            final(self).wf(),
            final(self).flow() == (flow::Flow {
                pending: Seq::empty(),
                prefix_done: true,
                ..old(self).flow()
            }),
            final(self).parser.reserved() is None,
            final(self).session() == (Session {
                epoch: EpochTracker { active: false, expected: expected_epoch, current: None },
                ..old(self).session().forgotten()
            }),
    {
        self.parser.reset_epoch_range();
        self.codecs.epoch.reset_range(expected_epoch);
        self.codecs.forget();
        assert(self.session().video =~= old(self).session().forgotten().video);
    }

    /// Validated fixed header when the complete header has arrived.
    pub fn file_header(&self) -> (r: Option<&FileHeader>)
        ensures
            match r {
                Some(h) => self.flow().header == Some(*h),
                None => self.flow().header is None,
            },
    {
        self.parser.file_header()
    }

    /// Validated front index when the complete prefix has arrived.
    pub fn front_index(&self) -> (r: Option<&Front>)
        ensures
            match r {
                Some(front) => self.flow().front == Some(front.model()),
                None => self.flow().front is None,
            },
    {
        self.parser.front_index()
    }

    /// Current validated epoch identifier.
    pub fn current_epoch(&self) -> (r: Option<u32>)
        ensures
            r == self.session().epoch.current,
    {
        self.codecs.epoch.current()
    }

    /// Validates that the current file/range transaction ended on a complete packet boundary.
    pub fn finish_input(&self) -> (r: Result<(), ContainerError>)
        requires
            self.wf(),
        ensures
            r == (if self.parser.reserved() is Some {
                Err::<(), ContainerError>(ContainerError::ParserState)
            } else if self.flow().pending.len() == 0 {
                Ok(())
            } else {
                Err(ContainerError::TrailingData)
            }),
    {
        self.parser.finish_input()
    }

    /// Consumes the decoder after validating complete input.
    pub fn finish(self) -> (r: Result<(), ContainerError>)
        requires
            self.wf(),
        ensures
            r == (if self.parser.reserved() is Some {
                Err::<(), ContainerError>(ContainerError::ParserState)
            } else if self.flow().pending.len() == 0 {
                Ok(())
            } else {
                Err(ContainerError::TrailingData)
            }),
    {
        self.parser.finish()
    }
}

/// What a step gives: first the header and front index are taken.
pub open spec fn stepped<E, F: FnMut(DecodedOutput) -> Result<(), E>>(
    start: flow::Flow,
    session: Session,
    consume: F,
    after: (flow::Flow, Session),
    r: Result<(), StreamDecodeError<E>>,
) -> bool {
    match start.opened().1 {
        Some(e) => r == Err::<(), StreamDecodeError<E>>(StreamDecodeError::Container(e)) && after
            == (start.opened().0, session),
        None => decoded(start.opened().0, session, consume, after, r),
    }
}

// ---------------------------------------------------------------------------------------------
// Laws

/// Streams do not meet: a packet of one video stream leaves what is known of every other stream
/// as it was.
pub proof fn law_streams_apart(
    session: Session,
    p: syntax::PacketModel,
    stream: Option<StreamDesc>,
    other: u16,
    desc: StreamDesc,
)
    requires
        p.kind == PacketKind::VideoFrame || p.kind == PacketKind::AudioFrame,
        other != p.stream_id,
    ensures
        session.step(p, stream).0.video_state(other, desc) == session.video_state(other, desc),
        session.step(p, stream).0.audio_state(other, desc) == session.audio_state(other, desc),
{
    reveal(Session::step);
    if let Ok((epoch, started)) = session.epoch.observed(p) {
        let here = Session { epoch, ..session };
        if let Some(s) = stream {
            let state = here.video_state(p.stream_id, s);
            lemma_other_slot(here.video, p.stream_id, state, other, 0);
            match video::v1::history::decoded_next(p.payload, state.history, state.bounds) {
                Ok((frame_id, picture, ids)) => {
                    let after = VideoModel {
                        history: video::v1::history::extended(state.history, frame_id, picture),
                        bounds: state.bounds,
                    };
                    lemma_other_slot(here.video, p.stream_id, after, other, 0);
                },
                Err(e) => {},
            }
            let sound = here.audio_state(p.stream_id, s);
            lemma_other_slot(here.audio, p.stream_id, sound, other, 0);
        }
        assert(here.video_step(p, stream).0.video_state(other, desc) == here.video_state(
            other,
            desc,
        ));
        assert(here.audio_step(p, stream).0.audio_state(other, desc) == here.audio_state(
            other,
            desc,
        ));
    }
}

pub proof fn lemma_other_slot<T>(list: Seq<(u16, T)>, id: u16, value: T, other: u16, i: int)
    requires
        other != id,
        0 <= i <= list.len(),
    ensures
        ({
            let next = with_slot(list, id, value);
            let (k, j) = (slot(list, other, i), slot(next, other, i));
            &&& k < list.len() ==> j == k && next[j].1 == list[k].1
            &&& k == list.len() ==> j == next.len()
            &&& k <= list.len() <= next.len()
        }),
    decreases list.len() - i,
{
    lemma_slot(list, id, 0);
    let next = with_slot(list, id, value);
    if i < list.len() {
        lemma_other_slot(list, id, value, other, i + 1);
        assert(next[i].0 == list[i].0);
    } else {
        reveal_with_fuel(slot, 3);
    }
}

/// Nothing is shown before an epoch starts, and the start of an epoch forgets every reference
/// picture.
pub proof fn law_epoch_gate(session: Session, p: syntax::PacketModel, stream: Option<StreamDesc>)
    ensures
        !session.epoch.active && p.kind != PacketKind::EpochStart ==> session.step(p, stream) == (
            session,
            Err::<OutputModel, DecodeFailure>(DecodeFailure::Container(ContainerError::BadEpoch)),
        ),
        p.kind == PacketKind::EpochStart && session.step(p, stream).1 is Ok ==> (forall|i: int|
            0 <= i < session.video.len() ==> (#[trigger] session.step(
                p,
                stream,
            ).0.video[i]).1.history.len() == 0),
{
    reveal(Session::step);
}

} // verus!
