//! Files made of clips and samples.
use crate::audio;
use crate::audio::v1::AudioError;
use crate::bytes;
use crate::container::v1::syntax;
use crate::container::v1::wire;
use crate::container::v1::{
    encode_packet, encode_packet_checked, ContainerError, Packet, PacketKind, StreamDesc, StreamKind,
    TIMEBASE,
};
use crate::media;
use crate::media::scene;
use crate::media::scene::epoch_starts;
use crate::media::{fps_flags, preset, prod_voptions, Backend, Clip, MediaError};
use crate::mux;
use crate::mux::assemble::build_output;
use crate::mux::epoch;
use crate::mux::epoch::interleave;
use crate::mux::MuxError;
use crate::reference;
use crate::reference::frame::Frame420;
use crate::video;
use crate::video::v1::history;
use crate::video::v1::packets;
use crate::video::v1::syntax::Picture;
use crate::video::v1::{EncoderPreset, SharedEncodedFrame, VideoEncoder, VideoError};
use std::collections::VecDeque;
use vstd::prelude::*;

verus! {

// ---------------------------------------------------------------------------------------------
// Frames

/// The newest references first, and no more than this many.
pub open spec fn newest(references: Seq<(u64, Picture)>, n: int) -> Seq<(u64, Picture)> {
    if references.len() < n {
        references.reverse()
    } else {
        references.reverse().take(n)
    }
}

/// The packet of a frame and what its decoder will show; or why it cannot be coded.
#[verifier::opaque]
pub open spec fn coded_frame(
    backend: Backend,
    id: u64,
    picture: Picture,
    references: Seq<(u64, Picture)>,
    opt: reference::video_encoder::EncodeOptions,
) -> Result<(Seq<u8>, Picture), MediaError> {
    match backend {
        Backend::Production => {
            let options = media::production_options(opt);
            let refs = packets::considered(references.reverse(), options);
            if !video::v1::syntax::dimensions_ok(picture.width, picture.height) {
                Err(MediaError::Conversion(VideoError::BadDimensions))
            } else if !picture.sized() {
                Err(MediaError::Conversion(VideoError::PlaneLength))
            } else {
                match history::refused_next(id, picture, references, options, 67_108_864) {
                    Some(e) => Err(MediaError::VideoEncode(id, e)),
                    None => Ok(
                        (
                            packets::packet_bytes(id, picture, refs, options),
                            packets::reconstruction(picture, refs, options),
                        ),
                    ),
                }
            }
        },
        Backend::Reference => {
            let list = newest(references, opt.max_refs as int);
            let refs = reference::video_encoder::considered(list, opt);
            match reference::video_encoder::encode_error(picture, list, opt) {
                Some(e) => Err(MediaError::VideoEncode(id, e)),
                None => Ok(
                    (
                        reference::video_encoder::packet_bytes(id, picture, refs, opt),
                        reference::video_encoder::reconstruction(picture, refs, opt),
                    ),
                ),
            }
        },
    }
}

/// The packets of the frames from `i` to `end`, coded one after the other with what came before.
pub open spec fn coded_frames(
    backend: Backend,
    frames: Seq<Picture>,
    i: int,
    end: int,
    references: Seq<(u64, Picture)>,
    opt: reference::video_encoder::EncodeOptions,
    frame_us: int,
) -> Result<Seq<syntax::PacketModel>, MediaError>
    decreases end - i,
{
    if i >= end {
        Ok(Seq::empty())
    } else {
        match coded_frame(backend, i as u64, frames[i], references, opt) {
            Err(e) => Err(e),
            Ok((packet, shown)) => match coded_frames(
                backend,
                frames,
                i + 1,
                end,
                history::extended(references, i as u64, shown),
                opt,
                frame_us,
            ) {
                Err(e) => Err(e),
                Ok(rest) => Ok(
                    seq![
                        epoch::video_packet(
                            (i * frame_us) as u64,
                            (frame_us % 0x1_0000_0000) as u32,
                            packet,
                        ),
                    ] + rest,
                ),
            },
        }
    }
}

/// What numbered frames show.
pub open spec fn remembered(frames: Seq<(u64, Frame420)>) -> Seq<(u64, Picture)> {
    Seq::new(frames.len(), |i: int| (frames[i].0, frames[i].1.picture()))
}

/// The encoder of an epoch.
pub struct EpochCoder {
    pub backend: Backend,
    pub options: reference::video_encoder::EncodeOptions,
    /// The production encoder, which keeps its own references.
    pub encoder: VideoEncoder,
    /// The references of the reference encoder, the oldest first.
    pub frames: VecDeque<(u64, Frame420)>,
}

/// The references to hand to the reference encoder.
fn newest_frames(frames: &VecDeque<(u64, Frame420)>, n: usize) -> (r: Vec<(u64, &Frame420)>)
    ensures
        reference::frame::numbered(r@) == newest(remembered(frames@), n as int),
{
    let mut r: Vec<(u64, &Frame420)> = Vec::new();
    let mut i: usize = frames.len();
    while i > 0 && r.len() < n
        invariant
            i <= frames@.len(),
            r@.len() == frames@.len() - i,
            r@.len() <= n,
            forall|j: int|
                0 <= j < r@.len() ==> (#[trigger] r@[j]).0 == frames@[frames@.len() - 1 - j].0
                    && *r@[j].1 == frames@[frames@.len() - 1 - j].1,
        decreases i,
    {
        i = i - 1;
        let entry: &(u64, Frame420) = &frames[i];
        r.push((entry.0, &entry.1));
    }
    assert(reference::frame::numbered(r@) =~= newest(remembered(frames@), n as int));
    r
}

/// The frame as the production encoder takes it.
fn to_prod_frame(frame: &Frame420) -> (r: Result<video::v1::Frame420, MediaError>)
    ensures
        match r {
            Ok(f) => f.picture() == frame.picture() && frame.picture().valid(),
            Err(e) => !frame.picture().valid() && e == MediaError::Conversion(
                if video::v1::syntax::dimensions_ok(frame.width as int, frame.height as int) {
                    VideoError::PlaneLength
                } else {
                    VideoError::BadDimensions
                },
            ),
        },
{
    let mut y: Vec<u8> = Vec::new();
    bytes::put_slice(&frame.y, &mut y);
    let mut u: Vec<u8> = Vec::new();
    bytes::put_slice(&frame.u, &mut u);
    let mut v: Vec<u8> = Vec::new();
    bytes::put_slice(&frame.v, &mut v);
    assert(y@ =~= frame.y@);
    assert(u@ =~= frame.u@);
    assert(v@ =~= frame.v@);
    proof {
        let (w, h) = (frame.width as int, frame.height as int);
        if video::v1::syntax::dimensions_ok(w, h) {
            assert(w * h == 4 * ((w / 2) * (h / 2))) by (nonlinear_arith)
                requires
                    w == 2 * (w / 2),
                    h == 2 * (h / 2),
            ;
        }
    }
    match video::v1::Frame420::from_planes(frame.width, frame.height, y, u, v) {
        Ok(f) => Ok(f),
        Err(e) => Err(MediaError::Conversion(e)),
    }
}

impl EpochCoder {
    pub open spec fn wf(&self) -> bool {
        match self.backend {
            Backend::Production => {
                &&& self.encoder.wf()
                &&& self.encoder.options == media::production_options(self.options)
                &&& self.encoder.max_frame_pixels == 67_108_864
            },
            Backend::Reference => self.frames@.len() <= 4,
        }
    }

    /// What a frame may be predicted from, the oldest first.
    pub open spec fn references(&self) -> Seq<(u64, Picture)> {
        match self.backend {
            Backend::Production => self.encoder.references(),
            Backend::Reference => remembered(self.frames@),
        }
    }

    pub fn new(backend: Backend, options: reference::video_encoder::EncodeOptions) -> (r: Self)
        ensures
            r.wf(),
            r.backend == backend,
            r.options == options,
            r.references() == Seq::<(u64, Picture)>::empty(),
    {
        let r: EpochCoder = EpochCoder {
            backend,
            options,
            encoder: VideoEncoder::new(prod_voptions(options)),
            frames: VecDeque::new(),
        };
        assert(r.references() =~= Seq::<(u64, Picture)>::empty());
        r
    }

    /// Codes a frame and remembers what its decoder will show.
    pub fn code(&mut self, id: u64, frame: &Frame420) -> (r: Result<Vec<u8>, MediaError>)
        requires
            old(self).wf(),
        ensures
            final(self).wf(),
            final(self).backend == old(self).backend,
            final(self).options == old(self).options,
            ({
                let want = coded_frame(
                    old(self).backend,
                    id,
                    frame.picture(),
                    old(self).references(),
                    old(self).options,
                );
                match r {
                    Ok(packet) => {
                        &&& want is Ok
                        &&& packet@ == (want->Ok_0).0
                        &&& final(self).references() == history::extended(
                            old(self).references(),
                            id,
                            (want->Ok_0).1,
                        )
                    },
                    Err(e) => want == Err::<(Seq<u8>, Picture), MediaError>(e),
                }
            }),
    {
        proof {
            reveal(coded_frame);
        }
        let ghost before = self.references();
        match self.backend {
            Backend::Production => {
                let source: video::v1::Frame420 = match to_prod_frame(frame) {
                    Ok(source) => source,
                    Err(e) => {
                        return Err(e);
                    },
                };
                let encoded: SharedEncodedFrame = match self.encoder.encode_shared(id, &source) {
                    Ok(encoded) => encoded,
                    Err(e) => {
                        return Err(MediaError::VideoEncode(id, e));
                    },
                };
                Ok(encoded.packet)
            },
            Backend::Reference => {
                let refs: Vec<(u64, &Frame420)> = newest_frames(
                    &self.frames,
                    self.options.max_refs as usize,
                );
                let encoded: reference::video_encoder::EncodedFrame =
                    match reference::video_encoder::encode(id, frame, refs.as_slice(), self.options) {
                    Ok(encoded) => encoded,
                    Err(e) => {
                        return Err(MediaError::VideoEncode(id, e));
                    },
                };
                let ghost shown = encoded.reconstructed.picture();
                if self.frames.len() >= 4 {
                    let _ = self.frames.pop_front();
                }
                self.frames.push_back((id, encoded.reconstructed));
                assert(self.references() =~= history::extended(before, id, shown));
                Ok(encoded.packet)
            },
        }
    }
}

/// Codes the frames from `start` to `end` as an epoch.
fn encode_frames(
    backend: Backend,
    frames: &Vec<Frame420>,
    start: usize,
    end: usize,
    opt: reference::video_encoder::EncodeOptions,
    frame_us: u64,
) -> (r: Result<Vec<Packet>, MediaError>)
    requires
        start <= end <= frames@.len(),
        end * frame_us <= u64::MAX,
    ensures
        ({
            let want = coded_frames(
                backend,
                media::pictures(frames@),
                start as int,
                end as int,
                Seq::empty(),
                opt,
                frame_us as int,
            );
            match r {
                Ok(list) => want == Ok::<Seq<syntax::PacketModel>, MediaError>(
                    epoch::contents(list@),
                ) && forall|i: int| 0 <= i < list@.len() ==> (#[trigger] list@[i]).flags == 0,
                Err(e) => want == Err::<Seq<syntax::PacketModel>, MediaError>(e),
            }
        }),
{
    let ghost all = media::pictures(frames@);
    let ghost want = coded_frames(
        backend,
        all,
        start as int,
        end as int,
        Seq::empty(),
        opt,
        frame_us as int,
    );
    let mut coder: EpochCoder = EpochCoder::new(backend, opt);
    let mut list: Vec<Packet> = Vec::new();
    let mut i: usize = start;
    while i < end
        invariant
            all == media::pictures(frames@),
            start <= i,
            i <= end,
            end <= frames@.len(),
            end * frame_us <= u64::MAX,
            coder.wf(),
            coder.backend == backend,
            coder.options == opt,
            want == coded_frames(
                backend,
                media::pictures(frames@),
                start as int,
                end as int,
                Seq::empty(),
                opt,
                frame_us as int,
            ),
            forall|j: int| 0 <= j < list@.len() ==> (#[trigger] list@[j]).flags == 0,
            match coded_frames(
                backend,
                all,
                i as int,
                end as int,
                coder.references(),
                opt,
                frame_us as int,
            ) {
                Ok(rest) => want == Ok::<Seq<syntax::PacketModel>, MediaError>(
                    epoch::contents(list@) + rest,
                ),
                Err(e) => want == Err::<Seq<syntax::PacketModel>, MediaError>(e),
            },
        decreases end - i,
    {
        let ghost before = epoch::contents(list@);
        assert(all[i as int] == frames@[i as int].picture());
        let payload: Vec<u8> = match coder.code(i as u64, &frames[i]) {
            Ok(payload) => payload,
            Err(e) => {
                return Err(e);
            },
        };
        proof {
            assert(i * frame_us <= end * frame_us) by (nonlinear_arith)
                requires
                    0 <= i <= end,
                    0 <= frame_us,
            ;
        }
        let packet: Packet = Packet {
            kind: PacketKind::VideoFrame,
            flags: 0,
            stream_id: 1,
            pts: i as u64 * frame_us,
            duration: (frame_us % 0x1_0000_0000) as u32,
            payload,
        };
        let ghost p = packet.model();
        list.push(packet);
        proof {
            assert(epoch::contents(list@) =~= before.push(p));
            if let Ok(rest) = coded_frames(
                backend,
                all,
                i + 1,
                end as int,
                coder.references(),
                opt,
                frame_us as int,
            ) {
                assert(before + (seq![p] + rest) =~= epoch::contents(list@) + rest);
            }
        }
        i = i + 1;
    }
    assert(epoch::contents(list@) + Seq::<syntax::PacketModel>::empty() =~= epoch::contents(list@));
    Ok(list)
}

// ---------------------------------------------------------------------------------------------
// Samples

/// The packet of samples, or why they cannot be coded.
pub open spec fn coded_samples(backend: Backend, samples: Seq<i16>, opt: audio::v1::EncodeOptions) -> Result<
    Seq<u8>,
    MediaError,
> {
    match backend {
        Backend::Production => match audio::v1::codec::refused(samples, opt) {
            Some(e) => Err(MediaError::AudioEncode(e)),
            None => Ok(audio::v1::codec::packet_bytes(samples, opt)),
        },
        Backend::Reference => match audio::v1::syntax::encode_error(samples, opt) {
            Some(e) => Err(MediaError::AudioEncode(e)),
            None => Ok(reference::audio::packet_bytes(samples, opt)),
        },
    }
}

/// The packets of the sample frames from `from` to `end`, 960 at a time.
pub open spec fn coded_audio(
    backend: Backend,
    samples: Seq<i16>,
    from: int,
    end: int,
    opt: audio::v1::EncodeOptions,
) -> Result<Seq<syntax::PacketModel>, MediaError>
    decreases end - from,
{
    if from >= end {
        Ok(Seq::empty())
    } else {
        let n = epoch::packet_frames(from, end);
        match coded_samples(
            backend,
            epoch::slice(samples, 0, from, n, opt.channels as int),
            opt,
        ) {
            Err(e) => Err(e),
            Ok(payload) => match coded_audio(backend, samples, from + n, end, opt) {
                Err(e) => Err(e),
                Ok(rest) => Ok(
                    seq![
                        syntax::PacketModel {
                            kind: PacketKind::AudioFrame,
                            flags: 0,
                            stream_id: 2,
                            pts: (from * 1_000_000 / opt.sample_rate as int) as u64,
                            duration: (n * 1_000_000 / opt.sample_rate as int) as u32,
                            payload,
                        },
                    ] + rest,
                ),
            },
        }
    }
}

/// Codes samples.
fn encode_samples(backend: Backend, samples: &[i16], opt: audio::v1::EncodeOptions) -> (r: Result<
    Vec<u8>,
    MediaError,
>)
    ensures
        match r {
            Ok(packet) => coded_samples(backend, samples@, opt) == Ok::<Seq<u8>, MediaError>(
                packet@,
            ),
            Err(e) => coded_samples(backend, samples@, opt) == Err::<Seq<u8>, MediaError>(e),
        },
{
    let coded: Result<Vec<u8>, AudioError> = match backend {
        Backend::Production => audio::v1::encode(samples, opt),
        Backend::Reference => reference::audio::encode(samples, opt),
    };
    match coded {
        Ok(packet) => Ok(packet),
        Err(e) => Err(MediaError::AudioEncode(e)),
    }
}

/// Codes the sample frames from `from` to `end`.
fn encode_audio_run(
    backend: Backend,
    samples: &[i16],
    from: u64,
    end: u64,
    opt: audio::v1::EncodeOptions,
) -> (r: Result<Vec<Packet>, MediaError>)
    requires
        opt.sample_rate > 0,
        opt.channels > 0,
        end * opt.channels <= samples@.len(),
        end * 1_000_000 <= u64::MAX,
    ensures
        match r {
            Ok(list) => coded_audio(backend, samples@, from as int, end as int, opt) == Ok::<
                Seq<syntax::PacketModel>,
                MediaError,
            >(epoch::contents(list@)) && forall|i: int|
                0 <= i < list@.len() ==> (#[trigger] list@[i]).flags == 0,
            Err(e) => coded_audio(backend, samples@, from as int, end as int, opt) == Err::<
                Seq<syntax::PacketModel>,
                MediaError,
            >(e),
        },
{
    let ghost all = coded_audio(backend, samples@, from as int, end as int, opt);
    let c: usize = opt.channels as usize;
    let mut list: Vec<Packet> = Vec::new();
    let mut at: u64 = from;
    while at < end
        invariant
            opt.sample_rate > 0,
            opt.channels > 0,
            c == opt.channels,
            end * c <= samples@.len(),
            end * 1_000_000 <= u64::MAX,
            from <= at,
            from < end ==> at <= end,
            all == coded_audio(backend, samples@, from as int, end as int, opt),
            forall|i: int| 0 <= i < list@.len() ==> (#[trigger] list@[i]).flags == 0,
            match coded_audio(backend, samples@, at as int, end as int, opt) {
                Ok(rest) => all == Ok::<Seq<syntax::PacketModel>, MediaError>(
                    epoch::contents(list@) + rest,
                ),
                Err(e) => all == Err::<Seq<syntax::PacketModel>, MediaError>(e),
            },
        decreases end - at,
    {
        let n: u64 = if end - at < 960 {
            end - at
        } else {
            960
        };
        proof {
            assert(0 <= at * c && (at + n) * c <= samples@.len() && at * c <= (at + n) * c && at <= at
                * c && at + n <= (at + n) * c) by (nonlinear_arith)
                requires
                    0 <= at,
                    0 <= n,
                    1 <= c,
                    at + n <= end,
                    end * c <= samples@.len(),
            ;
            assert(samples.len() == samples@.len());
            epoch::lemma_duration(n as int, opt.sample_rate as int);
        }
        let low: usize = at as usize * c;
        let high: usize = (at + n) as usize * c;
        let payload: Vec<u8> = match encode_samples(backend, &samples[low..high], opt) {
            Ok(payload) => payload,
            Err(e) => {
                return Err(e);
            },
        };
        let ghost before = epoch::contents(list@);
        let packet: Packet = Packet {
            kind: PacketKind::AudioFrame,
            flags: 0,
            stream_id: 2,
            pts: at * 1_000_000 / opt.sample_rate as u64,
            duration: (n * 1_000_000 / opt.sample_rate as u64) as u32,
            payload,
        };
        let ghost p = packet.model();
        list.push(packet);
        proof {
            assert(epoch::contents(list@) =~= before.push(p));
            if let Ok(rest) = coded_audio(backend, samples@, at + n, end as int, opt) {
                assert(before + (seq![p] + rest) =~= epoch::contents(list@) + rest);
            }
        }
        at = at + n;
    }
    assert(epoch::contents(list@) + Seq::<syntax::PacketModel>::empty() =~= epoch::contents(list@));
    Ok(list)
}

// ---------------------------------------------------------------------------------------------
// Epochs

/// The bytes of an epoch: its start, then its packets. The production framing refuses a payload
/// whose length does not fit 32 bits.
pub open spec fn range_bytes(
    backend: Backend,
    id: u32,
    pts: u64,
    duration: u32,
    list: Seq<syntax::PacketModel>,
) -> Result<Seq<u8>, MediaError> {
    if backend == Backend::Production && !epoch::payloads_fit(list) {
        Err(MediaError::PacketEncode(ContainerError::ResourceLimit))
    } else {
        Ok(syntax::packet_bytes(epoch::start_packet(id, pts, duration)) + epoch::framed(list))
    }
}

/// Appends a packet.
fn encode_packet_for_backend(packet: &Packet, out: &mut Vec<u8>, backend: Backend) -> (r: Result<
    (),
    MediaError,
>)
    requires
        packet.flags == 0,
    ensures
        match r {
            Ok(()) => final(out)@ == old(out)@ + syntax::packet_bytes(packet.model()) && (backend
                == Backend::Production ==> packet.payload@.len() <= u32::MAX),
            Err(e) => backend == Backend::Production && packet.payload@.len() > u32::MAX && e
                == MediaError::PacketEncode(ContainerError::ResourceLimit),
        },
{
    match backend {
        Backend::Production => match encode_packet_checked(packet, out) {
            Ok(()) => Ok(()),
            Err(e) => Err(MediaError::PacketEncode(e)),
        },
        Backend::Reference => {
            encode_packet(packet, out);
            Ok(())
        },
    }
}

/// Writes the packets of an epoch.
fn write_range(backend: Backend, id: u32, pts: u64, duration: u32, list: &Vec<Packet>) -> (r: Result<
    Vec<u8>,
    MediaError,
>)
    requires
        forall|i: int| 0 <= i < list@.len() ==> (#[trigger] list@[i]).flags == 0,
    ensures
        match r {
            Ok(out) => range_bytes(backend, id, pts, duration, epoch::contents(list@)) == Ok::<
                Seq<u8>,
                MediaError,
            >(out@),
            Err(e) => range_bytes(backend, id, pts, duration, epoch::contents(list@)) == Err::<
                Seq<u8>,
                MediaError,
            >(e),
        },
{
    let ghost all = epoch::contents(list@);
    let mut payload: Vec<u8> = Vec::new();
    bytes::put_u32_le(id, &mut payload);
    assert(payload@ =~= bytes::le_bytes(id as int, 4));
    proof {
        bytes::lemma_le_bytes_len(id as int, 4);
    }
    let start: Packet = Packet {
        kind: PacketKind::EpochStart,
        flags: 0,
        stream_id: 0,
        pts,
        duration,
        payload,
    };
    let mut out: Vec<u8> = Vec::new();
    match encode_packet_for_backend(&start, &mut out, backend) {
        Ok(()) => {},
        Err(e) => {
            return Err(e);
        },
    }
    let ghost head = out@;
    assert(head =~= syntax::packet_bytes(epoch::start_packet(id, pts, duration)));
    let mut i: usize = 0;
    assert(out@ =~= head + epoch::framed(all.take(0)));
    while i < list.len()
        invariant
            all == epoch::contents(list@),
            i <= list@.len(),
            forall|j: int| 0 <= j < list@.len() ==> (#[trigger] list@[j]).flags == 0,
            backend == Backend::Production ==> forall|j: int|
                0 <= j < i ==> (#[trigger] all[j]).payload.len() <= u32::MAX,
            out@ == head + epoch::framed(all.take(i as int)),
        decreases list@.len() - i,
    {
        assert(all[i as int] == list@[i as int].model());
        match encode_packet_for_backend(&list[i], &mut out, backend) {
            Ok(()) => {},
            Err(e) => {
                assert(all[i as int].payload.len() > u32::MAX);
                return Err(e);
            },
        }
        proof {
            assert(all.take(i + 1).drop_last() =~= all.take(i as int));
            assert(out@ =~= head + epoch::framed(all.take(i + 1)));
        }
        i = i + 1;
    }
    assert(all.take(i as int) =~= all);
    Ok(out)
}

/// Samples to go with a clip, and how they are coded.
#[derive(Debug, Clone, Copy)]
pub struct Soundtrack<'a> {
    pub samples: &'a [i16],
    pub channels: u8,
    pub rate: u32,
}

/// How a clip becomes a file.
#[derive(Debug, Clone, Copy, PartialEq, Eq, Structural)]
pub struct Recipe {
    pub backend: Backend,
    pub preset: EncoderPreset,
    pub video_q: u16,
    pub audio_q: u16,
    /// The longest that an epoch may be, in frames.
    pub epoch_frames: u64,
}

/// The samples of a soundtrack and how they are coded.
#[verifier::ext_equal]
pub struct Sound {
    pub samples: Seq<i16>,
    pub options: audio::v1::EncodeOptions,
}

pub open spec fn sound_of(track: Soundtrack<'_>, q: u16) -> Sound {
    Sound {
        samples: track.samples@,
        options: audio::v1::EncodeOptions {
            sample_rate: track.rate,
            channels: track.channels,
            qstep: q,
            mid_side: true,
        },
    }
}

/// The audio packets from `pts` to `end_pts`.
pub open spec fn sound_between(backend: Backend, sound: Option<Sound>, pts: int, end_pts: int) -> Result<
    Seq<syntax::PacketModel>,
    MediaError,
> {
    match sound {
        None => Ok(Seq::empty()),
        Some(sound) => {
            let rate = sound.options.sample_rate as int;
            if end_pts * rate > u64::MAX {
                Err(MediaError::Timestamp)
            } else {
                coded_audio(
                    backend,
                    sound.samples,
                    pts * rate / 1_000_000,
                    media::least(
                        end_pts * rate / 1_000_000,
                        sound.samples.len() as int / sound.options.channels as int,
                    ),
                    sound.options,
                )
            }
        },
    }
}

/// Epoch `k`, which goes from frame `start` to frame `end`.
#[verifier::opaque]
pub open spec fn clip_epoch(
    recipe: Recipe,
    clip: media::ClipModel,
    sound: Option<Sound>,
    k: int,
    start: int,
    end: int,
) -> Result<syntax::EpochRange, MediaError> {
    let frame_us = media::frame_duration(clip.fps_n, clip.fps_d);
    let (pts, end_pts) = (start * frame_us, end * frame_us);
    let id = (k % 0x1_0000_0000) as u32;
    let duration = ((end_pts - pts) % 0x1_0000_0000) as u32;
    if end_pts > u64::MAX {
        Err(MediaError::Timestamp)
    } else {
        match coded_frames(
            recipe.backend,
            clip.frames,
            start,
            end,
            Seq::empty(),
            media::reference_options(recipe.preset, recipe.video_q),
            frame_us,
        ) {
            Err(e) => Err(e),
            Ok(video) => match sound_between(recipe.backend, sound, pts, end_pts) {
                Err(e) => Err(e),
                Ok(audio) => match range_bytes(
                    recipe.backend,
                    id,
                    pts as u64,
                    duration,
                    epoch::interleaved(video, audio),
                ) {
                    Err(e) => Err(e),
                    Ok(bytes) => Ok(syntax::EpochRange { id, pts: pts as u64, duration, bytes }),
                },
            },
        }
    }
}

/// Where epoch `k` ends.
pub open spec fn epoch_end(starts: Seq<int>, k: int, frames: int) -> int {
    if k + 1 < starts.len() {
        starts[k + 1]
    } else {
        frames
    }
}

/// The epochs from `k` on.
pub open spec fn clip_epochs(
    recipe: Recipe,
    clip: media::ClipModel,
    sound: Option<Sound>,
    starts: Seq<int>,
    k: int,
) -> Result<Seq<syntax::EpochRange>, MediaError>
    decreases starts.len() - k,
{
    if k < 0 || k >= starts.len() || clip.frames.len() == 0 {
        Ok(Seq::empty())
    } else {
        match clip_epoch(
            recipe,
            clip,
            sound,
            k,
            starts[k],
            epoch_end(starts, k, clip.frames.len() as int),
        ) {
            Err(e) => Err(e),
            Ok(range) => match clip_epochs(recipe, clip, sound, starts, k + 1) {
                Err(e) => Err(e),
                Ok(rest) => Ok(seq![range] + rest),
            },
        }
    }
}

/// The streams of a file with a clip.
pub open spec fn clip_streams(clip: media::ClipModel, sound: Option<Sound>) -> Seq<StreamDesc> {
    let picture = StreamDesc {
        id: 1,
        kind: StreamKind::Video,
        codec: 1,
        timescale: 1_000_000,
        param0: clip.width,
        param1: clip.height,
        flags: (media::least(clip.fps_n as int, 65535) * 65536 + media::least(
            clip.fps_d as int,
            65535,
        )) as u32,
        meta0: clip.meta0,
    };
    match sound {
        None => seq![picture],
        Some(sound) => seq![
            picture,
            sound_stream(sound.options.sample_rate, sound.options.channels),
        ],
    }
}

/// The stream of samples.
pub open spec fn sound_stream(rate: u32, channels: u8) -> StreamDesc {
    mux::audio_stream(mux::AudioTrack { rate, channels, qstep: 0 })
}

/// The file of streams and epochs.
pub open spec fn built(streams: Seq<StreamDesc>, epochs: Seq<syntax::EpochRange>) -> Result<
    Seq<u8>,
    MediaError,
> {
    if syntax::file_len(streams, epochs) > usize::MAX {
        Err(MediaError::OutputLength)
    } else {
        match syntax::build_error(streams, epochs) {
            Some(e) => Err(MediaError::Build(e)),
            None => Ok(syntax::file_bytes(streams, epochs)),
        }
    }
}

/// The file of a clip, or why there is none.
pub open spec fn clip_file(recipe: Recipe, clip: media::ClipModel, sound: Option<Sound>) -> Result<
    Seq<u8>,
    MediaError,
> {
    if recipe.epoch_frames == 0 {
        Err(MediaError::EpochLength)
    } else {
        match clip_epochs(
            recipe,
            clip,
            sound,
            scene::starts(clip.frames, recipe.epoch_frames as int, clip.frames.len() as int),
            0,
        ) {
            Err(e) => Err(e),
            Ok(epochs) => built(clip_streams(clip, sound), epochs),
        }
    }
}

/// Builds the file of streams and epochs.
fn build_file_for_backend(streams: Vec<StreamDesc>, epochs: Vec<(u32, u64, u32, Vec<u8>)>) -> (r:
    Result<Vec<u8>, MediaError>)
    ensures
        match r {
            Ok(file) => built(streams@, wire::ranges(epochs@)) == Ok::<Seq<u8>, MediaError>(file@),
            Err(e) => built(streams@, wire::ranges(epochs@)) == Err::<Seq<u8>, MediaError>(e),
        },
{
    match build_output(streams, epochs) {
        Ok(file) => Ok(file),
        Err(MuxError::Container(e)) => Err(MediaError::Build(e)),
        Err(_) => Err(MediaError::OutputLength),
    }
}

/// Codes epoch `k`.
fn encode_epoch(
    recipe: Recipe,
    clip: &Clip,
    track: &Option<Soundtrack<'_>>,
    k: usize,
    start: usize,
    end: usize,
    Ghost(sound): Ghost<Option<Sound>>,
) -> (r: Result<(u32, u64, u32, Vec<u8>), MediaError>)
    requires
        start <= end <= clip.frames@.len(),
        match *track {
            None => sound is None,
            Some(track) => sound == Some(sound_of(track, recipe.audio_q)) && track.channels > 0
                && track.rate > 0,
        },
    ensures
        ({
            let want = clip_epoch(recipe, clip.model(), sound, k as int, start as int, end as int);
            match r {
                Ok(range) => want == Ok::<syntax::EpochRange, MediaError>(
                    syntax::EpochRange {
                        id: range.0,
                        pts: range.1,
                        duration: range.2,
                        bytes: range.3@,
                    },
                ),
                Err(e) => want == Err::<syntax::EpochRange, MediaError>(e),
            }
        }),
{
    proof {
        reveal(clip_epoch);
    }
    let n: u64 = if clip.fps_n > 1 {
        clip.fps_n as u64
    } else {
        1
    };
    let frame_us: u64 = 1_000_000 * clip.fps_d as u64 / n;
    assert(frame_us == media::frame_duration(clip.fps_n, clip.fps_d));
    let end_pts: u64 = match (end as u64).checked_mul(frame_us) {
        Some(end_pts) => end_pts,
        None => {
            return Err(MediaError::Timestamp);
        },
    };
    proof {
        assert(start * frame_us <= end * frame_us) by (nonlinear_arith)
            requires
                0 <= start <= end,
                0 <= frame_us,
        ;
    }
    let pts: u64 = start as u64 * frame_us;
    let id: u32 = (k as u64 % 0x1_0000_0000) as u32;
    let duration: u32 = ((end_pts - pts) % 0x1_0000_0000) as u32;
    let opt: reference::video_encoder::EncodeOptions = preset(recipe.preset, recipe.video_q);
    let video: Vec<Packet> = match encode_frames(
        recipe.backend,
        &clip.frames,
        start,
        end,
        opt,
        frame_us,
    ) {
        Ok(video) => video,
        Err(e) => {
            return Err(e);
        },
    };
    let audio: Vec<Packet> = match track {
        None => {
            let none: Vec<Packet> = Vec::new();
            assert(epoch::contents(none@) =~= Seq::<syntax::PacketModel>::empty());
            none
        },
        Some(track) => match encode_track(recipe, track, pts, end_pts) {
            Ok(audio) => audio,
            Err(e) => {
                return Err(e);
            },
        },
    };
    proof {
        epoch::lemma_interleaved_flags(epoch::contents(video@), epoch::contents(audio@));
    }
    let list: Vec<Packet> = interleave(video, audio);
    assert forall|i: int| 0 <= i < list@.len() implies (#[trigger] list@[i]).flags == 0 by {
        assert(epoch::contents(list@)[i].flags == 0);
    }
    match write_range(recipe.backend, id, pts, duration, &list) {
        Ok(bytes) => Ok((id, pts, duration, bytes)),
        Err(e) => Err(e),
    }
}

/// Codes the samples from `pts` to `end_pts`.
fn encode_track(recipe: Recipe, track: &Soundtrack<'_>, pts: u64, end_pts: u64) -> (r: Result<
    Vec<Packet>,
    MediaError,
>)
    requires
        pts <= end_pts,
        track.channels > 0,
        track.rate > 0,
    ensures
        ({
            let want = sound_between(
                recipe.backend,
                Some(sound_of(*track, recipe.audio_q)),
                pts as int,
                end_pts as int,
            );
            match r {
                Ok(list) => want == Ok::<Seq<syntax::PacketModel>, MediaError>(
                    epoch::contents(list@),
                ) && forall|i: int| 0 <= i < list@.len() ==> (#[trigger] list@[i]).flags == 0,
                Err(e) => want == Err::<Seq<syntax::PacketModel>, MediaError>(e),
            }
        }),
{
    let opt: audio::v1::EncodeOptions = audio::v1::EncodeOptions {
        sample_rate: track.rate,
        channels: track.channels,
        qstep: recipe.audio_q,
        mid_side: true,
    };
    let rate: u64 = track.rate as u64;
    let scaled_end: u64 = match end_pts.checked_mul(rate) {
        Some(scaled) => scaled,
        None => {
            return Err(MediaError::Timestamp);
        },
    };
    proof {
        assert(pts * rate <= end_pts * rate) by (nonlinear_arith)
            requires
                0 <= pts <= end_pts,
                0 <= rate,
        ;
    }
    let from: u64 = pts * rate / 1_000_000;
    let total: usize = track.samples.len() / track.channels as usize;
    let last: u64 = scaled_end / 1_000_000;
    let end: u64 = if last < total as u64 {
        last
    } else {
        total as u64
    };
    proof {
        let (len, c) = (track.samples@.len() as int, track.channels as int);
        vstd::arithmetic::div_mod::lemma_fundamental_div_mod(len, c);
        vstd::arithmetic::div_mod::lemma_mod_bound(len, c);
        assert(end * c <= len) by (nonlinear_arith)
            requires
                0 <= end <= len / c,
                len == c * (len / c) + len % c,
                0 <= len % c,
                0 < c,
        ;
    }
    encode_audio_run(recipe.backend, track.samples, from, end, opt)
}

/// A file and the number of its epochs.
#[derive(Debug)]
pub struct EncodedFile {
    pub file: Vec<u8>,
    pub epochs: usize,
}

/// Codes a clip, with or without a soundtrack. Frames must not have less luma than the frame
/// before them; a soundtrack must have a rate and channels.
pub fn encode_av(clip: &Clip, track: Option<Soundtrack<'_>>, recipe: Recipe) -> (r: Result<
    EncodedFile,
    MediaError,
>)
    requires
        scene::comparable(clip.model().frames),
        track matches Some(track) ==> track.channels > 0 && track.rate > 0,
    ensures
        ({
            let sound = match track {
                None => None::<Sound>,
                Some(track) => Some(sound_of(track, recipe.audio_q)),
            };
            match r {
                Ok(encoded) => {
                    &&& clip_file(recipe, clip.model(), sound) == Ok::<Seq<u8>, MediaError>(
                        encoded.file@,
                    )
                    &&& encoded.epochs == scene::starts(
                        clip.model().frames,
                        recipe.epoch_frames as int,
                        clip.frames@.len() as int,
                    ).len()
                },
                Err(e) => clip_file(recipe, clip.model(), sound) == Err::<Seq<u8>, MediaError>(e),
            }
        }),
{
    let ghost sound = match track {
        None => None::<Sound>,
        Some(track) => Some(sound_of(track, recipe.audio_q)),
    };
    if recipe.epoch_frames == 0 {
        return Err(MediaError::EpochLength);
    }
    let starts: Vec<usize> = epoch_starts(&clip.frames, recipe.epoch_frames);
    let ghost all = scene::positions(starts@);
    let ghost want = clip_epochs(recipe, clip.model(), sound, all, 0);
    proof {
        scene::law_starts(
            clip.model().frames,
            recipe.epoch_frames as int,
            clip.frames@.len() as int,
        );
    }
    let mut epochs: Vec<(u32, u64, u32, Vec<u8>)> = Vec::new();
    let mut k: usize = 0;
    assert(wire::ranges(epochs@) =~= Seq::<syntax::EpochRange>::empty());
    proof {
        if let Ok(list) = want {
            assert(wire::ranges(epochs@) + list =~= list);
        }
    }
    while k < starts.len() && clip.frames.len() > 0
        invariant
            k <= starts@.len(),
            all == scene::positions(starts@),
            want == clip_epochs(recipe, clip.model(), sound, all, 0),
            recipe.epoch_frames > 0,
            all == scene::starts(
                clip.model().frames,
                recipe.epoch_frames as int,
                clip.frames@.len() as int,
            ),
            forall|i: int, j: int| 0 <= i < j < all.len() ==> #[trigger] all[i] < #[trigger] all[j],
            forall|i: int| 0 < i < all.len() ==> #[trigger] all[i] < clip.frames@.len(),
            all[0] == 0,
            match track {
                None => sound is None,
                Some(track) => sound == Some(sound_of(track, recipe.audio_q)) && track.channels > 0
                    && track.rate > 0,
            },
            match clip_epochs(recipe, clip.model(), sound, all, k as int) {
                Ok(rest) => want == Ok::<Seq<syntax::EpochRange>, MediaError>(
                    wire::ranges(epochs@) + rest,
                ),
                Err(e) => want == Err::<Seq<syntax::EpochRange>, MediaError>(e),
            },
        decreases starts@.len() - k,
    {
        let start: usize = starts[k];
        let end: usize = if k + 1 < starts.len() {
            starts[k + 1]
        } else {
            clip.frames.len()
        };
        proof {
            assert(start == all[k as int]);
            assert(end == epoch_end(all, k as int, clip.frames@.len() as int));
        }
        let range: (u32, u64, u32, Vec<u8>) = match encode_epoch(
            recipe,
            clip,
            &track,
            k,
            start,
            end,
            Ghost(sound),
        ) {
            Ok(range) => range,
            Err(e) => {
                return Err(e);
            },
        };
        let ghost before = wire::ranges(epochs@);
        let ghost made = syntax::EpochRange {
            id: range.0,
            pts: range.1,
            duration: range.2,
            bytes: range.3@,
        };
        epochs.push(range);
        proof {
            assert(wire::ranges(epochs@) =~= before.push(made));
            if let Ok(rest) = clip_epochs(recipe, clip.model(), sound, all, k + 1) {
                assert(before + (seq![made] + rest) =~= wire::ranges(epochs@) + rest);
            }
        }
        k = k + 1;
    }
    assert(wire::ranges(epochs@) + Seq::<syntax::EpochRange>::empty() =~= wire::ranges(epochs@));
    assert(want == Ok::<Seq<syntax::EpochRange>, MediaError>(wire::ranges(epochs@)));
    let mut streams: Vec<StreamDesc> = vec![StreamDesc {
        id: 1,
        kind: StreamKind::Video,
        codec: 1,
        timescale: TIMEBASE,
        param0: clip.width,
        param1: clip.height,
        flags: fps_flags(clip.fps_n, clip.fps_d),
        meta0: clip.meta0,
    }];
    match track {
        None => {},
        Some(track) => {
            streams.push(
                StreamDesc {
                    id: 2,
                    kind: StreamKind::Audio,
                    codec: 1,
                    timescale: TIMEBASE,
                    param0: track.rate,
                    param1: track.channels as u32,
                    flags: 0,
                    meta0: 0,
                },
            );
        },
    }
    assert(streams@ =~= clip_streams(clip.model(), sound));
    match build_file_for_backend(streams, epochs) {
        Ok(file) => Ok(EncodedFile { file, epochs: starts.len() }),
        Err(e) => Err(e),
    }
}

// ---------------------------------------------------------------------------------------------
// Samples alone

/// How stereo samples at 48 kHz are coded.
pub open spec fn stereo(q: u16) -> audio::v1::EncodeOptions {
    audio::v1::EncodeOptions { sample_rate: 48_000, channels: 2, qstep: q, mid_side: true }
}

/// The epoch of the sample frames from `start` to `end`.
#[verifier::opaque]
pub open spec fn sample_epoch(
    backend: Backend,
    samples: Seq<i16>,
    q: u16,
    start: int,
    end: int,
    id: int,
) -> Result<syntax::EpochRange, MediaError> {
    let pts = start * 1_000_000 / 48_000;
    let duration = ((end * 1_000_000 / 48_000 - pts) % 0x1_0000_0000) as u32;
    match coded_audio(backend, samples, start, end, stereo(q)) {
        Err(e) => Err(e),
        Ok(list) => match range_bytes(backend, id as u32, pts as u64, duration, list) {
            Err(e) => Err(e),
            Ok(bytes) => Ok(
                syntax::EpochRange { id: id as u32, pts: pts as u64, duration, bytes },
            ),
        },
    }
}

/// The epochs of the sample frames from `start` on, each of so many sample frames.
pub open spec fn sample_epochs(
    backend: Backend,
    samples: Seq<i16>,
    q: u16,
    length: int,
    start: int,
    id: int,
) -> Result<Seq<syntax::EpochRange>, MediaError>
    decreases samples.len() / 2 - start,
{
    let total = samples.len() as int / 2;
    if start >= total || length <= 0 {
        Ok(Seq::empty())
    } else {
        let end = media::least(start + length, total);
        match sample_epoch(backend, samples, q, start, end, id) {
            Err(e) => Err(e),
            Ok(range) => match sample_epochs(backend, samples, q, length, end, id + 1) {
                Err(e) => Err(e),
                Ok(rest) => Ok(seq![range] + rest),
            },
        }
    }
}

/// The file of stereo samples at 48 kHz, in epochs of so many seconds and of at least one.
pub open spec fn sample_file(backend: Backend, samples: Seq<i16>, q: u16, epoch_seconds: int) -> Result<
    Seq<u8>,
    MediaError,
> {
    if samples.len() / 2 * 1_000_000 > u64::MAX {
        Err(MediaError::Timestamp)
    } else {
        match sample_epochs(
            backend,
            samples,
            q,
            media::most(epoch_seconds, 1) * 48_000,
            0,
            0,
        ) {
            Err(e) => Err(e),
            Ok(epochs) => built(seq![sound_stream(48_000, 2)], epochs),
        }
    }
}

/// Codes the sample frames from `start` to `end` as an epoch.
fn encode_sample_epoch(backend: Backend, samples: &[i16], q: u16, start: u64, end: u64, id: u32) -> (r:
    Result<(u32, u64, u32, Vec<u8>), MediaError>)
    requires
        start <= end,
        end * 2 <= samples@.len(),
        end * 1_000_000 <= u64::MAX,
    ensures
        ({
            let want = sample_epoch(backend, samples@, q, start as int, end as int, id as int);
            match r {
                Ok(range) => want == Ok::<syntax::EpochRange, MediaError>(
                    syntax::EpochRange {
                        id: range.0,
                        pts: range.1,
                        duration: range.2,
                        bytes: range.3@,
                    },
                ),
                Err(e) => want == Err::<syntax::EpochRange, MediaError>(e),
            }
        }),
{
    proof {
        reveal(sample_epoch);
    }
    let pts: u64 = start * 1_000_000 / 48_000;
    let end_pts: u64 = end * 1_000_000 / 48_000;
    let duration: u32 = ((end_pts - pts) % 0x1_0000_0000) as u32;
    let opt: audio::v1::EncodeOptions = audio::v1::EncodeOptions {
        sample_rate: 48_000,
        channels: 2,
        qstep: q,
        mid_side: true,
    };
    let list: Vec<Packet> = match encode_audio_run(backend, samples, start, end, opt) {
        Ok(list) => list,
        Err(e) => {
            return Err(e);
        },
    };
    match write_range(backend, id, pts, duration, &list) {
        Ok(bytes) => Ok((id, pts, duration, bytes)),
        Err(e) => Err(e),
    }
}

/// Codes stereo samples at 48 kHz.
pub fn encode_audio(samples: &[i16], q: u16, epoch_seconds: u64, backend: Backend) -> (r: Result<
    Vec<u8>,
    MediaError,
>)
    ensures
        match r {
            Ok(file) => sample_file(backend, samples@, q, epoch_seconds as int) == Ok::<
                Seq<u8>,
                MediaError,
            >(file@),
            Err(e) => sample_file(backend, samples@, q, epoch_seconds as int) == Err::<
                Seq<u8>,
                MediaError,
            >(e),
        },
{
    let total: u64 = samples.len() as u64 / 2;
    if total > 18_446_744_073_709 {
        return Err(MediaError::Timestamp);
    }
    let seconds: u64 = if epoch_seconds > 1 {
        epoch_seconds
    } else {
        1
    };
    let ghost exact = media::most(epoch_seconds as int, 1) * 48_000;
    let length: u64 = if seconds > total {
        48_000 * total + 48_000
    } else {
        seconds * 48_000
    };
    let ghost want = sample_epochs(backend, samples@, q, exact, 0, 0);
    let mut epochs: Vec<(u32, u64, u32, Vec<u8>)> = Vec::new();
    let mut start: u64 = 0;
    let mut id: u32 = 0;
    assert(wire::ranges(epochs@) =~= Seq::<syntax::EpochRange>::empty());
    proof {
        if let Ok(list) = want {
            assert(wire::ranges(epochs@) + list =~= list);
        }
    }
    while start < total
        invariant
            total == samples@.len() as int / 2,
            total <= 18_446_744_073_709,
            start <= total,
            exact == media::most(epoch_seconds as int, 1) * 48_000,
            exact == length || (exact > total && length > total),
            length >= 48_000,
            length <= 18_446_744_073_709 * 48_000 + 48_000,
            id <= 0xffff_fff0,
            start < total ==> id * 48_000 <= start,
            want == sample_epochs(backend, samples@, q, exact, 0, 0),
            match sample_epochs(backend, samples@, q, exact, start as int, id as int) {
                Ok(rest) => want == Ok::<Seq<syntax::EpochRange>, MediaError>(
                    wire::ranges(epochs@) + rest,
                ),
                Err(e) => want == Err::<Seq<syntax::EpochRange>, MediaError>(e),
            },
        decreases total - start,
    {
        let end: u64 = if total - start < length {
            total
        } else {
            start + length
        };
        assert(end == media::least(start + exact, total as int));
        let range: (u32, u64, u32, Vec<u8>) = match encode_sample_epoch(
            backend,
            samples,
            q,
            start,
            end,
            id,
        ) {
            Ok(range) => range,
            Err(e) => {
                return Err(e);
            },
        };
        let ghost before = wire::ranges(epochs@);
        let ghost made = syntax::EpochRange {
            id: range.0,
            pts: range.1,
            duration: range.2,
            bytes: range.3@,
        };
        epochs.push(range);
        proof {
            assert(wire::ranges(epochs@) =~= before.push(made));
            if let Ok(rest) = sample_epochs(backend, samples@, q, exact, end as int, id + 1) {
                assert(before + (seq![made] + rest) =~= wire::ranges(epochs@) + rest);
            }
        }
        start = end;
        id = id + 1;
    }
    assert(wire::ranges(epochs@) + Seq::<syntax::EpochRange>::empty() =~= wire::ranges(epochs@));
    let streams: Vec<StreamDesc> = vec![StreamDesc {
        id: 2,
        kind: StreamKind::Audio,
        codec: 1,
        timescale: TIMEBASE,
        param0: 48_000,
        param1: 2,
        flags: 0,
        meta0: 0,
    }];
    assert(streams@ =~= seq![sound_stream(48_000, 2)]);
    build_file_for_backend(streams, epochs)
}

} // verus!
