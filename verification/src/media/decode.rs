//! Frames and samples of files.
use crate::audio;
use crate::audio::v1::AudioDecoder;
use crate::bytes;
use crate::container::v1::syntax;
use crate::container::v1::{
    decode_packet, parse_file_prefix, ContainerError, FileHeader, Front, Packet, PacketKind,
    PacketView, SliceParser, StreamDesc, StreamKind, DEFAULT_MAX_PACKET,
};
use crate::media;
use crate::media::encode;
use crate::media::{fps_from_flags, Backend, Clip, MediaError};
use crate::mux::epoch;
use crate::reference;
use crate::reference::frame::Frame420;
use crate::video;
use crate::video::v1::decoder;
use crate::video::v1::history;
use crate::video::v1::syntax::Picture;
use crate::video::v1::VideoDecoder;
use std::collections::VecDeque;
use std::sync::Arc;
use vstd::prelude::*;

verus! {

// ---------------------------------------------------------------------------------------------
// Packets

/// The packets from `pos` on, up to the end or to the first that is refused, and why that one is.
#[verifier::opaque]
pub open spec fn scanned(b: Seq<u8>, pos: int) -> (Seq<syntax::PacketModel>, Option<MediaError>)
    decreases b.len() - pos,
{
    if pos < 0 || pos >= b.len() {
        (Seq::empty(), None)
    } else {
        match syntax::decoded_packet(b.skip(pos), 134_217_728) {
            Err(e) => (Seq::empty(), Some(MediaError::PacketAt(pos as usize, e))),
            Ok((p, n)) => if n <= 0 {
                (Seq::empty(), None)
            } else {
                let (rest, stop) = scanned(b, pos + n);
                (seq![p] + rest, stop)
            },
        }
    }
}

/// What a file starts with. The reference reader does not look at what the index says.
pub open spec fn prefix_of(backend: Backend, b: Seq<u8>) -> Result<(syntax::FrontModel, int), MediaError> {
    let found = match backend {
        Backend::Production => syntax::decoded_prefix(b),
        Backend::Reference => reference::container::decoded_prefix(b),
    };
    match found {
        Err(e) => Err(MediaError::Prefix(e)),
        Ok((h, front, n)) => Ok((front, n)),
    }
}

/// The index of a file, its packets, and where they start; or why the file is refused.
pub open spec fn file_packets(b: Seq<u8>) -> Result<
    (syntax::FrontModel, Seq<syntax::PacketModel>, int),
    MediaError,
> {
    match prefix_of(Backend::Reference, b) {
        Err(e) => Err(e),
        Ok((front, n)) => match scanned(b, n).1 {
            Some(e) => Err(e),
            None => Ok((front, scanned(b, n).0, n)),
        },
    }
}

fn read_prefix(backend: Backend, b: &[u8]) -> (r: Result<(Front, usize), MediaError>)
    ensures
        match r {
            Ok((front, n)) => prefix_of(backend, b@) == Ok::<(syntax::FrontModel, int), MediaError>(
                (front.model(), n as int),
            ) && n <= b@.len(),
            Err(e) => prefix_of(backend, b@) == Err::<(syntax::FrontModel, int), MediaError>(e),
        },
{
    let found: Result<(FileHeader, Front, usize), ContainerError> = match backend {
        Backend::Production => parse_file_prefix(b),
        Backend::Reference => reference::container::parse_file_prefix(b),
    };
    match found {
        Ok((_, front, n)) => Ok((front, n)),
        Err(e) => Err(MediaError::Prefix(e)),
    }
}

/// Reads the index and all packets of a file.
pub fn all_packets(b: &[u8]) -> (r: Result<(Front, Vec<Packet>, usize), MediaError>)
    ensures
        match r {
            Ok((front, packets, n)) => file_packets(b@) == Ok::<
                (syntax::FrontModel, Seq<syntax::PacketModel>, int),
                MediaError,
            >((front.model(), epoch::contents(packets@), n as int)),
            Err(e) => file_packets(b@) == Err::<
                (syntax::FrontModel, Seq<syntax::PacketModel>, int),
                MediaError,
            >(e),
        },
{
    let (front, prefix): (Front, usize) = match read_prefix(Backend::Reference, b) {
        Ok(found) => found,
        Err(e) => {
            return Err(e);
        },
    };
    proof {
        reveal(scanned);
    }
    let ghost want = scanned(b@, prefix as int);
    let mut packets: Vec<Packet> = Vec::new();
    let mut pos: usize = prefix;
    assert(epoch::contents(packets@) + want.0 =~= want.0);
    while pos < b.len()
        invariant
            prefix <= pos <= b@.len(),
            prefix_of(Backend::Reference, b@) == Ok::<(syntax::FrontModel, int), MediaError>(
                (front.model(), prefix as int),
            ),
            want == scanned(b@, prefix as int),
            want.0 == epoch::contents(packets@) + scanned(b@, pos as int).0,
            want.1 == scanned(b@, pos as int).1,
        decreases b@.len() - pos,
    {
        proof {
            reveal(scanned);
            assert(b@.subrange(pos as int, b@.len() as int) =~= b@.skip(pos as int));
            syntax::lemma_packet_size(b@.skip(pos as int), 134_217_728);
        }
        let (packet, n): (Packet, usize) = match decode_packet(&b[pos..b.len()], DEFAULT_MAX_PACKET) {
            Ok(found) => found,
            Err(e) => {
                return Err(MediaError::PacketAt(pos, e));
            },
        };
        let ghost before = epoch::contents(packets@);
        let ghost p = packet.model();
        packets.push(packet);
        proof {
            let rest = scanned(b@, pos + n).0;
            assert(epoch::contents(packets@) =~= before.push(p));
            assert(before + (seq![p] + rest) =~= epoch::contents(packets@) + rest);
        }
        pos = pos + n;
    }
    assert(epoch::contents(packets@) + Seq::<syntax::PacketModel>::empty() =~= epoch::contents(
        packets@,
    ));
    Ok((front, packets, prefix))
}

// ---------------------------------------------------------------------------------------------
// Frames

/// The first stream of a kind, from stream `i` on.
pub open spec fn stream_of(streams: Seq<StreamDesc>, kind: StreamKind, i: int) -> Option<StreamDesc>
    decreases streams.len() - i,
{
    if i < 0 || i >= streams.len() {
        None
    } else if streams[i].kind == kind {
        Some(streams[i])
    } else {
        stream_of(streams, kind, i + 1)
    }
}

/// Finds the first stream of a kind.
pub fn find_stream(streams: &Vec<StreamDesc>, kind: StreamKind) -> (r: Option<StreamDesc>)
    ensures
        r == stream_of(streams@, kind, 0),
{
    let mut i: usize = 0;
    while i < streams.len()
        invariant
            i <= streams@.len(),
            stream_of(streams@, kind, 0) == stream_of(streams@, kind, i as int),
        decreases streams@.len() - i,
    {
        if streams[i].kind == kind {
            return Some(streams[i]);
        }
        i = i + 1;
    }
    None
}

/// What a packet shows, and its id; or why it cannot be decoded.
#[verifier::opaque]
pub open spec fn shown_frame(backend: Backend, payload: Seq<u8>, references: Seq<(u64, Picture)>) -> Result<
    (u64, Picture),
    MediaError,
> {
    match backend {
        Backend::Production => match history::decoded_next(
            payload,
            references,
            decoder::bounds(67_108_864, 8_388_608, None),
        ) {
            Err(e) => Err(MediaError::VideoDecode(e)),
            Ok((id, picture, ids)) => Ok((id, picture)),
        },
        Backend::Reference => match reference::video_decoder::decoded_frame(payload, references) {
            Err(e) => Err(MediaError::ReferenceDecode(reference::video_decoder::told(e))),
            Ok((id, picture, ids)) => Ok((id, picture)),
        },
    }
}

/// What the video packets show, one after the other. An epoch starts without references.
pub open spec fn shown_frames(
    backend: Backend,
    packets: Seq<syntax::PacketModel>,
    references: Seq<(u64, Picture)>,
) -> Result<Seq<Picture>, MediaError>
    decreases packets.len(),
{
    if packets.len() == 0 {
        Ok(Seq::empty())
    } else {
        let p = packets[0];
        let rest = packets.drop_first();
        if p.kind == PacketKind::EpochStart {
            shown_frames(backend, rest, Seq::empty())
        } else if p.kind == PacketKind::VideoFrame {
            match shown_frame(backend, p.payload, references) {
                Err(e) => Err(e),
                Ok((id, picture)) => match shown_frames(
                    backend,
                    rest,
                    history::extended(references, id, picture),
                ) {
                    Err(e) => Err(e),
                    Ok(more) => Ok(seq![picture] + more),
                },
            }
        } else {
            shown_frames(backend, rest, references)
        }
    }
}

/// The frames of the packets from `pos` on: an error of a frame counts before that of a later
/// packet.
pub open spec fn frames_from(b: Seq<u8>, pos: int, references: Seq<(u64, Picture)>) -> Result<
    Seq<Picture>,
    MediaError,
> {
    match shown_frames(Backend::Production, scanned(b, pos).0, references) {
        Err(e) => Err(e),
        Ok(frames) => match scanned(b, pos).1 {
            Some(e) => Err(e),
            None => Ok(frames),
        },
    }
}

/// The clip of a stream.
pub open spec fn clip_of(stream: StreamDesc, frames: Seq<Picture>) -> media::ClipModel {
    let (n, d) = media::unpacked_rate(stream.flags);
    media::ClipModel {
        width: stream.param0,
        height: stream.param1,
        fps_n: n as u32,
        fps_d: d as u32,
        meta0: stream.meta0,
        frames,
    }
}

/// The clip that a file holds. The production reader takes packet after packet; the reference
/// reader takes all packets first.
pub open spec fn file_clip(backend: Backend, b: Seq<u8>) -> Result<media::ClipModel, MediaError> {
    match backend {
        Backend::Production => match prefix_of(backend, b) {
            Err(e) => Err(e),
            Ok((front, n)) => match stream_of(front.streams, StreamKind::Video, 0) {
                None => Err(MediaError::NoVideo),
                Some(stream) => match frames_from(b, n, Seq::empty()) {
                    Err(e) => Err(e),
                    Ok(frames) => Ok(clip_of(stream, frames)),
                },
            },
        },
        Backend::Reference => match file_packets(b) {
            Err(e) => Err(e),
            Ok((front, packets, n)) => match stream_of(front.streams, StreamKind::Video, 0) {
                None => Err(MediaError::NoVideo),
                Some(stream) => match shown_frames(backend, packets, Seq::empty()) {
                    Err(e) => Err(e),
                    Ok(frames) => Ok(clip_of(stream, frames)),
                },
            },
        },
    }
}

/// A decoder of the packets of an epoch.
pub struct FrameReader {
    pub backend: Backend,
    /// The production decoder, which keeps its own references.
    pub decoder: VideoDecoder,
    /// The references of the reference decoder, the oldest first.
    pub frames: VecDeque<(u64, Frame420)>,
}

/// The references to hand to the reference decoder.
pub(crate) fn oldest_frames(frames: &VecDeque<(u64, Frame420)>) -> (r: Vec<(u64, &Frame420)>)
    ensures
        reference::frame::numbered(r@) == encode::remembered(frames@),
        r@.len() == frames@.len(),
        forall|i: int| 0 <= i < r@.len() ==> *(#[trigger] r@[i]).1 == frames@[i].1,
{
    let mut r: Vec<(u64, &Frame420)> = Vec::new();
    let mut i: usize = 0;
    while i < frames.len()
        invariant
            i <= frames@.len(),
            r@.len() == i,
            forall|j: int|
                0 <= j < i ==> (#[trigger] r@[j]).0 == frames@[j].0 && *r@[j].1 == frames@[j].1,
        decreases frames@.len() - i,
    {
        let entry: &(u64, Frame420) = &frames[i];
        r.push((entry.0, &entry.1));
        i = i + 1;
    }
    assert(reference::frame::numbered(r@) =~= encode::remembered(frames@));
    r
}

/// Remembers a frame; of more than four, the oldest goes.
pub(crate) fn remember(frames: &mut VecDeque<(u64, Frame420)>, id: u64, frame: Frame420)
    requires
        old(frames)@.len() <= 4,
    ensures
        final(frames)@.len() <= 4,
        encode::remembered(final(frames)@) == history::extended(
            encode::remembered(old(frames)@),
            id,
            frame.picture(),
        ),
        reference::frame::valid(frame.picture()) && reference_ready(old(frames)@)
            ==> reference_ready(final(frames)@),
{
    let ghost before = encode::remembered(frames@);
    let ghost shown = frame.picture();
    if frames.len() >= 4 {
        let _ = frames.pop_front();
    }
    frames.push_back((id, frame));
    assert(encode::remembered(frames@) =~= history::extended(before, id, shown));
}

/// Every frame can be predicted from.
pub open spec fn reference_ready(frames: Seq<(u64, Frame420)>) -> bool {
    forall|i: int| 0 <= i < frames.len() ==> (#[trigger] frames[i]).1.picture().sized()
}

/// A frame of its own with the same samples.
fn plain_frame(frame: &video::v1::Frame420) -> (r: Frame420)
    requires
        frame.picture().valid(),
    ensures
        r.picture() == frame.picture(),
{
    let mut y: Vec<u8> = Vec::new();
    bytes::put_slice(frame.y(), &mut y);
    let mut u: Vec<u8> = Vec::new();
    bytes::put_slice(frame.u(), &mut u);
    let mut v: Vec<u8> = Vec::new();
    bytes::put_slice(frame.v(), &mut v);
    assert(y@ =~= frame.picture().y);
    assert(u@ =~= frame.picture().u);
    assert(v@ =~= frame.picture().v);
    Frame420 { width: frame.width, height: frame.height, y, u, v }
}

impl FrameReader {
    pub open spec fn wf(&self) -> bool {
        match self.backend {
            Backend::Production => self.decoder.wf() && self.decoder.bounds() == decoder::bounds(
                67_108_864,
                8_388_608,
                None,
            ),
            Backend::Reference => self.frames@.len() <= 4 && reference_ready(self.frames@),
        }
    }

    /// What a frame may be predicted from, the oldest first.
    pub open spec fn references(&self) -> Seq<(u64, Picture)> {
        match self.backend {
            Backend::Production => self.decoder.references(),
            Backend::Reference => encode::remembered(self.frames@),
        }
    }

    pub fn new(backend: Backend) -> (r: Self)
        ensures
            r.wf(),
            r.backend == backend,
            r.references() == Seq::<(u64, Picture)>::empty(),
    {
        let r: FrameReader = FrameReader {
            backend,
            decoder: VideoDecoder::new(),
            frames: VecDeque::new(),
        };
        assert(r.references() =~= Seq::<(u64, Picture)>::empty());
        r
    }

    /// Forgets every reference.
    pub fn restart(&mut self)
        requires
            old(self).wf(),
        ensures
            final(self).wf(),
            final(self).backend == old(self).backend,
            final(self).references() == Seq::<(u64, Picture)>::empty(),
    {
        match self.backend {
            Backend::Production => {
                self.decoder.reset_epoch();
            },
            Backend::Reference => {
                self.frames = VecDeque::new();
                assert(self.references() =~= Seq::<(u64, Picture)>::empty());
            },
        }
    }

    /// Decodes a packet and remembers what it shows.
    pub fn show(&mut self, payload: &[u8]) -> (r: Result<Frame420, MediaError>)
        requires
            old(self).wf(),
        ensures
            final(self).wf(),
            final(self).backend == old(self).backend,
            ({
                let want = shown_frame(old(self).backend, payload@, old(self).references());
                match r {
                    Ok(frame) => {
                        &&& want is Ok
                        &&& frame.picture() == (want->Ok_0).1
                        &&& final(self).references() == history::extended(
                            old(self).references(),
                            (want->Ok_0).0,
                            (want->Ok_0).1,
                        )
                    },
                    Err(e) => want == Err::<(u64, Picture), MediaError>(e),
                }
            }),
    {
        proof {
            reveal(shown_frame);
        }
        match self.backend {
            Backend::Production => {
                let frame: Arc<video::v1::Frame420> = match self.decoder.decode_shared(payload) {
                    Ok((_, frame, _)) => frame,
                    Err(e) => {
                        return Err(MediaError::VideoDecode(e));
                    },
                };
                Ok(plain_frame(&*frame))
            },
            Backend::Reference => {
                let refs: Vec<(u64, &Frame420)> = oldest_frames(&self.frames);
                let (id, frame): (u64, Frame420) = match reference::video_decoder::decode(
                    payload,
                    refs.as_slice(),
                ) {
                    Ok((id, frame, _)) => (id, frame),
                    Err(e) => {
                        return Err(MediaError::ReferenceDecode(e));
                    },
                };
                let shown: Frame420 = frame.clone();
                remember(&mut self.frames, id, frame);
                Ok(shown)
            },
        }
    }
}

/// Decodes the frames of the packets from `prefix` on, packet after packet.
fn read_frames(b: &[u8], prefix: usize) -> (r: Result<Vec<Frame420>, MediaError>)
    requires
        prefix <= b@.len(),
    ensures
        match r {
            Ok(frames) => frames_from(b@, prefix as int, Seq::empty()) == Ok::<
                Seq<Picture>,
                MediaError,
            >(media::pictures(frames@)),
            Err(e) => frames_from(b@, prefix as int, Seq::empty()) == Err::<Seq<Picture>, MediaError>(
                e,
            ),
        },
{
    proof {
        reveal(scanned);
    }
    let ghost want = frames_from(b@, prefix as int, Seq::empty());
    let mut reader: FrameReader = FrameReader::new(Backend::Production);
    let parser: SliceParser = SliceParser::default();
    let mut frames: Vec<Frame420> = Vec::new();
    let mut pos: usize = prefix;
    proof {
        assert(media::pictures(frames@) =~= Seq::<Picture>::empty());
        if let Ok(all) = want {
            assert(media::pictures(frames@) + all =~= all);
        }
    }
    while pos < b.len()
        invariant
            prefix <= pos <= b@.len(),
            want == frames_from(b@, prefix as int, Seq::empty()),
            reader.wf(),
            reader.backend == Backend::Production,
            parser.max_packet == 134_217_728,
            match frames_from(b@, pos as int, reader.references()) {
                Ok(rest) => want == Ok::<Seq<Picture>, MediaError>(media::pictures(frames@) + rest),
                Err(e) => want == Err::<Seq<Picture>, MediaError>(e),
            },
        decreases b@.len() - pos,
    {
        proof {
            reveal(scanned);
            assert(b@.subrange(pos as int, b@.len() as int) =~= b@.skip(pos as int));
            syntax::lemma_packet_size(b@.skip(pos as int), 134_217_728);
        }
        let (packet, n): (PacketView, usize) = match parser.packet(&b[pos..b.len()]) {
            Ok(found) => found,
            Err(e) => {
                return Err(MediaError::PacketAt(pos, e));
            },
        };
        let ghost refs = reader.references();
        let ghost rest = scanned(b@, pos + n).0;
        let ghost so_far = media::pictures(frames@);
        proof {
            let all = seq![packet.model()] + rest;
            assert(scanned(b@, pos as int).0 == all);
            assert(all[0] == packet.model());
            assert(all.drop_first() =~= rest);
        }
        match packet.kind {
            PacketKind::EpochStart => {
                reader.restart();
            },
            PacketKind::VideoFrame => {
                let frame: Frame420 = match reader.show(packet.payload) {
                    Ok(frame) => frame,
                    Err(e) => {
                        return Err(e);
                    },
                };
                let ghost shown = frame.picture();
                frames.push(frame);
                proof {
                    assert(media::pictures(frames@) =~= so_far.push(shown));
                    if let Ok(more) = shown_frames(
                        Backend::Production,
                        rest,
                        reader.references(),
                    ) {
                        assert(so_far + (seq![shown] + more) =~= media::pictures(frames@) + more);
                    }
                }
            },
            _ => {},
        }
        pos = pos + n;
    }
    assert(media::pictures(frames@) + Seq::<Picture>::empty() =~= media::pictures(frames@));
    Ok(frames)
}

/// Decodes the frames of packets with the reference decoder.
fn show_packets(packets: &Vec<Packet>) -> (r: Result<Vec<Frame420>, MediaError>)
    ensures
        match r {
            Ok(frames) => shown_frames(
                Backend::Reference,
                epoch::contents(packets@),
                Seq::empty(),
            ) == Ok::<Seq<Picture>, MediaError>(media::pictures(frames@)),
            Err(e) => shown_frames(Backend::Reference, epoch::contents(packets@), Seq::empty())
                == Err::<Seq<Picture>, MediaError>(e),
        },
{
    let ghost all = epoch::contents(packets@);
    let ghost want = shown_frames(Backend::Reference, all, Seq::empty());
    let mut reader: FrameReader = FrameReader::new(Backend::Reference);
    let mut frames: Vec<Frame420> = Vec::new();
    let mut i: usize = 0;
    proof {
        assert(all.skip(0) =~= all);
        assert(media::pictures(frames@) =~= Seq::<Picture>::empty());
        if let Ok(list) = want {
            assert(media::pictures(frames@) + list =~= list);
        }
    }
    while i < packets.len()
        invariant
            i <= packets@.len(),
            all == epoch::contents(packets@),
            want == shown_frames(Backend::Reference, all, Seq::empty()),
            reader.wf(),
            reader.backend == Backend::Reference,
            match shown_frames(Backend::Reference, all.skip(i as int), reader.references()) {
                Ok(rest) => want == Ok::<Seq<Picture>, MediaError>(media::pictures(frames@) + rest),
                Err(e) => want == Err::<Seq<Picture>, MediaError>(e),
            },
        decreases packets@.len() - i,
    {
        let packet: &Packet = &packets[i];
        let ghost so_far = media::pictures(frames@);
        proof {
            assert(all.skip(i as int)[0] == packet.model());
            assert(all.skip(i as int).drop_first() =~= all.skip(i + 1));
        }
        match packet.kind {
            PacketKind::EpochStart => {
                reader.restart();
            },
            PacketKind::VideoFrame => {
                let frame: Frame420 = match reader.show(packet.payload.as_slice()) {
                    Ok(frame) => frame,
                    Err(e) => {
                        return Err(e);
                    },
                };
                let ghost shown = frame.picture();
                frames.push(frame);
                proof {
                    assert(media::pictures(frames@) =~= so_far.push(shown));
                    if let Ok(more) = shown_frames(
                        Backend::Reference,
                        all.skip(i + 1),
                        reader.references(),
                    ) {
                        assert(so_far + (seq![shown] + more) =~= media::pictures(frames@) + more);
                    }
                }
            },
            _ => {},
        }
        i = i + 1;
    }
    assert(media::pictures(frames@) + Seq::<Picture>::empty() =~= media::pictures(frames@));
    Ok(frames)
}

/// Decodes the clip that a file holds.
pub fn decode_video_frames(b: &[u8], backend: Backend) -> (r: Result<Clip, MediaError>)
    ensures
        match r {
            Ok(clip) => file_clip(backend, b@) == Ok::<media::ClipModel, MediaError>(clip.model()),
            Err(e) => file_clip(backend, b@) == Err::<media::ClipModel, MediaError>(e),
        },
{
    let (stream, frames): (StreamDesc, Vec<Frame420>) = match backend {
        Backend::Production => {
            let (front, prefix): (Front, usize) = match read_prefix(backend, b) {
                Ok(found) => found,
                Err(e) => {
                    return Err(e);
                },
            };
            let stream: StreamDesc = match find_stream(&front.streams, StreamKind::Video) {
                Some(stream) => stream,
                None => {
                    return Err(MediaError::NoVideo);
                },
            };
            match read_frames(b, prefix) {
                Ok(frames) => (stream, frames),
                Err(e) => {
                    return Err(e);
                },
            }
        },
        Backend::Reference => {
            let (front, packets): (Front, Vec<Packet>) = match all_packets(b) {
                Ok((front, packets, _)) => (front, packets),
                Err(e) => {
                    return Err(e);
                },
            };
            let stream: StreamDesc = match find_stream(&front.streams, StreamKind::Video) {
                Some(stream) => stream,
                None => {
                    return Err(MediaError::NoVideo);
                },
            };
            match show_packets(&packets) {
                Ok(frames) => (stream, frames),
                Err(e) => {
                    return Err(e);
                },
            }
        },
    };
    let (fps_n, fps_d): (u32, u32) = fps_from_flags(stream.flags);
    Ok(
        Clip {
            width: stream.param0,
            height: stream.param1,
            fps_n,
            fps_d,
            meta0: stream.meta0,
            frames,
        },
    )
}

// ---------------------------------------------------------------------------------------------
// Samples

/// The samples of a packet, with rate and channel count; or why it cannot be decoded.
#[verifier::opaque]
pub open spec fn heard_packet(backend: Backend, payload: Seq<u8>) -> Result<
    (u32, u8, Seq<i16>),
    MediaError,
> {
    match audio::v1::syntax::decoded_packet(
        payload,
        match backend {
            Backend::Production => audio::v1::codec::bounds(8_388_608, None),
            Backend::Reference => reference::audio::bounds(),
        },
    ) {
        Err(e) => Err(MediaError::AudioDecode(e)),
        Ok(heard) => Ok(heard),
    }
}

/// The samples of the audio packets, one after the other, where samples of this rate and channel
/// count came before; a rate of zero means that none did. The format may not change.
pub open spec fn heard(
    backend: Backend,
    packets: Seq<syntax::PacketModel>,
    rate: u32,
    channels: u8,
) -> Result<(u32, u8, Seq<i16>), MediaError>
    decreases packets.len(),
{
    if packets.len() == 0 {
        Ok((rate, channels, Seq::empty()))
    } else {
        let p = packets[0];
        let rest = packets.drop_first();
        if p.kind == PacketKind::AudioFrame {
            match heard_packet(backend, p.payload) {
                Err(e) => Err(e),
                Ok((r, c, samples)) => if rate != 0 && (rate != r || channels != c) {
                    Err(MediaError::AudioFormat)
                } else {
                    match heard(backend, rest, r, c) {
                        Err(e) => Err(e),
                        Ok((last_rate, last_channels, more)) => Ok(
                            (last_rate, last_channels, samples + more),
                        ),
                    }
                },
            }
        } else {
            heard(backend, rest, rate, channels)
        }
    }
}

/// The samples of the packets from `pos` on: an error of samples counts before that of a later
/// packet.
pub open spec fn samples_from(b: Seq<u8>, pos: int, rate: u32, channels: u8) -> Result<
    (u32, u8, Seq<i16>),
    MediaError,
> {
    match heard(Backend::Production, scanned(b, pos).0, rate, channels) {
        Err(e) => Err(e),
        Ok(found) => match scanned(b, pos).1 {
            Some(e) => Err(e),
            None => Ok(found),
        },
    }
}

/// The samples that a file holds, with rate and channel count, or nothing where it has no audio
/// stream.
pub open spec fn file_samples(backend: Backend, b: Seq<u8>) -> Result<
    Option<(u32, u8, Seq<i16>)>,
    MediaError,
> {
    match backend {
        Backend::Production => match prefix_of(backend, b) {
            Err(e) => Err(e),
            Ok((front, n)) => if stream_of(front.streams, StreamKind::Audio, 0) is None {
                Ok(None)
            } else {
                match samples_from(b, n, 0, 0) {
                    Err(e) => Err(e),
                    Ok(found) => Ok(Some(found)),
                }
            },
        },
        Backend::Reference => match file_packets(b) {
            Err(e) => Err(e),
            Ok((front, packets, n)) => if stream_of(front.streams, StreamKind::Audio, 0) is None {
                Ok(None)
            } else {
                match heard(backend, packets, 0, 0) {
                    Err(e) => Err(e),
                    Ok(found) => Ok(Some(found)),
                }
            },
        },
    }
}

/// What reading samples gives.
pub open spec fn samples_result(
    want: Result<(u32, u8, Seq<i16>), MediaError>,
    r: Result<(u32, u8, Vec<i16>), MediaError>,
) -> bool {
    match r {
        Ok((rate, channels, samples)) => want == Ok::<(u32, u8, Seq<i16>), MediaError>(
            (rate, channels, samples@),
        ),
        Err(e) => want == Err::<(u32, u8, Seq<i16>), MediaError>(e),
    }
}

/// Whether what is to come after these samples makes the whole.
pub open spec fn continues(
    want: Result<(u32, u8, Seq<i16>), MediaError>,
    samples: Seq<i16>,
    rest: Result<(u32, u8, Seq<i16>), MediaError>,
) -> bool {
    match rest {
        Ok((rate, channels, more)) => want == Ok::<(u32, u8, Seq<i16>), MediaError>(
            (rate, channels, samples + more),
        ),
        Err(e) => want == Err::<(u32, u8, Seq<i16>), MediaError>(e),
    }
}

/// Decodes the samples of a packet.
fn hear(decoder: &mut AudioDecoder, payload: &[u8]) -> (r: Result<(u32, u8, Vec<i16>), MediaError>)
    requires
        old(decoder).bounds() == audio::v1::codec::bounds(8_388_608, None),
    ensures
        samples_result(heard_packet(Backend::Production, payload@), r),
        final(decoder).bounds() == old(decoder).bounds(),
{
    proof {
        reveal(heard_packet);
    }
    match decoder.decode(payload) {
        Ok(found) => Ok(found),
        Err(e) => Err(MediaError::AudioDecode(e)),
    }
}

/// Decodes the samples of a packet with the reference decoder.
fn hear_reference(payload: &[u8]) -> (r: Result<(u32, u8, Vec<i16>), MediaError>)
    ensures
        samples_result(heard_packet(Backend::Reference, payload@), r),
{
    proof {
        reveal(heard_packet);
    }
    match reference::audio::decode(payload) {
        Ok(found) => Ok(found),
        Err(e) => Err(MediaError::AudioDecode(e)),
    }
}

/// Decodes the samples of the packets from `prefix` on, packet after packet.
fn read_samples(b: &[u8], prefix: usize) -> (r: Result<(u32, u8, Vec<i16>), MediaError>)
    requires
        prefix <= b@.len(),
    ensures
        samples_result(samples_from(b@, prefix as int, 0, 0), r),
{
    proof {
        reveal(scanned);
    }
    let ghost want = samples_from(b@, prefix as int, 0, 0);
    let mut decoder: AudioDecoder = AudioDecoder::new();
    let parser: SliceParser = SliceParser::default();
    let mut samples: Vec<i16> = Vec::new();
    let mut rate: u32 = 0;
    let mut channels: u8 = 0;
    let mut pos: usize = prefix;
    proof {
        if let Ok((_, _, all)) = want {
            assert(samples@ + all =~= all);
        }
    }
    while pos < b.len()
        invariant
            prefix <= pos <= b@.len(),
            want == samples_from(b@, prefix as int, 0, 0),
            decoder.bounds() == audio::v1::codec::bounds(8_388_608, None),
            parser.max_packet == 134_217_728,
            continues(want, samples@, samples_from(b@, pos as int, rate, channels)),
        decreases b@.len() - pos,
    {
        proof {
            reveal(scanned);
            assert(b@.subrange(pos as int, b@.len() as int) =~= b@.skip(pos as int));
            syntax::lemma_packet_size(b@.skip(pos as int), 134_217_728);
        }
        let (packet, n): (PacketView, usize) = match parser.packet(&b[pos..b.len()]) {
            Ok(found) => found,
            Err(e) => {
                return Err(MediaError::PacketAt(pos, e));
            },
        };
        proof {
            let rest = scanned(b@, pos + n).0;
            let all = seq![packet.model()] + rest;
            assert(scanned(b@, pos as int).0 == all);
            assert(all[0] == packet.model());
            assert(all.drop_first() =~= rest);
        }
        if packet.kind == PacketKind::AudioFrame {
            let (r, c, more): (u32, u8, Vec<i16>) = match hear(&mut decoder, packet.payload) {
                Ok(found) => found,
                Err(e) => {
                    return Err(e);
                },
            };
            if rate != 0 && (rate != r || channels != c) {
                return Err(MediaError::AudioFormat);
            }
            rate = r;
            channels = c;
            let ghost before = samples@;
            append(&more, &mut samples);
            proof {
                if let Ok((_, _, tail)) = samples_from(b@, pos + n, rate, channels) {
                    assert(before + (more@ + tail) =~= samples@ + tail);
                }
            }
        }
        pos = pos + n;
    }
    assert(samples@ + Seq::<i16>::empty() =~= samples@);
    Ok((rate, channels, samples))
}

/// Appends samples.
fn append(from: &Vec<i16>, to: &mut Vec<i16>)
    ensures
        final(to)@ == old(to)@ + from@,
{
    to.extend_from_slice(from);
    assert(to@ =~= old(to)@ + from@);
}

/// Decodes the samples of packets with the reference decoder.
fn hear_packets(packets: &Vec<Packet>) -> (r: Result<(u32, u8, Vec<i16>), MediaError>)
    ensures
        samples_result(heard(Backend::Reference, epoch::contents(packets@), 0, 0), r),
{
    let ghost all = epoch::contents(packets@);
    let ghost want = heard(Backend::Reference, all, 0, 0);
    let mut samples: Vec<i16> = Vec::new();
    let mut rate: u32 = 0;
    let mut channels: u8 = 0;
    let mut i: usize = 0;
    proof {
        assert(all.skip(0) =~= all);
        if let Ok((_, _, list)) = want {
            assert(samples@ + list =~= list);
        }
    }
    while i < packets.len()
        invariant
            i <= packets@.len(),
            all == epoch::contents(packets@),
            want == heard(Backend::Reference, all, 0, 0),
            continues(
                want,
                samples@,
                heard(Backend::Reference, all.skip(i as int), rate, channels),
            ),
        decreases packets@.len() - i,
    {
        let packet: &Packet = &packets[i];
        proof {
            assert(all.skip(i as int)[0] == packet.model());
            assert(all.skip(i as int).drop_first() =~= all.skip(i + 1));
        }
        if packet.kind == PacketKind::AudioFrame {
            let (r, c, more): (u32, u8, Vec<i16>) = match hear_reference(
                packet.payload.as_slice(),
            ) {
                Ok(found) => found,
                Err(e) => {
                    return Err(e);
                },
            };
            if rate != 0 && (rate != r || channels != c) {
                return Err(MediaError::AudioFormat);
            }
            rate = r;
            channels = c;
            let ghost before = samples@;
            append(&more, &mut samples);
            proof {
                if let Ok((_, _, tail)) = heard(
                    Backend::Reference,
                    all.skip(i + 1),
                    rate,
                    channels,
                ) {
                    assert(before + (more@ + tail) =~= samples@ + tail);
                }
            }
        }
        i = i + 1;
    }
    assert(samples@ + Seq::<i16>::empty() =~= samples@);
    Ok((rate, channels, samples))
}

/// Decodes the samples that a file holds.
pub fn decode_audio_samples(b: &[u8], backend: Backend) -> (r: Result<
    Option<(u32, u8, Vec<i16>)>,
    MediaError,
>)
    ensures
        match r {
            Ok(Some((rate, channels, samples))) => file_samples(backend, b@) == Ok::<
                Option<(u32, u8, Seq<i16>)>,
                MediaError,
            >(Some((rate, channels, samples@))),
            Ok(None) => file_samples(backend, b@) == Ok::<
                Option<(u32, u8, Seq<i16>)>,
                MediaError,
            >(None),
            Err(e) => file_samples(backend, b@) == Err::<Option<(u32, u8, Seq<i16>)>, MediaError>(e),
        },
{
    let found: Result<(u32, u8, Vec<i16>), MediaError> = match backend {
        Backend::Production => {
            let (front, prefix): (Front, usize) = match read_prefix(backend, b) {
                Ok(found) => found,
                Err(e) => {
                    return Err(e);
                },
            };
            match find_stream(&front.streams, StreamKind::Audio) {
                Some(_) => {},
                None => {
                    return Ok(None);
                },
            }
            read_samples(b, prefix)
        },
        Backend::Reference => {
            let (front, packets): (Front, Vec<Packet>) = match all_packets(b) {
                Ok((front, packets, _)) => (front, packets),
                Err(e) => {
                    return Err(e);
                },
            };
            match find_stream(&front.streams, StreamKind::Audio) {
                Some(_) => {},
                None => {
                    return Ok(None);
                },
            }
            hear_packets(&packets)
        },
    };
    match found {
        Ok(found) => Ok(Some(found)),
        Err(e) => Err(e),
    }
}

} // verus!
