//! Which packets a session takes, and what it gives for them.
use crate::bytes;
use crate::container::v1::session;
use crate::container::v1::session::{DecodeFailure, OutputModel, Session};
use crate::container::v1::syntax;
use crate::container::v1::{ContainerError, PacketKind, StreamDesc, StreamKind};
use crate::video::v1::history;
use crate::video::v1::syntax::Picture;
use crate::video::v1::VideoError;
use vstd::prelude::*;

verus! {

// ---------------------------------------------------------------------------------------------
// Routes

proof fn lemma_found(streams: Seq<StreamDesc>, id: u16, k: int, i: int)
    requires
        0 <= i <= k < streams.len(),
        streams[k].id == id,
        forall|j: int| i <= j < k ==> (#[trigger] streams[j]).id != id,
    ensures
        syntax::find_stream(streams, id, i) == Some(streams[k]),
    decreases k - i,
{
    if i < k {
        assert(streams[i].id != id);
        lemma_found(streams, id, k, i + 1);
    }
}

/// A video packet goes to the stream that it names if that is a video stream, an audio packet to an
/// audio stream; a packet that names no stream or one of another kind is refused. Starts of epochs and
/// metadata go to no stream, whatever they name.
pub proof fn law_routes(streams: Seq<StreamDesc>, p: syntax::PacketModel, k: int)
    requires
        syntax::stream_ids_distinct(streams),
    ensures
        p.kind == PacketKind::EpochStart || p.kind == PacketKind::Metadata ==> syntax::routed(
            streams,
            p,
        ) == Ok::<Option<StreamDesc>, ContainerError>(None),
        p.kind == PacketKind::VideoFrame || p.kind == PacketKind::AudioFrame ==> {
            &&& 0 <= k < streams.len() && streams[k].id == p.stream_id ==> syntax::routed(streams, p)
                == if (p.kind == PacketKind::VideoFrame && streams[k].kind == StreamKind::Video) || (
            p.kind == PacketKind::AudioFrame && streams[k].kind == StreamKind::Audio) {
                Ok::<Option<StreamDesc>, ContainerError>(Some(streams[k]))
            } else {
                Err(ContainerError::BadStream)
            }
            &&& (forall|j: int| 0 <= j < streams.len() ==> (#[trigger] streams[j]).id != p.stream_id)
                ==> syntax::routed(streams, p) == Err::<Option<StreamDesc>, ContainerError>(
                ContainerError::BadStream,
            )
        },
{
    if 0 <= k < streams.len() && streams[k].id == p.stream_id {
        assert forall|j: int| 0 <= j < k implies (#[trigger] streams[j]).id != p.stream_id by {}
        lemma_found(streams, p.stream_id, k, 0);
    }
    if forall|j: int| 0 <= j < streams.len() ==> (#[trigger] streams[j]).id != p.stream_id {
        syntax::lemma_find_none(streams, p.stream_id, 0);
    }
}

// ---------------------------------------------------------------------------------------------
// Streams that can be decoded

/// A session decodes video of codec 1 with even dimensions and no more pixels than allowed, and audio of
/// codec 1 between 8 and 384 kHz with one to eight channels; all else is refused.
pub proof fn law_streams_refused(session: Session, p: syntax::PacketModel, stream: StreamDesc)
    requires
        session.epoch.active,
    ensures
        p.kind == PacketKind::VideoFrame && (stream.codec != 1 || stream.param0 == 0 || stream.param1
            == 0 || stream.param0 % 2 == 1 || stream.param1 % 2 == 1 || stream.param0 * stream.param1
            > session.limits.max_frame_pixels) ==> session.step(p, Some(stream)) == (
            session,
            Err::<OutputModel, DecodeFailure>(DecodeFailure::Container(ContainerError::BadStream)),
        ),
        p.kind == PacketKind::AudioFrame && (stream.codec != 1 || stream.param0 < 8000
            || stream.param0 > 384000 || stream.param1 == 0 || stream.param1 > 8) ==> session.step(
            p,
            Some(stream),
        ) == (
            session,
            Err::<OutputModel, DecodeFailure>(DecodeFailure::Container(ContainerError::BadStream)),
        ),
        (p.kind == PacketKind::VideoFrame || p.kind == PacketKind::AudioFrame) ==> session.step(
            p,
            None,
        ) == (
            session,
            Err::<OutputModel, DecodeFailure>(DecodeFailure::Container(ContainerError::BadStream)),
        ),
{
    reveal(Session::step);
}

/// The history of a stream, which has none before its first packet.
pub open spec fn history_of(session: Session, id: u16, history: Seq<(u64, Picture)>) -> bool {
    &&& (forall|j: int| 0 <= j < session.video.len() ==> (#[trigger] session.video[j]).0 != id)
        ==> history.len() == 0
    &&& forall|j: int|
        0 <= j < session.video.len() && (#[trigger] session.video[j]).0 == id && (forall|i: int|
            0 <= i < j ==> (#[trigger] session.video[i]).0 != id) ==> history
            == session.video[j].1.history
}

proof fn lemma_slot<T>(list: Seq<(u16, T)>, id: u16, i: int)
    requires
        0 <= i <= list.len(),
    ensures
        ({
            let k = session::slot(list, id, i);
            &&& i <= k <= list.len()
            &&& k < list.len() ==> list[k].0 == id
            &&& forall|j: int| i <= j < k ==> (#[trigger] list[j]).0 != id
        }),
    decreases list.len() - i,
{
    if i < list.len() && list[i].0 != id {
        lemma_slot(list, id, i + 1);
    }
}

/// The first packet of a stream is decoded within what the stream declares: video of its dimensions,
/// audio of its rate and channels; and with no more bytes of tokens than limits allow.
pub proof fn law_first_bounds(session: Session, id: u16, stream: StreamDesc)
    requires
        forall|j: int| 0 <= j < session.video.len() ==> (#[trigger] session.video[j]).0 != id,
        forall|j: int| 0 <= j < session.audio.len() ==> (#[trigger] session.audio[j]).0 != id,
    ensures
        ({
            let v = session.video_state(id, stream);
            &&& v.history.len() == 0
            &&& v.bounds.max_pixels == stream.param0 * stream.param1
            &&& v.bounds.max_entropy == session.limits.max_entropy_bytes
            &&& v.bounds.expected == Some((stream.param0, stream.param1))
        }),
        ({
            let a = session.audio_state(id, stream);
            &&& a.max_entropy == session.limits.max_entropy_bytes
            &&& stream.param1 <= 255 ==> a.expected == Some((stream.param0, stream.param1 as u8))
            &&& a.strict
            &&& !a.fixed
        }),
{
    lemma_slot(session.video, id, 0);
    lemma_slot(session.audio, id, 0);
}

/// What a session gives for a video packet of a stream that it can decode: what the packet shows on top
/// of the pictures that the stream has shown before, at the time and for as long as the packet says.
/// After that the stream remembers the picture.
pub proof fn law_video_output(
    session: Session,
    p: syntax::PacketModel,
    stream: StreamDesc,
    past: Seq<(u64, Picture)>,
)
    requires
        session.epoch.active,
        p.kind == PacketKind::VideoFrame,
        stream.codec == 1,
        stream.param0 > 0,
        stream.param1 > 0,
        stream.param0 % 2 == 0,
        stream.param1 % 2 == 0,
        stream.param0 * stream.param1 <= session.limits.max_frame_pixels,
        history_of(session, p.stream_id, past),
    ensures
        session.step(p, Some(stream)).1 matches Ok(given) ==> {
            &&& given matches OutputModel::Video {
                stream_id,
                pts,
                duration,
                frame_id,
                picture,
                dependencies,
            }
            &&& stream_id == p.stream_id && pts == p.pts && duration == p.duration
            &&& exists|bounds: crate::video::v1::syntax::Bounds|
                #[trigger] history::decoded_next(p.payload, past, bounds) == Ok::<
                    (u64, Picture, Seq<u64>),
                    VideoError,
                >((frame_id, picture, dependencies))
            &&& history_of(
                session.step(p, Some(stream)).0,
                p.stream_id,
                history::extended(past, frame_id, picture),
            )
        },
{
    reveal(Session::step);
    lemma_slot(session.video, p.stream_id, 0);
    let k = session::slot(session.video, p.stream_id, 0);
    let state = session.video_state(p.stream_id, stream);
    if k < session.video.len() {
        assert(session.video[k].0 == p.stream_id);
        assert(past == session.video[k].1.history);
    } else {
        assert(past =~= Seq::empty());
    }
    assert(state.history == past);
    if let Ok((frame_id, picture, dependencies)) = history::decoded_next(
        p.payload,
        state.history,
        state.bounds,
    ) {
        let next = session.step(p, Some(stream)).0;
        if k < session.video.len() {
            assert(next.video[k].0 == p.stream_id);
        } else {
            assert(next.video[k].0 == p.stream_id);
        }
        assert forall|j: int|
            0 <= j < next.video.len() && (#[trigger] next.video[j]).0 == p.stream_id && (forall|i: int|
                0 <= i < j ==> (#[trigger] next.video[i]).0 != p.stream_id) implies history::extended(
            past,
            frame_id,
            picture,
        ) == next.video[j].1.history by {
            if j < k {
                assert(session.video[j].0 != p.stream_id);
            } else if j > k {
                assert(next.video[k].0 != p.stream_id);
            }
        }
    }
}

/// What a session gives for an audio packet of a stream that it can decode: its samples, at the time and
/// for as long as the packet says. Nothing else is remembered of it but that the stream was heard.
pub proof fn law_audio_output(session: Session, p: syntax::PacketModel, stream: StreamDesc)
    requires
        session.epoch.active,
        p.kind == PacketKind::AudioFrame,
        stream.codec == 1,
        8000 <= stream.param0 <= 384000,
        1 <= stream.param1 <= 8,
    ensures
        session.step(p, Some(stream)).0.video == session.video,
        session.step(p, Some(stream)).1 matches Ok(given) ==> {
            &&& given matches OutputModel::Audio {
                stream_id,
                pts,
                duration,
                sample_rate,
                channels,
                pcm,
            }
            &&& stream_id == p.stream_id && pts == p.pts && duration == p.duration
            &&& exists|bounds: crate::audio::v1::syntax::Bounds|
                #[trigger] crate::audio::v1::syntax::decoded_packet(p.payload, bounds) == Ok::<
                    (u32, u8, Seq<i16>),
                    crate::audio::v1::AudioError,
                >((sample_rate, channels, pcm))
        },
{
    reveal(Session::step);
}

/// The start of an epoch is given with the number that its four bytes spell, and all streams forget
/// their pictures; with another number than the one expected, or another length, it is refused.
pub proof fn law_epoch_output(session: Session, p: syntax::PacketModel, id: u32)
    requires
        p.kind == PacketKind::EpochStart,
        p.payload.len() == 4,
        id == p.payload[0] + 256 * p.payload[1] + 65536 * p.payload[2] + 16777216 * p.payload[3],
    ensures
        session.epoch.expected is Some && session.epoch.expected != Some(id) ==> session.step(p, None)
            == (session, Err::<OutputModel, DecodeFailure>(
            DecodeFailure::Container(ContainerError::BadEpoch),
        )),
        session.epoch.expected is None || session.epoch.expected == Some(id) ==> {
            let (next, given) = session.step(p, None);
            &&& given == Ok::<OutputModel, DecodeFailure>(
                OutputModel::EpochStart { id, pts: p.pts, duration: p.duration },
            )
            &&& next.epoch.active
            &&& next.epoch.current == Some(id)
            &&& next.video.len() == session.video.len()
            &&& forall|i: int|
                0 <= i < next.video.len() ==> (#[trigger] next.video[i]).0 == session.video[i].0
                    && next.video[i].1.history.len() == 0 && next.video[i].1.bounds
                    == session.video[i].1.bounds
            &&& next.audio == session.audio
        },
{
    reveal(Session::step);
    bytes::lemma_le_value_4(p.payload);
}

/// Metadata is given as it is.
pub proof fn law_metadata_output(session: Session, p: syntax::PacketModel, stream: Option<StreamDesc>)
    requires
        session.epoch.active,
        p.kind == PacketKind::Metadata,
    ensures
        session.step(p, stream).1 == Ok::<OutputModel, DecodeFailure>(
            OutputModel::Metadata {
                stream_id: p.stream_id,
                pts: p.pts,
                duration: p.duration,
                payload: p.payload,
            },
        ),
        session.step(p, stream).0.video == session.video,
        session.step(p, stream).0.audio == session.audio,
{
    reveal(Session::step);
}

/// Before an epoch starts nothing is taken.
pub proof fn law_nothing_before(session: Session, p: syntax::PacketModel, stream: Option<StreamDesc>)
    requires
        !session.epoch.active,
        p.kind != PacketKind::EpochStart,
    ensures
        session.step(p, stream) == (session, Err::<OutputModel, DecodeFailure>(
            DecodeFailure::Container(ContainerError::BadEpoch),
        )),
{
    reveal(Session::step);
}

} // verus!
