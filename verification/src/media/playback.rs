//! What a session gives of a file that arrives as a stream: the pictures and samples that reading
//! the file as a whole gives.
use crate::audio;
use crate::container::v1::flow;
use crate::container::v1::fragments;
use crate::container::v1::parser;
use crate::container::v1::parser::EpochTracker;
use crate::container::v1::session;
use crate::container::v1::session::{OutputModel, Session, VideoModel};
use crate::container::v1::session_laws;
use crate::container::v1::syntax;
use crate::container::v1::{ContainerError, PacketKind, StreamDesc};
use crate::limits::Limits;
use crate::media;
use crate::media::decode;
use crate::media::encode;
use crate::media::encode::{Recipe, Sound};
use crate::media::laws;
use crate::media::scene;
use crate::media::sound_laws;
use crate::media::{Backend, ClipModel, MediaError};
use crate::mux::epoch;
use crate::video::v1::history;
use crate::video::v1::packets;
use crate::video::v1::syntax::Picture;
use vstd::prelude::*;

verus! {

/// The pictures among outputs, in order.
pub open spec fn screened(outputs: Seq<OutputModel>) -> Seq<Picture>
    decreases outputs.len(),
{
    if outputs.len() == 0 {
        Seq::empty()
    } else {
        let rest = screened(outputs.drop_first());
        match outputs[0] {
            OutputModel::Video { picture, .. } => seq![picture] + rest,
            _ => rest,
        }
    }
}

/// The samples among outputs, in order.
pub open spec fn sounded(outputs: Seq<OutputModel>) -> Seq<i16>
    decreases outputs.len(),
{
    if outputs.len() == 0 {
        Seq::empty()
    } else {
        let rest = sounded(outputs.drop_first());
        match outputs[0] {
            OutputModel::Audio { pcm, .. } => pcm + rest,
            _ => rest,
        }
    }
}

/// The ceilings that reading a whole file has.
pub open spec fn usual(limits: Limits) -> bool {
    limits.max_frame_pixels == 67_108_864 && limits.max_entropy_bytes == 8_388_608
}

// ---------------------------------------------------------------------------------------------
// Packets

/// A parser takes the packets that reading the file whole finds.
proof fn lemma_flow_scans(flow: flow::Flow, b: Seq<u8>, pos: int)
    requires
        flow.prefix_done,
        flow.max_packet == 134_217_728,
        0 <= pos <= b.len(),
        flow.pending == b.skip(pos),
        flow.drained().error is None,
        flow.drained().flow.pending.len() == 0,
    ensures
        decode::scanned(b, pos) == (fragments::bare(flow.drained().packets), None::<MediaError>),
        flow.front matches Some(front) ==> fragments::all_routed(
            flow.drained().packets,
            front.streams,
        ),
    decreases b.len() - pos,
{
    reveal(flow::Flow::next);
    reveal_with_fuel(decode::scanned, 2);
    flow::lemma_next_size(flow);
    let all = flow.drained().packets;
    if pos < b.len() {
        if let Ok(Some((p, stream, n))) = flow.next() {
            let next = flow.with_pending(flow.pending.skip(n));
            assert(flow.pending.skip(n) =~= b.skip(pos + n));
            lemma_flow_scans(next, b, pos + n);
            let rest = next.drained().packets;
            assert(all == seq![(p, stream)] + rest);
            assert(fragments::bare(all) =~= seq![p] + fragments::bare(rest));
            if let Some(front) = flow.front {
                assert forall|k: int| 0 <= k < all.len() implies syntax::routed(
                    front.streams,
                    (#[trigger] all[k]).0,
                ) == Ok::<Option<StreamDesc>, ContainerError>(all[k].1) by {
                    if k > 0 {
                        assert(all[k] == rest[k - 1]);
                    }
                }
            }
        }
    } else {
        assert(fragments::bare(all) =~= Seq::empty());
    }
}

/// A picture of the declared dimensions passes the stream's own bounds.
proof fn lemma_same_picture(
    payload: Seq<u8>,
    references: Seq<(u64, Picture)>,
    desc: StreamDesc,
    limits: Limits,
)
    requires
        usual(limits),
        decode::shown_frame(Backend::Production, payload, references) matches Ok((id, picture))
            && picture.width == desc.param0 && picture.height == desc.param1,
    ensures
        ({
            let shown = decode::shown_frame(Backend::Production, payload, references)->Ok_0;
            history::decoded_next(
                payload,
                references,
                session::video_bounds(desc, limits),
            ) matches Ok((id, picture, ids)) && (id, picture) == shown
        }),
{
    reveal(decode::shown_frame);
}

/// Samples of the declared format pass the stream's own bounds.
proof fn lemma_same_samples(payload: Seq<u8>, desc: StreamDesc, limits: Limits)
    requires
        usual(limits),
        decode::heard_packet(Backend::Production, payload) matches Ok((rate, channels, samples))
            && rate == desc.param0 && channels == desc.param1 as u8,
    ensures
        audio::v1::syntax::decoded_packet(payload, session::audio_bounds(desc, limits)) == Ok::<
            (u32, u8, Seq<i16>),
            audio::v1::AudioError,
        >(decode::heard_packet(Backend::Production, payload)->Ok_0),
{
    reveal(decode::heard_packet);
}

// ---------------------------------------------------------------------------------------------
// Outputs

/// A packet that a session takes: it belongs to a stream of these, pictures all to one of them,
/// and samples have the format that their stream declares.
pub open spec fn playable(
    p: syntax::PacketModel,
    stream: Option<StreamDesc>,
    streams: Seq<StreamDesc>,
    pictures: u16,
) -> bool {
    &&& syntax::routed(streams, p) == Ok::<Option<StreamDesc>, ContainerError>(stream)
    &&& p.kind == PacketKind::EpochStart ==> p.payload.len() == 4
    &&& p.kind == PacketKind::VideoFrame ==> p.stream_id == pictures
    &&& p.kind == PacketKind::AudioFrame ==> {
        &&& stream matches Some(desc) && session::audio_stream_ok(desc)
        &&& decode::heard_packet(Backend::Production, p.payload) matches Ok((rate, channels, pcm))
            && rate == stream->0.param0 && channels == stream->0.param1 as u8
    }
}

/// A session that is about to take such packets, with these references.
pub open spec fn ready(
    s: Session,
    streams: Seq<StreamDesc>,
    pictures: u16,
    references: Seq<(u64, Picture)>,
) -> bool {
    &&& usual(s.limits)
    &&& s.epoch.expected is None
    &&& session_laws::faithful(s, streams)
    &&& syntax::find_stream(streams, pictures, 0) matches Some(desc) && session::video_stream_ok(
        desc,
        s.limits,
    ) && s.video_state(pictures, desc) == (VideoModel {
        history: references,
        bounds: session::video_bounds(desc, s.limits),
    })
}

/// What one packet gives, and the references after it.
pub open spec fn given(
    p: syntax::PacketModel,
    references: Seq<(u64, Picture)>,
    output: OutputModel,
    later: Seq<(u64, Picture)>,
) -> bool {
    match p.kind {
        PacketKind::EpochStart => output is EpochStart && later == Seq::<(u64, Picture)>::empty(),
        PacketKind::VideoFrame => {
            let (id, picture) = decode::shown_frame(
                Backend::Production,
                p.payload,
                references,
            )->Ok_0;
            output matches OutputModel::Video { picture: seen, .. } && seen == picture && later
                == history::extended(references, id, picture)
        },
        PacketKind::AudioFrame => output matches OutputModel::Audio { pcm, .. } && pcm == (
        decode::heard_packet(Backend::Production, p.payload)->Ok_0).2 && later == references,
        PacketKind::Metadata => output is Metadata && later == references,
    }
}

/// One packet.
proof fn lemma_packet_played(
    s: Session,
    streams: Seq<StreamDesc>,
    pictures: u16,
    references: Seq<(u64, Picture)>,
    p: syntax::PacketModel,
    stream: Option<StreamDesc>,
) -> (later: Seq<(u64, Picture)>)
    requires
        ready(s, streams, pictures, references),
        playable(p, stream, streams, pictures),
        s.epoch.active || p.kind == PacketKind::EpochStart,
        p.kind == PacketKind::VideoFrame ==> (decode::shown_frame(
            Backend::Production,
            p.payload,
            references,
        ) matches Ok((id, picture)) && {
            let desc = syntax::find_stream(streams, pictures, 0)->0;
            picture.width == desc.param0 && picture.height == desc.param1
        }),
    ensures
        s.step(p, stream).1 matches Ok(output) && given(p, references, output, later),
        ready(s.step(p, stream).0, streams, pictures, later),
        s.step(p, stream).0.epoch.active,
{
    let desc = syntax::find_stream(streams, pictures, 0)->0;
    session_laws::lemma_step_faithful(s, streams, p, stream);
    reveal(Session::step);
    let next = s.step(p, stream).0;
    if p.kind == PacketKind::EpochStart {
        session_laws::lemma_start_plain(s, streams, p, stream);
        assert(next.video_state(pictures, desc).history == Seq::<(u64, Picture)>::empty());
        Seq::empty()
    } else if p.kind == PacketKind::VideoFrame {
        lemma_same_picture(p.payload, references, desc, s.limits);
        let (id, picture) = decode::shown_frame(Backend::Production, p.payload, references)->Ok_0;
        let later = history::extended(references, id, picture);
        session_laws::lemma_stored(
            s.video,
            pictures,
            VideoModel { history: later, bounds: session::video_bounds(desc, s.limits) },
        );
        later
    } else if p.kind == PacketKind::AudioFrame {
        let own = stream->0;
        lemma_same_samples(p.payload, own, s.limits);
        lemma_audio_state(s, streams, p.stream_id);
        assert(next.video_state(pictures, desc) == s.video_state(pictures, desc));
        references
    } else {
        references
    }
}

/// The bounds of an audio decoder are those that its stream asks for.
proof fn lemma_audio_state(s: Session, streams: Seq<StreamDesc>, id: u16)
    requires
        session_laws::faithful(s, streams),
        syntax::find_stream(streams, id, 0) is Some,
    ensures
        s.audio_state(id, syntax::find_stream(streams, id, 0)->0) == session::audio_bounds(
            syntax::find_stream(streams, id, 0)->0,
            s.limits,
        ),
{
    session::lemma_slot(s.audio, id, 0);
    let k = session::slot(s.audio, id, 0);
    if k < s.audio.len() {
        assert(s.audio[k].0 == id);
    }
}

/// A session gives, of packets that can be decoded one after the other, the pictures and samples
/// that decoding them so gives.
pub proof fn law_packets_played(
    s: Session,
    streams: Seq<StreamDesc>,
    pictures: u16,
    references: Seq<(u64, Picture)>,
    packets: Seq<(syntax::PacketModel, Option<StreamDesc>)>,
    rate: u32,
    channels: u8,
)
    requires
        ready(s, streams, pictures, references),
        forall|k: int|
            0 <= k < packets.len() ==> playable(
                (#[trigger] packets[k]).0,
                packets[k].1,
                streams,
                pictures,
            ),
        s.epoch.active || packets.len() == 0 || packets[0].0.kind == PacketKind::EpochStart,
        decode::shown_frames(Backend::Production, fragments::bare(packets), references) matches Ok(frames)
            && forall|i: int|
            0 <= i < frames.len() ==> {
                let desc = syntax::find_stream(streams, pictures, 0)->0;
                (#[trigger] frames[i]).width == desc.param0 && frames[i].height == desc.param1
            },
        decode::heard(Backend::Production, fragments::bare(packets), rate, channels) is Ok,
    ensures
        session_laws::played(s, packets) matches Ok(outputs) && screened(outputs)
            == decode::shown_frames(Backend::Production, fragments::bare(packets), references)->Ok_0
            && sounded(outputs) == (decode::heard(
            Backend::Production,
            fragments::bare(packets),
            rate,
            channels,
        )->Ok_0).2,
    decreases packets.len(),
{
    if packets.len() > 0 {
        let (p, stream) = packets[0];
        let rest = packets.drop_first();
        let all = fragments::bare(packets);
        let frames = decode::shown_frames(Backend::Production, all, references)->Ok_0;
        assert(playable(p, stream, streams, pictures));
        assert(all[0] == p);
        assert(all.drop_first() =~= fragments::bare(rest));
        let pcm = decode::heard_packet(Backend::Production, p.payload);
        if p.kind == PacketKind::VideoFrame {
            let (id, picture) = decode::shown_frame(
                Backend::Production,
                p.payload,
                references,
            )->Ok_0;
            assert(frames[0] == picture);
        }
        let later = lemma_packet_played(s, streams, pictures, references, p, stream);
        let next = s.step(p, stream).0;
        assert forall|k: int| 0 <= k < rest.len() implies playable(
            (#[trigger] rest[k]).0,
            rest[k].1,
            streams,
            pictures,
        ) by {
            assert(rest[k] == packets[k + 1]);
        }
        let more = decode::shown_frames(Backend::Production, fragments::bare(rest), later)->Ok_0;
        assert(decode::shown_frames(Backend::Production, fragments::bare(rest), later) is Ok);
        assert forall|i: int| 0 <= i < more.len() implies {
            let desc = syntax::find_stream(streams, pictures, 0)->0;
            (#[trigger] more[i]).width == desc.param0 && more[i].height == desc.param1
        } by {
            if p.kind == PacketKind::VideoFrame {
                assert(frames[i + 1] == more[i]);
            } else {
                assert(frames[i] == more[i]);
            }
        }
        let (r, c) = if p.kind == PacketKind::AudioFrame {
            ((pcm->Ok_0).0, (pcm->Ok_0).1)
        } else {
            (rate, channels)
        };
        law_packets_played(next, streams, pictures, later, rest, r, c);
        let outputs = session_laws::played(s, packets)->Ok_0;
        assert(outputs.drop_first() =~= session_laws::played(next, rest)->Ok_0);
    }
}

// ---------------------------------------------------------------------------------------------
// Files

/// Every packet that starts an epoch names it in four bytes.
pub open spec fn starts_named(list: Seq<syntax::PacketModel>) -> bool {
    forall|i: int|
        0 <= i < list.len() && (#[trigger] list[i]).kind == PacketKind::EpochStart
            ==> list[i].payload.len() == 4
}

/// There are no samples among the packets.
pub open spec fn silent(list: Seq<syntax::PacketModel>) -> bool {
    forall|i: int| 0 <= i < list.len() ==> (#[trigger] list[i]).kind != PacketKind::AudioFrame
}

proof fn lemma_silence(list: Seq<syntax::PacketModel>, rate: u32, channels: u8)
    requires
        silent(list),
    ensures
        decode::heard(Backend::Production, list, rate, channels) == Ok::<
            (u32, u8, Seq<i16>),
            MediaError,
        >((rate, channels, Seq::empty())),
    decreases list.len(),
{
    if list.len() > 0 {
        let rest = list.drop_first();
        assert forall|i: int| 0 <= i < rest.len() implies (#[trigger] rest[i]).kind
            != PacketKind::AudioFrame by {
            assert(rest[i] == list[i + 1]);
        }
        lemma_silence(rest, rate, channels);
    }
}

/// Samples that are heard together have one format, which a stream can declare.
proof fn lemma_formats(list: Seq<syntax::PacketModel>, rate: u32, channels: u8, i: int)
    requires
        decode::heard(Backend::Production, list, rate, channels) is Ok,
        0 <= i < list.len(),
        list[i].kind == PacketKind::AudioFrame,
    ensures
        ({
            let (last_rate, last_channels, all) = decode::heard(
                Backend::Production,
                list,
                rate,
                channels,
            )->Ok_0;
            &&& decode::heard_packet(Backend::Production, list[i].payload) matches Ok((r, c, pcm))
                && r == last_rate && c == last_channels
            &&& 8_000 <= last_rate <= 384_000
            &&& 1 <= last_channels <= 8
        }),
    decreases list.len(),
{
    let p = list[0];
    let rest = list.drop_first();
    if p.kind == PacketKind::AudioFrame {
        let (r, c, pcm) = decode::heard_packet(Backend::Production, p.payload)->Ok_0;
        assert(8_000 <= r <= 384_000 && 1 <= c <= 8) by {
            reveal(decode::heard_packet);
        }
        lemma_format_stays(rest, r, c);
        if i > 0 {
            assert(rest[i - 1] == list[i]);
            lemma_formats(rest, r, c, i - 1);
        }
    } else {
        assert(rest[i - 1] == list[i]);
        lemma_formats(rest, rate, channels, i - 1);
    }
}

proof fn lemma_format_stays(list: Seq<syntax::PacketModel>, rate: u32, channels: u8)
    requires
        decode::heard(Backend::Production, list, rate, channels) is Ok,
        rate != 0,
    ensures
        ({
            let heard = decode::heard(Backend::Production, list, rate, channels)->Ok_0;
            heard.0 == rate && heard.1 == channels
        }),
    decreases list.len(),
{
    if list.len() > 0 {
        lemma_format_stays(list.drop_first(), rate, channels);
    }
}

/// What is shown has dimensions that pictures can have.
proof fn lemma_shown_dimensions(
    list: Seq<syntax::PacketModel>,
    references: Seq<(u64, Picture)>,
    i: int,
)
    requires
        decode::shown_frames(Backend::Production, list, references) is Ok,
        0 <= i < decode::shown_frames(Backend::Production, list, references)->Ok_0.len(),
    ensures
        ({
            let shown = decode::shown_frames(Backend::Production, list, references)->Ok_0[i];
            crate::video::v1::syntax::dimensions_ok(shown.width, shown.height)
        }),
    decreases list.len(),
{
    if list.len() > 0 {
        let p = list[0];
        let rest = list.drop_first();
        if p.kind == PacketKind::EpochStart {
            lemma_shown_dimensions(rest, Seq::empty(), i);
        } else if p.kind == PacketKind::VideoFrame {
            let (id, picture) = decode::shown_frame(
                Backend::Production,
                p.payload,
                references,
            )->Ok_0;
            if i == 0 {
                reveal(decode::shown_frame);
            } else {
                lemma_shown_dimensions(rest, history::extended(references, id, picture), i - 1);
            }
        } else {
            lemma_shown_dimensions(rest, references, i);
        }
    }
}

proof fn lemma_list_plain(
    recipe: Recipe,
    clip: ClipModel,
    sound: Option<Sound>,
    k: int,
    start: int,
    end: int,
)
    requires
        recipe.backend == Backend::Production,
        encode::clip_epoch(recipe, clip, sound, k, start, end) is Ok,
    ensures
        ({
            let list = laws::clip_list(recipe, clip, sound, k, start, end);
            &&& starts_named(list)
            &&& sound is None ==> silent(list)
        }),
{
    laws::lemma_epoch_parts(recipe, clip, sound, k, start, end);
    let frame_us = media::frame_duration(clip.fps_n, clip.fps_d);
    let (pts, end_pts) = (start * frame_us, end * frame_us);
    let opt = media::reference_options(recipe.preset, recipe.video_q);
    let video = encode::coded_frames(
        Backend::Production,
        clip.frames,
        start,
        end,
        Seq::empty(),
        opt,
        frame_us,
    )->Ok_0;
    let heard = encode::sound_between(Backend::Production, sound, pts, end_pts)->Ok_0;
    laws::lemma_sound_plain(Backend::Production, sound, pts, end_pts);
    sound_laws::lemma_video_plain(
        Backend::Production,
        clip.frames,
        start,
        end,
        Seq::empty(),
        opt,
        frame_us,
    );
    crate::bytes::lemma_le_bytes_len((k % 0x1_0000_0000) as u32 as int, 4);
    lemma_inner_kinds(video, heard);
    let list = laws::clip_list(recipe, clip, sound, k, start, end);
    let inner = epoch::interleaved(video, heard);
    assert forall|i: int| 0 < i < list.len() implies #[trigger] list[i] == inner[i - 1] by {}
}

proof fn lemma_inner_kinds(video: Seq<syntax::PacketModel>, audio: Seq<syntax::PacketModel>)
    requires
        epoch::all_kind(video, PacketKind::VideoFrame),
        epoch::all_kind(audio, PacketKind::AudioFrame),
    ensures
        ({
            let inner = epoch::interleaved(video, audio);
            &&& forall|i: int|
                0 <= i < inner.len() ==> (#[trigger] inner[i]).kind == PacketKind::VideoFrame
                    || inner[i].kind == PacketKind::AudioFrame
            &&& audio.len() == 0 ==> silent(inner)
        }),
{
    let inner = epoch::interleaved(video, audio);
    assert forall|i: int| 0 <= i < inner.len() implies (#[trigger] inner[i]).kind
        == PacketKind::VideoFrame || audio.len() > 0 && inner[i].kind == PacketKind::AudioFrame by {
        epoch::lemma_interleaved_from(video, audio, i);
    }
}

/// What is true of every list of a clip's packets is true of them all.
proof fn lemma_joined_plain(
    recipe: Recipe,
    clip: ClipModel,
    sound: Option<Sound>,
    starts: Seq<int>,
    k: int,
)
    requires
        recipe.backend == Backend::Production,
        0 < clip.frames.len(),
        0 <= k,
        encode::clip_epochs(recipe, clip, sound, starts, k) is Ok,
    ensures
        ({
            let list = laws::joined(laws::clip_lists(recipe, clip, sound, starts), k);
            &&& starts_named(list)
            &&& sound is None ==> silent(list)
        }),
    decreases starts.len() - k,
{
    let lists = laws::clip_lists(recipe, clip, sound, starts);
    if k < starts.len() {
        let end = encode::epoch_end(starts, k, clip.frames.len() as int);
        lemma_list_plain(recipe, clip, sound, k, starts[k], end);
        lemma_joined_plain(recipe, clip, sound, starts, k + 1);
        let (first, rest) = (lists[k], laws::joined(lists, k + 1));
        let list = first + rest;
        assert(laws::joined(lists, k) == list);
        assert forall|i: int| 0 <= i < list.len() implies #[trigger] list[i] == if i < first.len() {
            first[i]
        } else {
            rest[i - first.len()]
        } by {}
    }
}

/// What a decoder shows of frames has their dimensions.
proof fn lemma_rebuilt_dimensions(
    frames: Seq<Picture>,
    i: int,
    end: int,
    refs: Seq<(u64, Picture)>,
    opt: crate::video::v1::EncodeOptions,
    w: int,
    h: int,
)
    requires
        0 <= i,
        end <= frames.len(),
        forall|j: int|
            0 <= j < frames.len() ==> (#[trigger] frames[j]).width == w && frames[j].height == h,
    ensures
        forall|j: int|
            0 <= j < laws::rebuilt(frames, i, end, refs, opt).len() ==> {
                let shown = #[trigger] laws::rebuilt(frames, i, end, refs, opt)[j];
                shown.width == w && shown.height == h
            },
    decreases end - i,
{
    reveal_with_fuel(laws::rebuilt, 2);
    if i < end {
        let shown = packets::reconstruction(
            frames[i],
            packets::considered(refs.reverse(), opt),
            opt,
        );
        let next = history::extended(refs, i as u64, shown);
        lemma_rebuilt_dimensions(frames, i + 1, end, next, opt, w, h);
        let all = laws::rebuilt(frames, i, end, refs, opt);
        let rest = laws::rebuilt(frames, i + 1, end, next, opt);
        assert(all == seq![shown] + rest);
        assert forall|j: int| 0 <= j < all.len() implies {
            let shown = #[trigger] all[j];
            shown.width == w && shown.height == h
        } by {
            if j > 0 {
                assert(all[j] == rest[j - 1]);
            }
        }
    }
}

proof fn lemma_shown_from_dimensions(
    frames: Seq<Picture>,
    starts: Seq<int>,
    opt: crate::video::v1::EncodeOptions,
    k: int,
    w: int,
    h: int,
)
    requires
        laws::in_order(starts, frames.len() as int),
        0 <= k,
        forall|j: int|
            0 <= j < frames.len() ==> (#[trigger] frames[j]).width == w && frames[j].height == h,
    ensures
        forall|j: int|
            0 <= j < laws::shown_from(frames, starts, opt, k).len() ==> {
                let shown = #[trigger] laws::shown_from(frames, starts, opt, k)[j];
                shown.width == w && shown.height == h
            },
    decreases starts.len() - k,
{
    if k < starts.len() {
        let end = encode::epoch_end(starts, k, frames.len() as int);
        assert(0 <= starts[k] && end <= frames.len()) by {
            if k > 0 {
                assert(starts[0] < starts[k]);
            }
        }
        lemma_rebuilt_dimensions(frames, starts[k], end, Seq::empty(), opt, w, h);
        lemma_shown_from_dimensions(frames, starts, opt, k + 1, w, h);
        let first = laws::rebuilt(frames, starts[k], end, Seq::empty(), opt);
        let rest = laws::shown_from(frames, starts, opt, k + 1);
        let all = laws::shown_from(frames, starts, opt, k);
        assert(all == first + rest);
        assert forall|j: int| 0 <= j < all.len() implies {
            let shown = #[trigger] all[j];
            shown.width == w && shown.height == h
        } by {
            if j < first.len() {
                assert(all[j] == first[j]);
            } else {
                assert(all[j] == rest[j - first.len()]);
            }
        }
    }
}

/// Pictures that have the dimensions of a clip.
pub open spec fn all_sized(pictures: Seq<Picture>, clip: ClipModel) -> bool {
    forall|j: int|
        0 <= j < pictures.len() ==> (#[trigger] pictures[j]).width == clip.width
            && pictures[j].height == clip.height
}

/// A session that has decoded nothing.
pub open spec fn fresh(limits: Limits) -> Session {
    Session {
        epoch: EpochTracker { active: false, expected: None, current: None },
        limits,
        video: Seq::empty(),
        audio: Seq::empty(),
    }
}

/// The samples that go with a clip, as a decoder hears them.
pub open spec fn clip_heard(clip: ClipModel, sound: Option<Sound>, starts: Seq<int>) -> Seq<i16> {
    match sound {
        None => Seq::empty(),
        Some(sound) => sound_laws::heard_from(clip, sound, starts, 0),
    }
}

/// The packets of a clip can be decoded one after the other.
proof fn lemma_clip_packets(recipe: Recipe, clip: ClipModel, sound: Option<Sound>)
    requires
        recipe.backend == Backend::Production,
        recipe.epoch_frames > 0,
        0 < clip.frames.len() <= usize::MAX,
        sound matches Some(sound) ==> sound.options.channels > 0,
        encode::clip_epochs(
            recipe,
            clip,
            sound,
            scene::starts(clip.frames, recipe.epoch_frames as int, clip.frames.len() as int),
            0,
        ) is Ok,
        laws::clip_decodable(recipe, clip),
    ensures
        ({
            let starts = scene::starts(
                clip.frames,
                recipe.epoch_frames as int,
                clip.frames.len() as int,
            );
            let epochs = encode::clip_epochs(recipe, clip, sound, starts, 0)->Ok_0;
            let lists = laws::clip_lists(recipe, clip, sound, starts);
            let list = laws::joined(lists, 0);
            let shown = laws::shown_from(
                clip.frames,
                starts,
                crate::mux::preset_options(recipe.video_q, recipe.preset),
                0,
            );
            &&& laws::in_order(starts, clip.frames.len() as int)
            &&& laws::epochs_hold(epochs, lists)
            &&& forall|k: int, i: int|
                0 <= k < lists.len() && 0 <= i < lists[k].len() ==> (#[trigger] lists[k][i]).flags
                    == 0 && lists[k][i].payload.len() <= u32::MAX
            &&& list.len() > 0 ==> list[0].kind == PacketKind::EpochStart
            &&& decode::shown_frames(Backend::Production, list, Seq::empty()) == Ok::<
                Seq<Picture>,
                MediaError,
            >(shown)
            &&& recipe.video_q == 1 ==> shown == clip.frames
            &&& starts_named(list)
            &&& decode::heard(Backend::Production, list, 0, 0) matches Ok((rate, channels, samples))
                && samples == clip_heard(clip, sound, starts) && (rate != 0 ==> (sound matches Some(
                sound,
            ) && rate == sound.options.sample_rate && channels == sound.options.channels))
        }),
{
    let total = clip.frames.len() as int;
    let starts = scene::starts(clip.frames, recipe.epoch_frames as int, total);
    let epochs = encode::clip_epochs(recipe, clip, sound, starts, 0)->Ok_0;
    let lists = laws::clip_lists(recipe, clip, sound, starts);
    let list = laws::joined(lists, 0);
    scene::law_starts(clip.frames, recipe.epoch_frames as int, total);
    laws::lemma_epochs(recipe, clip, sound, starts, 0);
    lemma_joined_plain(recipe, clip, sound, starts, 0);
    assert forall|k: int| 0 <= k < epochs.len() implies (#[trigger] epochs[k]).bytes
        == epoch::framed(lists[k]) by {
        assert(epochs[k].bytes == epoch::framed(lists[0 + k]));
    }
    assert forall|k: int, i: int|
        0 <= k < lists.len() && 0 <= i < lists[k].len() implies (#[trigger] lists[k][i]).flags == 0
        && lists[k][i].payload.len() <= u32::MAX by {
        assert(laws::frameable(lists[k]));
    }
    assert(clip.frames.skip(0) =~= clip.frames);
    match sound {
        None => {
            lemma_silence(list, 0, 0);
        },
        Some(sound) => {
            sound_laws::lemma_epochs(recipe, clip, sound, starts, 0, 0, 0);
        },
    }
}

/// Packets that belong to the streams of a clip, and are heard in the format of its sound, can be
/// played.
proof fn lemma_clip_playable(
    clip: ClipModel,
    sound: Option<Sound>,
    packets: Seq<(syntax::PacketModel, Option<StreamDesc>)>,
)
    requires
        fragments::all_routed(packets, encode::clip_streams(clip, sound)),
        starts_named(fragments::bare(packets)),
        decode::heard(Backend::Production, fragments::bare(packets), 0, 0) matches Ok((rate, channels, samples))
            && (rate != 0 ==> (sound matches Some(sound) && rate == sound.options.sample_rate
            && channels == sound.options.channels)),
    ensures
        forall|k: int|
            0 <= k < packets.len() ==> playable(
                (#[trigger] packets[k]).0,
                packets[k].1,
                encode::clip_streams(clip, sound),
                1,
            ),
{
    let streams = encode::clip_streams(clip, sound);
    let list = fragments::bare(packets);
    reveal_with_fuel(syntax::find_stream, 3);
    assert forall|k: int| 0 <= k < packets.len() implies playable(
        (#[trigger] packets[k]).0,
        packets[k].1,
        streams,
        1,
    ) by {
        let (p, stream) = packets[k];
        assert(list[k] == p);
        assert(syntax::routed(streams, p) == Ok::<Option<StreamDesc>, ContainerError>(stream));
        if p.kind == PacketKind::AudioFrame {
            lemma_formats(list, 0, 0, k);
        }
    }
}

/// A clip that was written with the production codecs can be streamed: a parser takes the file
/// without error and leaves nothing, and a session with the usual limits shows each frame as its
/// encoder reconstructed it and plays the samples in the same way. Without loss that is the frames
/// themselves.
pub proof fn law_clip_streamed(
    recipe: Recipe,
    clip: ClipModel,
    sound: Option<Sound>,
    limits: Limits,
    max_buffer: int,
)
    requires
        recipe.backend == Backend::Production,
        0 < clip.frames.len() <= usize::MAX,
        all_sized(clip.frames, clip),
        sound matches Some(sound) ==> sound.options.channels > 0,
        crate::container::v1::meta_ok(clip.meta0 as int),
        encode::clip_file(recipe, clip, sound) is Ok,
        laws::clip_decodable(recipe, clip),
        usual(limits),
        syntax::file_base(
            2,
            scene::starts(
                clip.frames,
                recipe.epoch_frames as int,
                clip.frames.len() as int,
            ).len() as int,
        ) <= media::least(u32::MAX as int, max_buffer),
    ensures
        ({
            let file = encode::clip_file(recipe, clip, sound)->Ok_0;
            let starts = scene::starts(
                clip.frames,
                recipe.epoch_frames as int,
                clip.frames.len() as int,
            );
            let shown = laws::shown_from(
                clip.frames,
                starts,
                crate::mux::preset_options(recipe.video_q, recipe.preset),
                0,
            );
            let d = parser::fresh_flow(134_217_728, max_buffer).fed(file);
            &&& d.error is None
            &&& d.flow.pending == Seq::<u8>::empty()
            &&& session_laws::played(fresh(limits), d.packets) matches Ok(outputs) && screened(
                outputs,
            ) == shown && sounded(outputs) == clip_heard(clip, sound, starts)
            &&& recipe.video_q == 1 ==> shown == clip.frames
        }),
{
    let total = clip.frames.len() as int;
    let starts = scene::starts(clip.frames, recipe.epoch_frames as int, total);
    let streams = encode::clip_streams(clip, sound);
    let epochs = encode::clip_epochs(recipe, clip, sound, starts, 0)->Ok_0;
    let lists = laws::clip_lists(recipe, clip, sound, starts);
    lemma_clip_packets(recipe, clip, sound);
    laws::lemma_streams_ok(clip, sound);
    laws::law_file_packets(streams, epochs, lists);
    lemma_clip_shown(recipe, clip, starts);
    lemma_list_streamed(clip, sound, limits, epochs, laws::joined(lists, 0), max_buffer);
}

/// Something is shown of a clip, and it has the clip's dimensions.
proof fn lemma_clip_shown(recipe: Recipe, clip: ClipModel, starts: Seq<int>)
    requires
        0 < clip.frames.len(),
        all_sized(clip.frames, clip),
        laws::in_order(starts, clip.frames.len() as int),
    ensures
        ({
            let shown = laws::shown_from(
                clip.frames,
                starts,
                crate::mux::preset_options(recipe.video_q, recipe.preset),
                0,
            );
            &&& shown.len() > 0
            &&& all_sized(shown, clip)
        }),
{
    let opt = crate::mux::preset_options(recipe.video_q, recipe.preset);
    let (w, h) = (clip.width as int, clip.height as int);
    lemma_shown_from_dimensions(clip.frames, starts, opt, 0, w, h);
    let end = encode::epoch_end(starts, 0, clip.frames.len() as int);
    assert(0 < end) by {
        if starts.len() > 1 {
            assert(starts[0] < starts[1]);
        }
    }
    assert(laws::rebuilt(clip.frames, 0, end, Seq::empty(), opt).len() > 0) by {
        reveal_with_fuel(laws::rebuilt, 2);
    }
}

/// A file of packets that can be decoded one after the other can be streamed.
proof fn lemma_list_streamed(
    clip: ClipModel,
    sound: Option<Sound>,
    limits: Limits,
    epochs: Seq<syntax::EpochRange>,
    list: Seq<syntax::PacketModel>,
    max_buffer: int,
)
    requires
        ({
            let streams = encode::clip_streams(clip, sound);
            &&& syntax::build_error(streams, epochs) is None
            &&& syntax::file_len(streams, epochs) <= usize::MAX
            &&& syntax::file_base(streams.len() as int, epochs.len() as int) <= u32::MAX
            &&& forall|i: int| 0 <= i < streams.len() ==> syntax::stream_ok(#[trigger] streams[i])
            &&& max_buffer >= syntax::file_base(streams.len() as int, epochs.len() as int)
            &&& decode::scanned(
                syntax::file_bytes(streams, epochs),
                syntax::file_base(streams.len() as int, epochs.len() as int),
            ) == (list, None::<MediaError>)
        }),
        usual(limits),
        list.len() > 0 ==> list[0].kind == PacketKind::EpochStart,
        starts_named(list),
        decode::shown_frames(Backend::Production, list, Seq::empty()) matches Ok(shown)
            && shown.len() > 0 && all_sized(shown, clip),
        decode::heard(Backend::Production, list, 0, 0) matches Ok((rate, channels, samples)) && (
        rate != 0 ==> (sound matches Some(sound) && rate == sound.options.sample_rate && channels
            == sound.options.channels)),
    ensures
        ({
            let d = parser::fresh_flow(134_217_728, max_buffer).fed(
                syntax::file_bytes(encode::clip_streams(clip, sound), epochs),
            );
            &&& d.error is None
            &&& d.flow.pending == Seq::<u8>::empty()
            &&& session_laws::played(fresh(limits), d.packets) matches Ok(outputs) && screened(
                outputs,
            ) == decode::shown_frames(Backend::Production, list, Seq::empty())->Ok_0 && sounded(
                outputs,
            ) == (decode::heard(Backend::Production, list, 0, 0)->Ok_0).2
        }),
{
    let streams = encode::clip_streams(clip, sound);
    lemma_file_played(streams, epochs, list, max_buffer);
    let d = parser::fresh_flow(134_217_728, max_buffer).fed(syntax::file_bytes(streams, epochs));
    lemma_clip_playable(clip, sound, d.packets);
    lemma_clip_ready(clip, sound, limits, list);
    if d.packets.len() > 0 {
        assert(list[0] == d.packets[0].0);
    }
    law_packets_played(fresh(limits), streams, 1, Seq::empty(), d.packets, 0, 0);
}

/// A parser that is fed a file takes its packets.
proof fn lemma_file_played(
    streams: Seq<StreamDesc>,
    epochs: Seq<syntax::EpochRange>,
    list: Seq<syntax::PacketModel>,
    max_buffer: int,
)
    requires
        syntax::build_error(streams, epochs) is None,
        syntax::file_len(streams, epochs) <= usize::MAX,
        syntax::file_base(streams.len() as int, epochs.len() as int) <= u32::MAX,
        forall|i: int| 0 <= i < streams.len() ==> syntax::stream_ok(#[trigger] streams[i]),
        max_buffer >= syntax::file_base(streams.len() as int, epochs.len() as int),
        decode::scanned(
            syntax::file_bytes(streams, epochs),
            syntax::file_base(streams.len() as int, epochs.len() as int),
        ) == (list, None::<MediaError>),
    ensures
        ({
            let d = parser::fresh_flow(134_217_728, max_buffer).fed(
                syntax::file_bytes(streams, epochs),
            );
            &&& d.error is None
            &&& d.flow.pending == Seq::<u8>::empty()
            &&& fragments::bare(d.packets) == list
            &&& fragments::all_routed(d.packets, streams)
        }),
{
    let b = syntax::file_bytes(streams, epochs);
    let base = syntax::file_base(streams.len() as int, epochs.len() as int);
    flow::law_file_flows(streams, epochs, 134_217_728, max_buffer);
    flow::lemma_file_opened(streams, epochs, 134_217_728, max_buffer);
    let open = parser::fresh_flow(134_217_728, max_buffer).with_pending(b).opened().0;
    lemma_flow_scans(open, b, base);
}

/// A fresh session is ready for the packets of a clip.
proof fn lemma_clip_ready(
    clip: ClipModel,
    sound: Option<Sound>,
    limits: Limits,
    list: Seq<syntax::PacketModel>,
)
    requires
        usual(limits),
        decode::shown_frames(Backend::Production, list, Seq::empty()) matches Ok(shown)
            && shown.len() > 0 && shown[0].width == clip.width && shown[0].height == clip.height,
    ensures
        ready(fresh(limits), encode::clip_streams(clip, sound), 1, Seq::empty()),
        syntax::find_stream(encode::clip_streams(clip, sound), 1, 0) == Some(
            encode::clip_streams(clip, sound)[0],
        ),
{
    lemma_shown_dimensions(list, Seq::empty(), 0);
    let (w, h) = (clip.width as int, clip.height as int);
    assert(w * h <= 8192 * 8192) by (nonlinear_arith)
        requires
            0 < w <= 8192,
            0 < h <= 8192,
    ;
}

} // verus!
