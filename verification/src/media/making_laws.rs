//! How files are made and within which limits they are read.
use crate::audio;
use crate::bytes;
use crate::container::v1::syntax;
use crate::container::v1::{PacketKind, StreamDesc};
use crate::media;
use crate::media::decode;
use crate::media::encode;
use crate::media::time_laws;
use crate::media::{Backend, MediaError};
use crate::mux::epoch;
use crate::reference;
use crate::video;
use crate::video::v1::history;
use crate::video::v1::packets;
use crate::video::v1::syntax::Picture;
use crate::video::v1::EncoderPreset;
use vstd::prelude::*;

verus! {

// ---------------------------------------------------------------------------------------------
// Options

/// The options of both encoders go together: the same step, radius and references, and the preset that
/// the radius and the references stand for.
pub proof fn law_production_options(v: reference::video_encoder::EncodeOptions)
    ensures
        ({
            let o = media::production_options(v);
            &&& o.qstep == v.qstep && o.motion_radius == v.motion_radius && o.max_refs == v.max_refs
                && o.allow_palette == v.allow_palette
            &&& v.max_refs >= 4 || v.motion_radius >= 5 <==> o.preset == EncoderPreset::Quality
            &&& v.max_refs < 4 && v.motion_radius <= 2 <==> o.preset == EncoderPreset::Fast
            &&& v.max_refs < 4 && 3 <= v.motion_radius <= 4 <==> o.preset == EncoderPreset::Balanced
        }),
{
}

/// Samples are coded with coupled channels: those of a track at its own rate, and stereo at 48 kHz where
/// there are no pictures.
pub proof fn law_sample_options(track: encode::Soundtrack<'_>, q: u16)
    ensures
        ({
            let s = encode::sound_of(track, q);
            &&& s.samples == track.samples@
            &&& s.options.sample_rate == track.rate && s.options.channels == track.channels
                && s.options.qstep == q && s.options.mid_side
        }),
        ({
            let o = encode::stereo(q);
            o.sample_rate == 48000 && o.channels == 2 && o.qstep == q && o.mid_side
        }),
{
}

// ---------------------------------------------------------------------------------------------
// Frames

/// The last pictures of a list, the newest first.
pub open spec fn latest(
    list: Seq<(u64, Picture)>,
    refs: Seq<(u64, Picture)>,
    most: int,
) -> bool {
    &&& refs.len() <= list.len() && refs.len() <= most && refs.len() <= 4
    &&& refs.len() == list.len() || refs.len() == most || refs.len() == 4
    &&& forall|k: int| 0 <= k < refs.len() ==> #[trigger] refs[k] == list[list.len() - 1 - k]
}

/// A frame is coded from the pictures before it, the newest first, as many as options allow and four at
/// the most; the production encoder and the reference encoder alike.
pub proof fn law_coded_from(
    id: u64,
    picture: Picture,
    references: Seq<(u64, Picture)>,
    opt: reference::video_encoder::EncodeOptions,
    refs: Seq<(u64, Picture)>,
)
    requires
        latest(references, refs, opt.max_refs as int),
    ensures
        encode::coded_frame(Backend::Production, id, picture, references, opt) matches Ok((bytes, shown))
            ==> bytes == packets::packet_bytes(id, picture, refs, media::production_options(opt)) && shown
            == packets::reconstruction(picture, refs, media::production_options(opt)),
        encode::coded_frame(Backend::Reference, id, picture, references, opt) matches Ok((bytes, shown))
            ==> bytes == reference::video_encoder::packet_bytes(id, picture, refs, opt) && shown
            == reference::video_encoder::reconstruction(picture, refs, opt),
{
    reveal(encode::coded_frame);
    let options = media::production_options(opt);
    assert(packets::considered(references.reverse(), options) =~= refs);
    let list = encode::newest(references, opt.max_refs as int);
    assert(reference::video_encoder::considered(list, opt) =~= refs);
}

// ---------------------------------------------------------------------------------------------
// Epochs and files

/// An epoch starts with a packet of no stream that has its number in four bytes, its time and its
/// duration.
pub proof fn law_start_packet(id: u32, pts: u64, duration: u32)
    ensures
        ({
            let p = epoch::start_packet(id, pts, duration);
            &&& p.kind == PacketKind::EpochStart
            &&& p.stream_id == 0 && p.flags == 0
            &&& p.pts == pts && p.duration == duration
            &&& p.payload.len() == 4
            &&& p.payload[0] + 256 * p.payload[1] + 65536 * p.payload[2] + 16777216 * p.payload[3] == id
        }),
{
    let p = epoch::start_packet(id, pts, duration).payload;
    bytes::lemma_le_bytes_len(id as int, 4);
    bytes::lemma_le_bounds();
    bytes::lemma_le_write_read(id as int, 4);
    bytes::lemma_le_value_4(p);
}

/// Samples without pictures: an epoch lasts from the whole microsecond of its first sample frame to that
/// of the one behind its last.
pub proof fn law_sample_epoch(
    backend: Backend,
    samples: Seq<i16>,
    q: u16,
    start: int,
    end: int,
    id: u32,
    from: int,
    to: int,
)
    requires
        0 <= start <= end,
        1_000_000 * end <= u64::MAX,
        time_laws::whole(from, 1_000_000 * start, 48_000),
        time_laws::whole(to, 1_000_000 * end, 48_000),
        to - from <= u32::MAX,
        encode::sample_epoch(backend, samples, q, start, end, id as int) is Ok,
    ensures
        ({
            let e = encode::sample_epoch(backend, samples, q, start, end, id as int)->Ok_0;
            e.id == id && e.pts == from && e.duration == to - from
        }),
{
    reveal(encode::sample_epoch);
    assert(start * 1_000_000 / 48_000 == from);
    assert(end * 1_000_000 / 48_000 == to);
}

/// A file says that it has an index, how many streams it has and how long the index is: 16 bytes, 24
/// for each stream and 32 for each epoch. The packets start 32 bytes behind that.
pub proof fn law_file_head(streams: Seq<StreamDesc>, epochs: Seq<syntax::EpochRange>)
    requires
        streams.len() <= u16::MAX,
        16 + 24 * streams.len() + 32 * epochs.len() <= u32::MAX,
    ensures
        ({
            let h = syntax::file_header(streams, epochs);
            &&& h.flags == 1
            &&& h.stream_count == streams.len()
            &&& h.front_len == 16 + 24 * streams.len() + 32 * epochs.len()
            &&& syntax::file_base(streams.len() as int, epochs.len() as int) == 32 + h.front_len
        }),
{
    syntax::lemma_front_len(syntax::file_front(streams, epochs));
}

/// The entry of an epoch in the index has its number, time and duration, and says where its packets are:
/// behind those of all epochs before.
pub proof fn law_index_entry(streams: Seq<StreamDesc>, epochs: Seq<syntax::EpochRange>, k: int)
    requires
        0 <= k < epochs.len(),
        syntax::file_len(streams, epochs) <= u64::MAX,
    ensures
        ({
            let list = syntax::file_front(streams, epochs).epochs;
            let e = list[k];
            &&& list.len() == epochs.len()
            &&& e.id == epochs[k].id && e.pts == epochs[k].pts && e.duration == epochs[k].duration
            &&& e.len == epochs[k].bytes.len()
            &&& k == 0 ==> e.offset == 48 + 24 * streams.len() + 32 * epochs.len()
            &&& k > 0 ==> e.offset == list[k - 1].offset + list[k - 1].len
        }),
{
    let n = epochs.len() as int;
    syntax::lemma_payload_before(epochs, k, n);
    syntax::lemma_payload_before(epochs, k + 1, n);
    if k > 0 {
        syntax::lemma_payload_before(epochs, k - 1, n);
    }
}

// ---------------------------------------------------------------------------------------------
// Limits

/// Pictures are read up to 67 108 864 pixels and 8 388 608 bytes of tokens.
pub proof fn law_video_limits(payload: Seq<u8>, references: Seq<(u64, Picture)>)
    ensures
        decode::shown_frame(Backend::Production, payload, references) == match history::decoded_next(
            payload,
            references,
            video::v1::syntax::Bounds {
                max_pixels: 67_108_864,
                max_entropy: 8_388_608,
                expected: None,
            },
        ) {
            Err(e) => Err(MediaError::VideoDecode(e)),
            Ok((id, picture, ids)) => Ok::<(u64, Picture), MediaError>((id, picture)),
        },
{
    reveal(decode::shown_frame);
}

/// Samples are read up to 8 388 608 bytes of tokens, by the reference reader up to 4 194 304, which does
/// not look at reserved bytes and takes older tables.
pub proof fn law_audio_limits(payload: Seq<u8>)
    ensures
        decode::heard_packet(Backend::Production, payload) == match audio::v1::syntax::decoded_packet(
            payload,
            audio::v1::syntax::Bounds {
                max_entropy: 8_388_608,
                expected: None,
                strict: true,
                fixed: false,
            },
        ) {
            Err(e) => Err(MediaError::AudioDecode(e)),
            Ok(heard) => Ok::<(u32, u8, Seq<i16>), MediaError>(heard),
        },
        decode::heard_packet(Backend::Reference, payload) == match audio::v1::syntax::decoded_packet(
            payload,
            audio::v1::syntax::Bounds {
                max_entropy: 4_194_304,
                expected: None,
                strict: false,
                fixed: true,
            },
        ) {
            Err(e) => Err(MediaError::AudioDecode(e)),
            Ok(heard) => Ok::<(u32, u8, Seq<i16>), MediaError>(heard),
        },
{
    reveal(decode::heard_packet);
}

/// Packets are read one behind the other, with payloads of up to 134 217 728 bytes, until one is refused;
/// that one is told with its place.
pub proof fn law_packets_read(b: Seq<u8>, pos: int)
    requires
        0 <= pos < b.len() <= usize::MAX,
    ensures
        match syntax::decoded_packet(b.skip(pos), 134_217_728) {
            Err(e) => decode::scanned(b, pos) == (
                Seq::<syntax::PacketModel>::empty(),
                Some(MediaError::PacketAt(pos as usize, e)),
            ),
            Ok((p, n)) => n > 0 ==> decode::scanned(b, pos) == (
                seq![p] + decode::scanned(b, pos + n).0,
                decode::scanned(b, pos + n).1,
            ),
        },
        decode::scanned(b, b.len() as int) == (Seq::<syntax::PacketModel>::empty(), None::<MediaError>),
{
    reveal_with_fuel(decode::scanned, 2);
}

/// The reference decoder takes pictures of any even sides up to 67 108 864 pixels; its other faults are
/// those of the head of a packet.
pub proof fn law_reference_head(input: Seq<u8>, references: Seq<(u64, Picture)>)
    ensures
        ({
            let told = reference::video_decoder::decoded_frame(input, references);
            let (w, h) = (
                crate::container::v1::layout_laws::two(input, 12),
                crate::container::v1::layout_laws::two(input, 14),
            );
            let long = input.len() >= 20;
            let starts = long && input[0] == 65 && input[1] == 76 && input[2] == 86 && input[3] == 49;
            let steps = starts && crate::container::v1::layout_laws::two(input, 16) != 0;
            let shaped = steps && w > 0 && h > 0 && w % 2 == 0 && h % 2 == 0 && w * h <= 67_108_864;
            &&& !long ==> told == Err::<(u64, Picture, Seq<u64>), video::v1::VideoError>(
                video::v1::VideoError::UnexpectedEof,
            )
            &&& long && !starts ==> told == Err::<(u64, Picture, Seq<u64>), video::v1::VideoError>(
                video::v1::VideoError::BadHeader,
            )
            &&& starts && !steps ==> told == Err::<(u64, Picture, Seq<u64>), video::v1::VideoError>(
                video::v1::VideoError::BadQuantizer,
            )
            &&& steps && !shaped ==> told == Err::<(u64, Picture, Seq<u64>), video::v1::VideoError>(
                video::v1::VideoError::BadDimensions,
            )
            &&& shaped && (input[18] > 4 || input[19] != 1) ==> told == Err::<
                (u64, Picture, Seq<u64>),
                video::v1::VideoError,
            >(video::v1::VideoError::BadHeader)
        }),
{
    if input.len() >= 20 {
        crate::container::v1::layout_laws::law_numbers(input, 12);
        crate::container::v1::layout_laws::law_numbers(input, 14);
        crate::container::v1::layout_laws::law_numbers(input, 16);
        let head = input.take(4);
        assert(head[0] == input[0] && head[1] == input[1] && head[2] == input[2] && head[3] == input[3]);
        if input[0] == 65 && input[1] == 76 && input[2] == 86 && input[3] == 49 {
            assert(head =~= video::v1::syntax::magic());
        }
    }
}

} // verus!
