//! What is read from files.
use crate::bytes;
use crate::container::v1::syntax;
use crate::container::v1::{PacketKind, StreamDesc, StreamKind};
use crate::handles;
use crate::media::decode;
use crate::media::examine;
use crate::media::mutation;
use crate::media::reindex;
use crate::media::{Backend, MediaError};
use crate::video::v1::syntax::Picture;
use crate::video::v1::EncoderPreset;
use vstd::prelude::*;

verus! {

// ---------------------------------------------------------------------------------------------
// Clips

/// The stream that is read is the first of its kind.
pub proof fn law_first_stream(streams: Seq<StreamDesc>, kind: StreamKind, k: int, i: int)
    requires
        0 <= i <= k <= streams.len(),
        forall|j: int| i <= j < k ==> (#[trigger] streams[j]).kind != kind,
        k < streams.len() ==> streams[k].kind == kind,
    ensures
        decode::stream_of(streams, kind, i) == if k < streams.len() {
            Some(streams[k])
        } else {
            None::<StreamDesc>
        },
    decreases k - i,
{
    if i < k {
        assert(streams[i].kind != kind);
        law_first_stream(streams, kind, k, i + 1);
    }
}

/// A clip has the dimensions, the metadata and the rate of its stream; a half of the rate that is zero
/// counts as one.
pub proof fn law_clip_of(stream: StreamDesc, frames: Seq<Picture>)
    ensures
        ({
            let clip = decode::clip_of(stream, frames);
            let (n, d) = (stream.flags / 65536, stream.flags % 65536);
            &&& clip.width == stream.param0 && clip.height == stream.param1
            &&& clip.meta0 == stream.meta0
            &&& clip.frames == frames
            &&& n > 0 ==> clip.fps_n == n
            &&& n == 0 ==> clip.fps_n == 1
            &&& d > 0 ==> clip.fps_d == d
            &&& d == 0 ==> clip.fps_d == 1
        }),
{
}

/// How many of the packets are of a kind.
pub open spec fn number_of(packets: Seq<syntax::PacketModel>, kind: PacketKind) -> nat
    decreases packets.len(),
{
    if packets.len() == 0 {
        0
    } else {
        number_of(packets.drop_last(), kind) + (if packets.last().kind == kind {
            1nat
        } else {
            0
        })
    }
}

proof fn lemma_number_first(packets: Seq<syntax::PacketModel>, kind: PacketKind)
    requires
        packets.len() > 0,
    ensures
        number_of(packets, kind) == number_of(packets.drop_first(), kind) + (if packets[0].kind == kind {
            1nat
        } else {
            0
        }),
    decreases packets.len(),
{
    let rest = packets.drop_first();
    reveal_with_fuel(number_of, 2);
    if packets.len() > 1 {
        lemma_number_first(packets.drop_last(), kind);
        assert(packets.drop_last().drop_first() =~= rest.drop_last());
        assert(packets.drop_last()[0] == packets[0]);
        assert(rest.last() == packets.last());
    } else {
        assert(packets.drop_last().len() == 0);
        assert(rest.len() == 0);
        assert(packets.last() == packets[0]);
    }
}

/// There is a picture for each video packet.
pub proof fn law_picture_count(
    backend: Backend,
    packets: Seq<syntax::PacketModel>,
    references: Seq<(u64, Picture)>,
)
    ensures
        decode::shown_frames(backend, packets, references) matches Ok(list) ==> list.len()
            == number_of(packets, PacketKind::VideoFrame),
    decreases packets.len(),
{
    if packets.len() > 0 {
        lemma_number_first(packets, PacketKind::VideoFrame);
        let p = packets[0];
        let rest = packets.drop_first();
        if p.kind == PacketKind::EpochStart {
            law_picture_count(backend, rest, Seq::empty());
        } else if p.kind == PacketKind::VideoFrame {
            if let Ok((id, picture)) = decode::shown_frame(backend, p.payload, references) {
                law_picture_count(
                    backend,
                    rest,
                    crate::video::v1::history::extended(references, id, picture),
                );
            }
        } else {
            law_picture_count(backend, rest, references);
        }
    }
}

/// From the start of an epoch on, what is shown does not depend on what came before: the pictures are
/// those before it and then those of the epoch alone.
pub proof fn law_epoch_alone(
    backend: Backend,
    first: Seq<syntax::PacketModel>,
    start: syntax::PacketModel,
    second: Seq<syntax::PacketModel>,
    references: Seq<(u64, Picture)>,
)
    requires
        start.kind == PacketKind::EpochStart,
    ensures
        decode::shown_frames(backend, first + seq![start] + second, references) == match (
            decode::shown_frames(backend, first, references),
            decode::shown_frames(backend, second, Seq::empty()),
        ) {
            (Err(e), _) => Err::<Seq<Picture>, MediaError>(e),
            (_, Err(e)) => Err(e),
            (Ok(a), Ok(b)) => Ok(a + b),
        },
    decreases first.len(),
{
    let all = first + seq![start] + second;
    if first.len() == 0 {
        assert(all[0] == start);
        assert(all.drop_first() =~= second);
        if let Ok(b) = decode::shown_frames(backend, second, Seq::empty()) {
            assert(Seq::<Picture>::empty() + b =~= b);
        }
    } else {
        let p = first[0];
        let rest = first.drop_first();
        assert(all[0] == p);
        assert(all.drop_first() =~= rest + seq![start] + second);
        if p.kind == PacketKind::EpochStart {
            law_epoch_alone(backend, rest, start, second, Seq::empty());
        } else if p.kind == PacketKind::VideoFrame {
            if let Ok((id, picture)) = decode::shown_frame(backend, p.payload, references) {
                let next = crate::video::v1::history::extended(references, id, picture);
                law_epoch_alone(backend, rest, start, second, next);
                if let (Ok(a), Ok(b)) = (
                    decode::shown_frames(backend, rest, next),
                    decode::shown_frames(backend, second, Seq::empty()),
                ) {
                    assert(seq![picture] + (a + b) =~= (seq![picture] + a) + b);
                }
            }
        } else {
            law_epoch_alone(backend, rest, start, second, references);
        }
    }
}

/// What is heard of two runs of packets is what is heard of the first, then of the second; both have the
/// same rate and channels. Packets that are not audio are not heard.
pub proof fn law_heard_in_turn(
    backend: Backend,
    first: Seq<syntax::PacketModel>,
    second: Seq<syntax::PacketModel>,
    rate: u32,
    channels: u8,
)
    ensures
        decode::heard(backend, first + second, rate, channels) == match decode::heard(
            backend,
            first,
            rate,
            channels,
        ) {
            Err(e) => Err::<(u32, u8, Seq<i16>), MediaError>(e),
            Ok((r, c, a)) => match decode::heard(backend, second, r, c) {
                Err(e) => Err(e),
                Ok((last_rate, last_channels, b)) => Ok((last_rate, last_channels, a + b)),
            },
        },
    decreases first.len(),
{
    let all = first + second;
    if first.len() == 0 {
        assert(all =~= second);
        if let Ok((r, c, b)) = decode::heard(backend, second, rate, channels) {
            assert(Seq::<i16>::empty() + b =~= b);
        }
    } else {
        let p = first[0];
        let rest = first.drop_first();
        assert(all[0] == p);
        assert(all.drop_first() =~= rest + second);
        if p.kind == PacketKind::AudioFrame {
            if let Ok((r, c, samples)) = decode::heard_packet(backend, p.payload) {
                law_heard_in_turn(backend, rest, second, r, c);
                if let Ok((r1, c1, a)) = decode::heard(backend, rest, r, c) {
                    if let Ok((r2, c2, b)) = decode::heard(backend, second, r1, c1) {
                        assert(samples + (a + b) =~= (samples + a) + b);
                    }
                }
            }
        } else {
            law_heard_in_turn(backend, rest, second, rate, channels);
        }
    }
}

/// One packet is heard with its own rate and channels, which may not differ from those before.
pub proof fn law_heard_packet(
    backend: Backend,
    p: syntax::PacketModel,
    rate: u32,
    channels: u8,
)
    ensures
        decode::heard(backend, seq![p], rate, channels) == if p.kind != PacketKind::AudioFrame {
            Ok::<(u32, u8, Seq<i16>), MediaError>((rate, channels, Seq::empty()))
        } else {
            match decode::heard_packet(backend, p.payload) {
                Err(e) => Err(e),
                Ok((r, c, samples)) => if rate != 0 && (r != rate || c != channels) {
                    Err(MediaError::AudioFormat)
                } else {
                    Ok((r, c, samples))
                },
            }
        },
{
    let list = seq![p];
    assert(list.drop_first().len() == 0);
    if let Ok((r, c, samples)) = decode::heard_packet(backend, p.payload) {
        assert(samples + Seq::<i16>::empty() =~= samples);
    }
    reveal_with_fuel(decode::heard, 2);
}

// ---------------------------------------------------------------------------------------------
// Repair

/// Repair looks for the next four bytes that start a packet, and passes over all that do not.
pub proof fn law_resync(b: Seq<u8>, p: int, q: int)
    requires
        0 <= p <= q,
        q + 4 > b.len() || b[q] == 65 && b[q + 1] == 86 && b[q + 2] == 80 && b[q + 3] == 75,
        forall|i: int|
            p <= i < q ==> i + 4 <= b.len() && !(#[trigger] b[i] == 65 && b[i + 1] == 86 && b[i + 2] == 80
                && b[i + 3] == 75),
    ensures
        reindex::resync(b, p) == q,
    decreases q - p,
{
    let magic = syntax::packet_magic();
    if p < q {
        assert(!(b[p] == 65 && b[p + 1] == 86 && b[p + 2] == 80 && b[p + 3] == 75));
        let s = b.subrange(p, p + 4);
        assert(s[0] == b[p] && s[1] == b[p + 1] && s[2] == b[p + 2] && s[3] == b[p + 3]);
        law_resync(b, p + 1, q);
    } else if q + 4 <= b.len() {
        assert(b.subrange(q, q + 4) =~= magic);
    }
}

/// The start of an epoch closes the one before and opens one with the number that its first four bytes
/// spell, its time and its duration. Any other packet joins the epoch that is open; where none is, it
/// opens one with the next number and no duration. The bytes of packets are kept in order.
pub proof fn law_gathered(g: reindex::Gathering, p: syntax::PacketModel, data: Seq<u8>)
    ensures
        ({
            let next = g.with(p, data);
            &&& next.current is Some
            &&& next.skipped == g.skipped
            &&& p.kind == PacketKind::EpochStart ==> {
                &&& next.groups == match g.current {
                    Some(range) => g.groups.push(range),
                    None => g.groups,
                }
                &&& next.current->0.bytes == data
                &&& next.current->0.pts == p.pts
                &&& next.current->0.duration == p.duration
                &&& p.payload.len() >= 4 ==> next.current->0.id == p.payload[0] + 256 * p.payload[1]
                    + 65536 * p.payload[2] + 16777216 * p.payload[3]
            }
            &&& p.kind != PacketKind::EpochStart ==> {
                &&& next.groups == g.groups
                &&& g.current matches Some(range) ==> next.current->0 == (syntax::EpochRange {
                    bytes: range.bytes + data,
                    ..range
                })
                &&& g.current is None && g.groups.len() <= u32::MAX ==> next.current->0 == (
                syntax::EpochRange { id: g.groups.len() as u32, pts: p.pts, duration: 0, bytes: data })
            }
        }),
{
    assert(Seq::<u8>::empty() + data =~= data);
    if p.payload.len() >= 4 {
        let head = p.payload.take(4);
        bytes::lemma_le_value_4(head);
        assert(head[0] == p.payload[0] && head[1] == p.payload[1] && head[2] == p.payload[2] && head[3]
            == p.payload[3]);
    }
}

// ---------------------------------------------------------------------------------------------
// Packets

/// What is listed of a video packet stands at fixed places of it: the id in the eight bytes behind the
/// first four, the quantizer step in the two at 16, the number of references at 18.
pub proof fn law_frame_info(p: syntax::PacketModel)
    ensures
        examine::info_of(p) is Some <==> p.kind == PacketKind::VideoFrame && p.payload.len() >= 20
            && p.payload[0] == 65 && p.payload[1] == 76 && p.payload[2] == 86 && p.payload[3] == 49,
        examine::info_of(p) matches Some(info) ==> {
            &&& info.pts == p.pts
            &&& info.qstep == p.payload[16] + 256 * p.payload[17]
            &&& info.references == p.payload[18]
            &&& p.payload.len() <= usize::MAX ==> info.size == p.payload.len()
            &&& info.id == p.payload[4] + 256 * p.payload[5] + 65536 * p.payload[6] + 16777216
                * p.payload[7] + 4294967296 * (p.payload[8] + 256 * p.payload[9] + 65536 * p.payload[10]
                + 16777216 * p.payload[11])
        },
{
    let b = p.payload;
    let magic = crate::video::v1::syntax::magic();
    if b.len() >= 20 {
        let head = b.take(4);
        assert(head[0] == b[0] && head[1] == b[1] && head[2] == b[2] && head[3] == b[3]);
        if b[0] == 65 && b[1] == 76 && b[2] == 86 && b[3] == 49 {
            assert(head =~= magic);
        }
        crate::container::v1::layout_laws::law_numbers(b, 4);
        crate::container::v1::layout_laws::law_numbers(b, 16);
    }
}

/// There is a case for each video and each audio packet, and with the pictures that stand beside it each
/// video case can be decoded.
pub proof fn law_cases(packets: Seq<syntax::PacketModel>, references: Seq<(u64, Picture)>)
    ensures
        examine::cases(packets, references) matches Ok(list) ==> {
            &&& list.len() == number_of(packets, PacketKind::VideoFrame) + number_of(
                packets,
                PacketKind::AudioFrame,
            )
            &&& forall|i: int|
                0 <= i < list.len() ==> (#[trigger] list[i] matches examine::CaseModel::Video(payload, refs)
                    ==> crate::reference::video_decoder::decoded_frame(payload, refs) is Ok)
        },
    decreases packets.len(),
{
    if packets.len() > 0 {
        lemma_number_first(packets, PacketKind::VideoFrame);
        lemma_number_first(packets, PacketKind::AudioFrame);
        let p = packets[0];
        let rest = packets.drop_first();
        match p.kind {
            PacketKind::EpochStart => {
                law_cases(rest, Seq::empty());
            },
            PacketKind::VideoFrame => {
                if let Ok((id, picture, ids)) = crate::reference::video_decoder::decoded_frame(
                    p.payload,
                    references,
                ) {
                    law_cases(rest, crate::video::v1::history::extended(references, id, picture));
                }
            },
            _ => {
                law_cases(rest, references);
            },
        }
    }
}

// ---------------------------------------------------------------------------------------------
// Damage

/// One bit is flipped, and only in the byte that was picked: the byte is off by the worth of that bit.
/// To flip it again undoes it.
pub proof fn law_flipped(data: Seq<u8>, place: usize, bit: u64, i: int)
    requires
        data.len() > 0,
        0 <= i < data.len(),
    ensures
        ({
            let all = mutation::flipped(data, place, bit);
            let p = place as int % data.len() as int;
            let worth = if bit % 8 == 0 {
                1int
            } else if bit % 8 == 1 {
                2
            } else if bit % 8 == 2 {
                4
            } else if bit % 8 == 3 {
                8
            } else if bit % 8 == 4 {
                16
            } else if bit % 8 == 5 {
                32
            } else if bit % 8 == 6 {
                64
            } else {
                128
            };
            &&& all.len() == data.len()
            &&& i != p ==> all[i] == data[i]
            &&& i == p ==> (if data[i] as int / worth % 2 == 1 {
                all[i] == data[i] - worth
            } else {
                all[i] == data[i] + worth
            })
            &&& mutation::flipped(all, place, bit) == data
        }),
{
    let p = place as int % data.len() as int;
    vstd::arithmetic::div_mod::lemma_mod_bound(place as int, data.len() as int);
    let v = data[p];
    let k = (bit & 7) as u8;
    assert(bit & 7 == bit % 8 && bit & 7 < 8) by (bit_vector);
    assert((v ^ (1u8 << k)) ^ (1u8 << k) == v) by (bit_vector);
    assert(k < 8 ==> (k == 0 || k == 1 || k == 2 || k == 3 || k == 4 || k == 5 || k == 6 || k == 7));
    assert(v ^ (1u8 << 0u8) == if v / 1 % 2 == 1 { v - 1 } else { v + 1 }) by (bit_vector);
    assert(v ^ (1u8 << 1u8) == if v / 2 % 2 == 1 { v - 2 } else { v + 2 }) by (bit_vector);
    assert(v ^ (1u8 << 2u8) == if v / 4 % 2 == 1 { v - 4 } else { v + 4 }) by (bit_vector);
    assert(v ^ (1u8 << 3u8) == if v / 8 % 2 == 1 { v - 8 } else { v + 8 }) by (bit_vector);
    assert(v ^ (1u8 << 4u8) == if v / 16 % 2 == 1 { v - 16 } else { v + 16 }) by (bit_vector);
    assert(v ^ (1u8 << 5u8) == if v / 32 % 2 == 1 { v - 32 } else { v + 32 }) by (bit_vector);
    assert(v ^ (1u8 << 6u8) == if v / 64 % 2 == 1 { v - 64 } else { v + 64 }) by (bit_vector);
    assert(v ^ (1u8 << 7u8) == if v / 128 % 2 == 1 { v - 128 } else { v + 128 }) by (bit_vector);
    let all = mutation::flipped(data, place, bit);
    assert(mutation::flipped(all, place, bit) =~= data);
}

/// The number after another comes from it in three steps: what differs from it is 128 times it, what
/// differs from that is a 512th of it, and what differs from that is 256 times it, each in 64 bits.
pub proof fn law_following(x: u64, a: u64, b: u64)
    requires
        (a ^ x) as int == (x * 128) % 0x1_0000_0000_0000_0000,
        (b ^ a) as int == a as int / 512,
    ensures
        (mutation::following(x) ^ b) as int == (b * 256) % 0x1_0000_0000_0000_0000,
{
    assert((x << 7u64) == (x * 128) % 0x1_0000_0000_0000_0000) by (bit_vector);
    assert((a >> 9u64) == a / 512) by (bit_vector);
    assert((b << 8u64) == (b * 256) % 0x1_0000_0000_0000_0000) by (bit_vector);
    let p = x << 7u64;
    assert(a == x ^ p) by (bit_vector)
        requires
            a ^ x == p,
    ;
    let q = a >> 9u64;
    assert(b == a ^ q) by (bit_vector)
        requires
            b ^ a == q,
    ;
    let r = b << 8u64;
    assert((b ^ r) ^ b == r) by (bit_vector);
}

// ---------------------------------------------------------------------------------------------
// Handles

/// Presets are numbered: 0 is fast, 1 balanced and 2 quality.
pub proof fn law_preset_numbers(v: u32)
    ensures
        match handles::preset_of(v) {
            Some(EncoderPreset::Fast) => v == 0,
            Some(EncoderPreset::Balanced) => v == 1,
            Some(EncoderPreset::Quality) => v == 2,
            None => v > 2,
        },
{
}

/// A value gets the least handle that is free; handles count from one.
pub proof fn law_least_handle<T>(slots: Seq<Option<T>>, k: int)
    requires
        0 <= k <= slots.len() < u32::MAX,
        forall|i: int| 0 <= i < k ==> #[trigger] slots[i] is Some,
        k < slots.len() ==> slots[k] is None,
    ensures
        handles::vacant(slots, 0) == k,
        handles::handle_of(k) == k + 1,
{
    lemma_vacant(slots, k, 0);
}

proof fn lemma_vacant<T>(slots: Seq<Option<T>>, k: int, i: int)
    requires
        0 <= i <= k <= slots.len(),
        forall|j: int| 0 <= j < k ==> #[trigger] slots[j] is Some,
        k < slots.len() ==> slots[k] is None,
    ensures
        handles::vacant(slots, i) == k,
    decreases k - i,
{
    if i < k {
        assert(slots[i] is Some);
        lemma_vacant(slots, k, i + 1);
    }
}

} // verus!
