//! One epoch: its packets, in order.
use crate::audio;
use crate::bytes;
use crate::container::v1::syntax;
use crate::container::v1::{encode_packet_checked, ContainerError, Packet, PacketKind};
use crate::mux::{AudioTrack, MuxError};
use vstd::prelude::*;

verus! {

/// A coded video frame that waits for its epoch.
#[derive(Debug)]
pub struct EncodedFrame {
    pub frame_id: u64,
    pub pts: u64,
    pub duration: u32,
    pub payload: Vec<u8>,
}

impl EncodedFrame {
    pub open spec fn model(&self) -> syntax::PacketModel {
        video_packet(self.pts, self.duration, self.payload@)
    }
}

/// What waiting frames are.
pub open spec fn models(frames: Seq<EncodedFrame>) -> Seq<syntax::PacketModel> {
    Seq::new(frames.len(), |i: int| frames[i].model())
}

pub open spec fn video_packet(pts: u64, duration: u32, payload: Seq<u8>) -> syntax::PacketModel {
    syntax::PacketModel {
        kind: PacketKind::VideoFrame,
        flags: 0,
        stream_id: 1,
        pts,
        duration,
        payload,
    }
}

/// The packet that starts an epoch.
pub open spec fn start_packet(id: u32, pts: u64, duration: u32) -> syntax::PacketModel {
    syntax::PacketModel {
        kind: PacketKind::EpochStart,
        flags: 0,
        stream_id: 0,
        pts,
        duration,
        payload: bytes::le_bytes(id as int, 4),
    }
}

// ---------------------------------------------------------------------------------------------
// Audio packets

/// How many sample frames the next packet takes.
pub open spec fn packet_frames(from: int, end: int) -> int {
    if end - from < 960 {
        end - from
    } else {
        960
    }
}

/// The samples of frames `from` to `from + n`, where the samples start at frame `base`.
pub open spec fn slice(samples: Seq<i16>, base: int, from: int, n: int, channels: int) -> Seq<i16> {
    samples.subrange((from - base) * channels, (from - base + n) * channels)
}

/// The packet of `n` sample frames from `from` on.
pub open spec fn audio_packet(
    samples: Seq<i16>,
    base: int,
    from: int,
    n: int,
    track: AudioTrack,
) -> syntax::PacketModel {
    syntax::PacketModel {
        kind: PacketKind::AudioFrame,
        flags: 0,
        stream_id: 2,
        pts: (from * 1_000_000 / track.rate as int) as u64,
        duration: (n * 1_000_000 / track.rate as int) as u32,
        payload: audio::v1::codec::packet_bytes(
            slice(samples, base, from, n, track.channels as int),
            track.options(),
        ),
    }
}

/// The packets of the sample frames from `from` to `end`, or why one cannot be coded.
pub open spec fn audio_packets(
    samples: Seq<i16>,
    base: int,
    from: int,
    end: int,
    track: AudioTrack,
) -> Result<Seq<syntax::PacketModel>, MuxError>
    decreases end - from,
{
    if from >= end {
        Ok(Seq::empty())
    } else {
        let n = packet_frames(from, end);
        match audio::v1::codec::refused(
            slice(samples, base, from, n, track.channels as int),
            track.options(),
        ) {
            Some(e) => Err(MuxError::Audio(e)),
            None => match audio_packets(samples, base, from + n, end, track) {
                Err(e) => Err(e),
                Ok(rest) => Ok(seq![audio_packet(samples, base, from, n, track)] + rest),
            },
        }
    }
}

/// What owned packets are.
pub open spec fn contents(packets: Seq<Packet>) -> Seq<syntax::PacketModel> {
    Seq::new(packets.len(), |i: int| packets[i].model())
}

/// Codes the sample frames from `from` to `end`.
pub fn encode_audio_packets(
    samples: &[i16],
    base: u64,
    from: u64,
    end: u64,
    track: AudioTrack,
) -> (r: Result<Vec<Packet>, MuxError>)
    requires
        track.wf(),
        base <= from,
        from <= end,
        (end - base) * track.channels <= samples@.len(),
        end * 1_000_000 <= u64::MAX,
    ensures
        match r {
            Ok(packets) => {
                &&& audio_packets(samples@, base as int, from as int, end as int, track) == Ok::<
                    Seq<syntax::PacketModel>,
                    MuxError,
                >(contents(packets@))
                &&& forall|i: int| 0 <= i < packets@.len() ==> (#[trigger] packets@[i]).flags == 0
            },
            Err(e) => audio_packets(samples@, base as int, from as int, end as int, track) == Err::<
                Seq<syntax::PacketModel>,
                MuxError,
            >(e),
        },
{
    let ghost all = audio_packets(samples@, base as int, from as int, end as int, track);
    let mut packets: Vec<Packet> = Vec::new();
    let mut at: u64 = from;
    let c: usize = track.channels as usize;
    while at < end
        invariant
            track.wf(),
            c == track.channels,
            base <= from <= at,
            at <= end,
            (end - base) * c <= samples@.len(),
            end * 1_000_000 <= u64::MAX,
            all == audio_packets(samples@, base as int, from as int, end as int, track),
            forall|i: int| 0 <= i < packets@.len() ==> (#[trigger] packets@[i]).flags == 0,
            match audio_packets(samples@, base as int, at as int, end as int, track) {
                Ok(rest) => all == Ok::<Seq<syntax::PacketModel>, MuxError>(
                    contents(packets@) + rest,
                ),
                Err(e) => all == Err::<Seq<syntax::PacketModel>, MuxError>(e),
            },
        decreases end - at,
    {
        let n: u64 = if end - at < 960 {
            end - at
        } else {
            960
        };
        let first: u64 = at - base;
        proof {
            assert(0 <= first * c && (first + n) * c <= samples@.len() && first * c <= (first + n) * c)
                by (nonlinear_arith)
                requires
                    0 <= first,
                    0 <= n,
                    1 <= c,
                    first + n <= end - base,
                    (end - base) * c <= samples@.len(),
            ;
            assert(first <= first * c && first + n <= (first + n) * c) by (nonlinear_arith)
                requires
                    0 <= first,
                    0 <= n,
                    1 <= c,
            ;
            assert(samples.len() == samples@.len());
        }
        let low: usize = first as usize * c;
        let high: usize = (first + n) as usize * c;
        let payload: Vec<u8> = match audio::v1::encode(
            &samples[low..high],
            track.encode_options(),
        ) {
            Ok(payload) => payload,
            Err(e) => {
                return Err(MuxError::Audio(e));
            },
        };
        proof {
            lemma_duration(n as int, track.rate as int);
        }
        let ghost before = contents(packets@);
        packets.push(
            Packet {
                kind: PacketKind::AudioFrame,
                flags: 0,
                stream_id: 2,
                pts: at * 1_000_000 / track.rate as u64,
                duration: (n * 1_000_000 / track.rate as u64) as u32,
                payload,
            },
        );
        proof {
            let p = audio_packet(samples@, base as int, at as int, n as int, track);
            assert(contents(packets@) =~= before.push(p));
            if let Ok(rest) = audio_packets(samples@, base as int, at + n, end as int, track) {
                assert(before + (seq![p] + rest) =~= contents(packets@) + rest);
            }
        }
        at = at + n;
    }
    assert(contents(packets@) + Seq::<syntax::PacketModel>::empty() =~= contents(packets@));
    Ok(packets)
}

pub proof fn lemma_duration(n: int, rate: int)
    requires
        0 <= n <= 960,
        1 <= rate,
    ensures
        0 <= n * 1_000_000 / rate <= u32::MAX,
{
    let a = n * 1_000_000;
    vstd::arithmetic::div_mod::lemma_div_is_ordered_by_denominator(a, 1, rate);
    vstd::arithmetic::div_mod::lemma_div_pos_is_pos(a, rate);
}

// ---------------------------------------------------------------------------------------------
// Order

/// Video and audio packets by time; of two at one time the video packet comes first.
pub open spec fn interleaved(
    video: Seq<syntax::PacketModel>,
    audio: Seq<syntax::PacketModel>,
) -> Seq<syntax::PacketModel>
    decreases video.len() + audio.len(),
{
    if video.len() == 0 {
        audio
    } else if audio.len() == 0 {
        video
    } else if video.last().pts <= audio.last().pts {
        interleaved(video, audio.drop_last()).push(audio.last())
    } else {
        interleaved(video.drop_last(), audio).push(video.last())
    }
}

/// The packets one after the other.
pub open spec fn framed(packets: Seq<syntax::PacketModel>) -> Seq<u8>
    decreases packets.len(),
{
    if packets.len() == 0 {
        Seq::empty()
    } else {
        framed(packets.drop_last()) + syntax::packet_bytes(packets.last())
    }
}

/// Timestamps never fall.
pub open spec fn in_time(packets: Seq<syntax::PacketModel>) -> bool {
    forall|i: int, j: int|
        0 <= i <= j < packets.len() ==> (#[trigger] packets[i]).pts <= (#[trigger] packets[j]).pts
}

/// The key that packets of an epoch are ordered by: the start first, then by time, video before
/// audio before metadata.
pub open spec fn order_key(p: syntax::PacketModel) -> (int, int, int) {
    (
        if p.kind == PacketKind::EpochStart {
            0int
        } else {
            1
        },
        p.pts as int,
        match p.kind {
            PacketKind::VideoFrame => 0,
            PacketKind::AudioFrame => 1,
            PacketKind::Metadata => 2,
            PacketKind::EpochStart => 0,
        },
    )
}

pub open spec fn ordered(a: syntax::PacketModel, b: syntax::PacketModel) -> bool {
    let (x, y) = (order_key(a), order_key(b));
    x.0 < y.0 || (x.0 == y.0 && (x.1 < y.1 || (x.1 == y.1 && x.2 <= y.2)))
}

pub open spec fn all_kind(packets: Seq<syntax::PacketModel>, kind: PacketKind) -> bool {
    forall|i: int| 0 <= i < packets.len() ==> (#[trigger] packets[i]).kind == kind
}

/// Every packet of the list is one of the two lists.
pub proof fn lemma_interleaved_from(video: Seq<syntax::PacketModel>, audio: Seq<syntax::PacketModel>, i: int)
    requires
        0 <= i < interleaved(video, audio).len(),
    ensures
        video.contains(interleaved(video, audio)[i]) || audio.contains(interleaved(video, audio)[i]),
    decreases video.len() + audio.len(),
{
    let all = interleaved(video, audio);
    if video.len() == 0 || audio.len() == 0 {
    } else if video.last().pts <= audio.last().pts {
        let rest = interleaved(video, audio.drop_last());
        if i < rest.len() {
            lemma_interleaved_from(video, audio.drop_last(), i);
            if audio.drop_last().contains(all[i]) {
                let j = choose|j: int| 0 <= j < audio.drop_last().len() && audio.drop_last()[j] == all[i];
                assert(audio[j] == all[i]);
            }
        } else {
            assert(audio[audio.len() - 1] == all[i]);
        }
    } else {
        let rest = interleaved(video.drop_last(), audio);
        if i < rest.len() {
            lemma_interleaved_from(video.drop_last(), audio, i);
            if video.drop_last().contains(all[i]) {
                let j = choose|j: int| 0 <= j < video.drop_last().len() && video.drop_last()[j] == all[i];
                assert(video[j] == all[i]);
            }
        } else {
            assert(video[video.len() - 1] == all[i]);
        }
    }
}

/// Interleaving keeps every packet and sorts: the packets come in the order of their keys.
pub proof fn law_interleaved_sorted(
    video: Seq<syntax::PacketModel>,
    audio: Seq<syntax::PacketModel>,
)
    requires
        in_time(video),
        in_time(audio),
        all_kind(video, PacketKind::VideoFrame),
        all_kind(audio, PacketKind::AudioFrame),
    ensures
        interleaved(video, audio).len() == video.len() + audio.len(),
        interleaved(video, audio).to_multiset() == video.to_multiset().add(audio.to_multiset()),
        forall|i: int, j: int|
            0 <= i <= j < interleaved(video, audio).len() ==> ordered(
                #[trigger] interleaved(video, audio)[i],
                #[trigger] interleaved(video, audio)[j],
            ),
    decreases video.len() + audio.len(),
{
    broadcast use vstd::seq_lib::group_to_multiset_ensures;

    let all = interleaved(video, audio);
    if video.len() == 0 {
        assert(video.to_multiset() =~= vstd::multiset::Multiset::empty());
        assert(all.to_multiset() =~= video.to_multiset().add(audio.to_multiset()));
    } else if audio.len() == 0 {
        assert(audio.to_multiset() =~= vstd::multiset::Multiset::empty());
        assert(all.to_multiset() =~= video.to_multiset().add(audio.to_multiset()));
    } else {
        let late = video.last().pts <= audio.last().pts;
        let (v, a) = if late {
            (video, audio.drop_last())
        } else {
            (video.drop_last(), audio)
        };
        let last = if late {
            audio.last()
        } else {
            video.last()
        };
        law_interleaved_sorted(v, a);
        let rest = interleaved(v, a);
        assert(all == rest.push(last));
        assert(video.drop_last().push(video.last()) =~= video);
        assert(audio.drop_last().push(audio.last()) =~= audio);
        assert(all.to_multiset() =~= video.to_multiset().add(audio.to_multiset()));
        assert forall|i: int, j: int| 0 <= i <= j < all.len() implies ordered(
            #[trigger] all[i],
            #[trigger] all[j],
        ) by {
            if j < rest.len() {
                assert(ordered(rest[i], rest[j]));
            } else if i < rest.len() {
                lemma_interleaved_from(v, a, i);
                if v.contains(rest[i]) {
                    let k = choose|k: int| 0 <= k < v.len() && v[k] == rest[i];
                    assert(video[k] == rest[i]);
                    assert(video[k].pts <= video[video.len() - 1].pts);
                } else {
                    let k = choose|k: int| 0 <= k < a.len() && a[k] == rest[i];
                    assert(audio[k] == rest[i]);
                    assert(audio[k].pts <= audio[audio.len() - 1].pts);
                }
            }
        }
    }
}

/// What two lists that are taken from the back leave, with what was taken.
pub(crate) fn interleave(video: Vec<Packet>, audio: Vec<Packet>) -> (r: Vec<Packet>)
    ensures
        contents(r@) == interleaved(contents(video@), contents(audio@)),
{
    let ghost goal = interleaved(contents(video@), contents(audio@));
    let mut video: Vec<Packet> = video;
    let mut audio: Vec<Packet> = audio;
    let mut back: Vec<Packet> = Vec::new();
    assert(contents(back@).reverse() =~= Seq::<syntax::PacketModel>::empty());
    assert(goal + Seq::<syntax::PacketModel>::empty() =~= goal);
    while video.len() > 0 && audio.len() > 0
        invariant
            goal == interleaved(contents(video@), contents(audio@)) + contents(back@).reverse(),
        decreases video@.len() + audio@.len(),
    {
        let ghost (v, a, b) = (contents(video@), contents(audio@), contents(back@));
        let next: Option<Packet> = if video[video.len() - 1].pts <= audio[audio.len() - 1].pts {
            assert(v.last().pts <= a.last().pts);
            audio.pop()
        } else {
            assert(v.last().pts > a.last().pts);
            video.pop()
        };
        match next {
            Some(packet) => {
                back.push(packet);
                proof {
                    assert(contents(back@) =~= b.push(packet.model()));
                    assert(contents(back@).reverse() =~= seq![packet.model()] + b.reverse());
                    assert(interleaved(v, a) + b.reverse() =~= interleaved(v, a).drop_last() + (
                    seq![packet.model()] + b.reverse())) by {
                        assert(interleaved(v, a).last() == packet.model());
                    }
                    if v.last().pts <= a.last().pts {
                        assert(contents(audio@) =~= a.drop_last());
                        assert(interleaved(v, a).drop_last() =~= interleaved(v, a.drop_last()));
                    } else {
                        assert(contents(video@) =~= v.drop_last());
                        assert(interleaved(v, a).drop_last() =~= interleaved(v.drop_last(), a));
                    }
                }
            },
            None => {},
        }
    }
    let mut front: Vec<Packet> = if video.len() == 0 {
        audio
    } else {
        video
    };
    assert(goal == contents(front@) + contents(back@).reverse());
    while back.len() > 0
        invariant
            goal == contents(front@) + contents(back@).reverse(),
        decreases back@.len(),
    {
        let ghost (f, b) = (contents(front@), contents(back@));
        match back.pop() {
            Some(packet) => {
                front.push(packet);
                proof {
                    assert(contents(front@) =~= f.push(packet.model()));
                    assert(contents(back@) =~= b.drop_last());
                    assert(b.reverse() =~= seq![packet.model()] + b.drop_last().reverse());
                    assert(f + b.reverse() =~= contents(front@) + contents(back@).reverse());
                }
            },
            None => {},
        }
    }
    assert(contents(front@) + contents(back@).reverse() =~= contents(front@));
    front
}

/// Every payload has a length of 32 bits.
pub open spec fn payloads_fit(packets: Seq<syntax::PacketModel>) -> bool {
    forall|i: int| 0 <= i < packets.len() ==> (#[trigger] packets[i]).payload.len() <= u32::MAX
}

/// The bytes of an epoch: its start, then its packets in order; or an error where a payload is too
/// long.
pub open spec fn epoch_bytes(
    id: u32,
    pts: u64,
    duration: u32,
    video: Seq<syntax::PacketModel>,
    audio: Seq<syntax::PacketModel>,
) -> Result<Seq<u8>, MuxError> {
    if payloads_fit(interleaved(video, audio)) {
        Ok(
            syntax::packet_bytes(start_packet(id, pts, duration)) + framed(
                interleaved(video, audio),
            ),
        )
    } else {
        Err(MuxError::Container(ContainerError::ResourceLimit))
    }
}

/// Writes the packets of an epoch.
pub fn write_epoch(id: u32, pts: u64, duration: u32, video: Vec<Packet>, audio: Vec<Packet>) -> (r:
    Result<Vec<u8>, MuxError>)
    requires
        forall|i: int| 0 <= i < video@.len() ==> (#[trigger] video@[i]).flags == 0,
        forall|i: int| 0 <= i < audio@.len() ==> (#[trigger] audio@[i]).flags == 0,
    ensures
        match r {
            Ok(bytes) => epoch_bytes(id, pts, duration, contents(video@), contents(audio@)) == Ok::<
                Seq<u8>,
                MuxError,
            >(bytes@),
            Err(e) => epoch_bytes(id, pts, duration, contents(video@), contents(audio@)) == Err::<
                Seq<u8>,
                MuxError,
            >(e),
        },
{
    let mut payload: Vec<u8> = Vec::new();
    bytes::put_u32_le(id, &mut payload);
    assert(payload@ =~= bytes::le_bytes(id as int, 4));
    proof {
        bytes::lemma_le_bytes_len(id as int, 4);
        lemma_interleaved_flags(contents(video@), contents(audio@));
    }
    let start: Packet = Packet {
        kind: PacketKind::EpochStart,
        flags: 0,
        stream_id: 0,
        pts,
        duration,
        payload,
    };
    let mut out: Vec<u8> = Vec::new();
    match encode_packet_checked(&start, &mut out) {
        Ok(()) => {},
        Err(e) => {
            return Err(MuxError::Container(e));
        },
    }
    let ghost head = out@;
    assert(head =~= syntax::packet_bytes(start_packet(id, pts, duration)));
    let packets: Vec<Packet> = interleave(video, audio);
    let ghost list = contents(packets@);
    let mut i: usize = 0;
    assert(list.take(0) =~= Seq::empty());
    assert(out@ =~= head + framed(list.take(0)));
    while i < packets.len()
        invariant
            list == contents(packets@),
            list == interleaved(contents(video@), contents(audio@)),
            i <= packets@.len(),
            forall|j: int| 0 <= j < list.len() ==> (#[trigger] list[j]).flags == 0,
            forall|j: int| 0 <= j < i ==> (#[trigger] list[j]).payload.len() <= u32::MAX,
            out@ == head + framed(list.take(i as int)),
        decreases packets@.len() - i,
    {
        assert(list[i as int] == packets@[i as int].model());
        match encode_packet_checked(&packets[i], &mut out) {
            Ok(()) => {},
            Err(e) => {
                assert(list[i as int].payload.len() > u32::MAX);
                return Err(MuxError::Container(e));
            },
        }
        proof {
            assert(list.take(i + 1).drop_last() =~= list.take(i as int));
            assert(out@ =~= head + framed(list.take(i + 1)));
        }
        i = i + 1;
    }
    assert(list.take(i as int) =~= list);
    Ok(out)
}

pub proof fn lemma_interleaved_flags(video: Seq<syntax::PacketModel>, audio: Seq<syntax::PacketModel>)
    requires
        forall|i: int| 0 <= i < video.len() ==> (#[trigger] video[i]).flags == 0,
        forall|i: int| 0 <= i < audio.len() ==> (#[trigger] audio[i]).flags == 0,
    ensures
        forall|i: int|
            0 <= i < interleaved(video, audio).len() ==> (#[trigger] interleaved(
                video,
                audio,
            )[i]).flags == 0,
{
    assert forall|i: int| 0 <= i < interleaved(video, audio).len() implies (#[trigger] interleaved(
        video,
        audio,
    )[i]).flags == 0 by {
        lemma_interleaved_from(video, audio, i);
        let p = interleaved(video, audio)[i];
        if video.contains(p) {
            let j = choose|j: int| 0 <= j < video.len() && video[j] == p;
            assert(video[j].flags == 0);
        } else {
            let j = choose|j: int| 0 <= j < audio.len() && audio[j] == p;
            assert(audio[j].flags == 0);
        }
    }
}

/// Turns waiting frames into packets.
pub fn video_packets(frames: Vec<EncodedFrame>) -> (r: Vec<Packet>)
    ensures
        contents(r@) == models(frames@),
        forall|i: int| 0 <= i < r@.len() ==> (#[trigger] r@[i]).flags == 0,
{
    let ghost all = models(frames@);
    let mut frames: Vec<EncodedFrame> = frames;
    let mut back: Vec<Packet> = Vec::new();
    assert(models(frames@) + contents(back@).reverse() =~= all);
    while frames.len() > 0
        invariant
            all == models(frames@) + contents(back@).reverse(),
            forall|i: int| 0 <= i < back@.len() ==> (#[trigger] back@[i]).flags == 0,
        decreases frames@.len(),
    {
        let ghost (f, b) = (models(frames@), contents(back@));
        match frames.pop() {
            Some(frame) => {
                let packet: Packet = Packet {
                    kind: PacketKind::VideoFrame,
                    flags: 0,
                    stream_id: 1,
                    pts: frame.pts,
                    duration: frame.duration,
                    payload: frame.payload,
                };
                back.push(packet);
                proof {
                    assert(models(frames@) =~= f.drop_last());
                    assert(contents(back@) =~= b.push(packet.model()));
                    assert(contents(back@).reverse() =~= seq![packet.model()] + b.reverse());
                    assert(f + b.reverse() =~= models(frames@) + contents(back@).reverse());
                }
            },
            None => {},
        }
    }
    let mut r: Vec<Packet> = Vec::new();
    assert(models(frames@) + contents(back@).reverse() =~= contents(r@) + contents(back@).reverse());
    while back.len() > 0
        invariant
            all == contents(r@) + contents(back@).reverse(),
            forall|i: int| 0 <= i < back@.len() ==> (#[trigger] back@[i]).flags == 0,
            forall|i: int| 0 <= i < r@.len() ==> (#[trigger] r@[i]).flags == 0,
        decreases back@.len(),
    {
        let ghost (f, b) = (contents(r@), contents(back@));
        match back.pop() {
            Some(packet) => {
                r.push(packet);
                proof {
                    assert(contents(r@) =~= f.push(packet.model()));
                    assert(contents(back@) =~= b.drop_last());
                    assert(b.reverse() =~= seq![packet.model()] + b.drop_last().reverse());
                    assert(f + b.reverse() =~= contents(r@) + contents(back@).reverse());
                }
            },
            None => {},
        }
    }
    assert(contents(r@) + contents(back@).reverse() =~= contents(r@));
    r
}

// ---------------------------------------------------------------------------------------------
// Validity

/// A media packet with a payload that the container takes.
pub open spec fn plain(p: syntax::PacketModel) -> bool {
    p.flags == 0 && p.kind != PacketKind::EpochStart && p.payload.len() <= 134_217_728
}

pub proof fn lemma_framed_split(packets: Seq<syntax::PacketModel>)
    requires
        packets.len() > 0,
    ensures
        framed(packets) == syntax::packet_bytes(packets[0]) + framed(packets.drop_first()),
    decreases packets.len(),
{
    let head = packets.drop_last();
    if head.len() == 0 {
        assert(framed(head) =~= Seq::empty());
        assert(packets.drop_first() =~= Seq::empty());
        assert(framed(packets) =~= syntax::packet_bytes(packets[0]) + framed(packets.drop_first()));
    } else {
        lemma_framed_split(head);
        assert(head[0] == packets[0]);
        assert(packets.drop_first().drop_last() =~= head.drop_first());
        assert(framed(packets) =~= syntax::packet_bytes(packets[0]) + framed(packets.drop_first()));
    }
}

/// The packets from `pos` on pass validation and have their streams.
#[verifier::opaque]
spec fn passes(
    bytes: Seq<u8>,
    id: u32,
    pos: int,
    streams: Seq<crate::container::v1::StreamDesc>,
) -> bool {
    syntax::range_error(bytes, id, pos) is None && syntax::route_error(streams, bytes, pos) is None
}

/// A packet that is framed at `pos` passes if what is behind it does.
proof fn lemma_passes_step(
    bytes: Seq<u8>,
    id: u32,
    pos: int,
    p: syntax::PacketModel,
    streams: Seq<crate::container::v1::StreamDesc>,
)
    requires
        0 < pos < bytes.len() <= usize::MAX,
        bytes.skip(pos) == syntax::packet_bytes(p) + bytes.skip(
            pos + syntax::packet_bytes(p).len(),
        ),
        plain(p),
        syntax::routed(streams, p) is Ok,
        passes(bytes, id, pos + syntax::packet_bytes(p).len(), streams),
    ensures
        passes(bytes, id, pos, streams),
{
    reveal(passes);
    syntax::lemma_packet_len(p);
    let n = syntax::packet_bytes(p).len() as int;
    assert(bytes.skip(pos).len() == bytes.len() - pos);
    syntax::law_packet_write_read(p, bytes.skip(pos + n), 134_217_728);
}

proof fn lemma_framed_valid(
    bytes: Seq<u8>,
    id: u32,
    pos: int,
    packets: Seq<syntax::PacketModel>,
    streams: Seq<crate::container::v1::StreamDesc>,
)
    requires
        0 < pos <= bytes.len(),
        bytes.skip(pos) == framed(packets),
        forall|i: int| 0 <= i < packets.len() ==> plain(#[trigger] packets[i]),
        forall|i: int|
            0 <= i < packets.len() ==> syntax::routed(streams, #[trigger] packets[i]) is Ok,
        bytes.len() <= usize::MAX,
    ensures
        passes(bytes, id, pos, streams),
    decreases packets.len(),
{
    if packets.len() > 0 {
        lemma_framed_split(packets);
        let p = packets[0];
        let rest = packets.drop_first();
        assert(plain(p));
        let n = syntax::packet_bytes(p).len() as int;
        assert(n > 0) by {
            syntax::lemma_packet_len(p);
        }
        assert(bytes.skip(pos).len() == bytes.len() - pos);
        assert(bytes.skip(pos + n) =~= bytes.skip(pos).skip(n));
        assert(bytes.skip(pos).skip(n) =~= framed(rest));
        assert forall|i: int| 0 <= i < rest.len() implies plain(#[trigger] rest[i])
            && syntax::routed(streams, rest[i]) is Ok by {
            assert(rest[i] == packets[i + 1]);
        }
        lemma_framed_valid(bytes, id, pos + n, rest, streams);
        lemma_passes_step(bytes, id, pos, p, streams);
    } else {
        reveal(passes);
        assert(bytes.skip(pos).len() == 0);
    }
}

/// The bytes of an epoch are a valid range for its id, and every packet has its stream, wherever
/// the payloads are ones that the container takes.
pub proof fn law_epoch_valid(
    id: u32,
    pts: u64,
    duration: u32,
    video: Seq<syntax::PacketModel>,
    audio: Seq<syntax::PacketModel>,
    streams: Seq<crate::container::v1::StreamDesc>,
)
    requires
        forall|i: int|
            0 <= i < interleaved(video, audio).len() ==> plain(
                #[trigger] interleaved(video, audio)[i],
            ),
        forall|i: int|
            0 <= i < interleaved(video, audio).len() ==> syntax::routed(
                streams,
                #[trigger] interleaved(video, audio)[i],
            ) is Ok,
        framed(interleaved(video, audio)).len() + 36 <= usize::MAX,
    ensures
        epoch_bytes(id, pts, duration, video, audio) matches Ok(bytes) && syntax::range_error(
            bytes,
            id,
            0,
        ) is None && syntax::route_error(streams, bytes, 0) is None && bytes.len() > 0,
{
    let list = interleaved(video, audio);
    let start = start_packet(id, pts, duration);
    let bytes = syntax::packet_bytes(start) + framed(list);
    assert forall|i: int| 0 <= i < list.len() implies (#[trigger] list[i]).payload.len() <= u32::MAX by {
        assert(plain(list[i]));
    }
    bytes::lemma_le_bounds();
    bytes::lemma_le_write_read(id as int, 4);
    syntax::lemma_packet_len(start);
    syntax::law_packet_write_read(start, framed(list), 134_217_728);
    assert(bytes.skip(0) =~= bytes);
    assert(bytes.skip(36) =~= framed(list));
    lemma_framed_valid(bytes, id, 36, list, streams);
    reveal(passes);
}

/// No epoch is empty.
pub proof fn lemma_epoch_len(id: u32, pts: u64, duration: u32)
    ensures
        syntax::packet_bytes(start_packet(id, pts, duration)).len() == 36,
{
    bytes::lemma_le_bytes_len(id as int, 4);
    syntax::lemma_packet_len(start_packet(id, pts, duration));
}

/// The packets of consecutive samples come in the order of time, and none of them is anything but
/// audio. With [`law_interleaved_sorted`]: an epoch of frames in time and such packets is in the
/// order of its keys.
pub proof fn law_audio_in_time(samples: Seq<i16>, base: int, from: int, end: int, track: AudioTrack)
    requires
        track.wf(),
        0 <= from,
        end * 1_000_000 <= u64::MAX,
        audio_packets(samples, base, from, end, track) is Ok,
    ensures
        ({
            let list = audio_packets(samples, base, from, end, track)->Ok_0;
            &&& all_kind(list, PacketKind::AudioFrame)
            &&& in_time(list)
            &&& forall|i: int|
                0 <= i < list.len() ==> from * 1_000_000 / track.rate as int <= (
                #[trigger] list[i]).pts
        }),
    decreases end - from,
{
    let list = audio_packets(samples, base, from, end, track)->Ok_0;
    if from < end {
        let n = packet_frames(from, end);
        let rate = track.rate as int;
        law_audio_in_time(samples, base, from + n, end, track);
        let rest = audio_packets(samples, base, from + n, end, track)->Ok_0;
        let first = audio_packet(samples, base, from, n, track);
        assert(list =~= seq![first] + rest);
        vstd::arithmetic::div_mod::lemma_div_is_ordered(
            from * 1_000_000,
            (from + n) * 1_000_000,
            rate,
        );
        vstd::arithmetic::div_mod::lemma_div_is_ordered_by_denominator(from * 1_000_000, 1, rate);
        vstd::arithmetic::div_mod::lemma_div_pos_is_pos(from * 1_000_000, rate);
        assert(first.pts == from * 1_000_000 / rate);
        assert forall|i: int| 0 <= i < list.len() implies from * 1_000_000 / rate <= (
        #[trigger] list[i]).pts && list[i].kind == PacketKind::AudioFrame by {
            if i > 0 {
                assert(list[i] == rest[i - 1]);
            }
        }
        assert forall|i: int, j: int| 0 <= i <= j < list.len() implies (#[trigger] list[i]).pts <= (
        #[trigger] list[j]).pts by {
            if i > 0 {
                assert(list[i] == rest[i - 1]);
                assert(list[j] == rest[j - 1]);
            }
        }
    }
}

} // verus!
