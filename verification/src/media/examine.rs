//! What can be told of a file without playing it.
use crate::bytes;
use crate::container::v1::syntax;
use crate::container::v1::{EpochIndex, Packet, PacketKind};
use crate::media::decode;
use crate::media::decode::{all_packets, oldest_frames, remember};
use crate::media::encode;
use crate::media::MediaError;
use crate::mux::epoch;
use crate::reference;
use crate::reference::frame::Frame420;
use crate::video;
use crate::video::v1::decoder;
use crate::video::v1::history;
use crate::video::v1::history::oldest_first;
use crate::video::v1::syntax::Picture;
use std::collections::VecDeque;
use std::sync::Arc;
use vstd::prelude::*;

verus! {

/// Whether an entry of the index lies within a file of this length.
pub fn index_fits(e: &EpochIndex, len: u64) -> (r: bool)
    ensures
        r == (e.offset + e.len <= len),
{
    e.offset <= len && e.len <= len - e.offset
}

// ---------------------------------------------------------------------------------------------
// Frames

/// What a video packet says of itself.
#[derive(Debug, Clone, Copy, PartialEq, Eq, Structural)]
pub struct FrameInfo {
    pub id: u64,
    pub pts: u64,
    pub qstep: u16,
    pub references: u8,
    /// Length of the payload.
    pub size: usize,
}

/// What a packet says of itself, if it is a video packet that starts as one should.
pub open spec fn info_of(p: syntax::PacketModel) -> Option<FrameInfo> {
    if p.kind == PacketKind::VideoFrame && p.payload.len() >= 20 && p.payload.take(4)
        == video::v1::syntax::magic() {
        Some(
            FrameInfo {
                id: bytes::le_value(p.payload.subrange(4, 12)) as u64,
                pts: p.pts,
                qstep: bytes::le_value(p.payload.subrange(16, 18)) as u16,
                references: p.payload[18],
                size: p.payload.len() as usize,
            },
        )
    } else {
        None
    }
}

/// What the first `k` packets say of themselves.
pub open spec fn infos(packets: Seq<syntax::PacketModel>, k: int) -> Seq<FrameInfo>
    decreases k,
{
    if k <= 0 {
        Seq::empty()
    } else {
        match info_of(packets[k - 1]) {
            Some(info) => infos(packets, k - 1).push(info),
            None => infos(packets, k - 1),
        }
    }
}

/// What a packet says of itself.
pub fn frame_info(packet: &Packet) -> (r: Option<FrameInfo>)
    ensures
        r == info_of(packet.model()),
{
    if packet.kind != PacketKind::VideoFrame || packet.payload.len() < 20
        || !decoder::has_magic(packet.payload.as_slice()) {
        return None;
    }
    Some(
        FrameInfo {
            id: bytes::get_u64_le(packet.payload.as_slice(), 4),
            pts: packet.pts,
            qstep: bytes::get_u16_le(packet.payload.as_slice(), 16),
            references: packet.payload[18],
            size: packet.payload.len(),
        },
    )
}

/// Lists the coded frames of a file.
pub fn list_frames(b: &[u8]) -> (r: Result<Vec<FrameInfo>, MediaError>)
    ensures
        match decode::file_packets(b@) {
            Err(e) => r == Err::<Vec<FrameInfo>, MediaError>(e),
            Ok((front, packets, n)) => r matches Ok(list) && list@ == infos(
                packets,
                packets.len() as int,
            ),
        },
{
    let packets: Vec<Packet> = match all_packets(b) {
        Ok((_, packets, _)) => packets,
        Err(e) => {
            return Err(e);
        },
    };
    let ghost all = epoch::contents(packets@);
    let mut list: Vec<FrameInfo> = Vec::new();
    let mut i: usize = 0;
    while i < packets.len()
        invariant
            i <= packets@.len(),
            all == epoch::contents(packets@),
            list@ == infos(all, i as int),
        decreases packets@.len() - i,
    {
        assert(all[i as int] == packets@[i as int].model());
        match frame_info(&packets[i]) {
            Some(info) => {
                list.push(info);
            },
            None => {},
        }
        i = i + 1;
    }
    Ok(list)
}

// ---------------------------------------------------------------------------------------------
// Two decoders

/// Whether production and reference decoder show the same, packet after packet, each with the
/// references that it made itself.
pub open spec fn compared(
    packets: Seq<syntax::PacketModel>,
    production: Seq<(u64, Picture)>,
    other: Seq<(u64, Picture)>,
) -> Result<(), MediaError>
    decreases packets.len(),
{
    if packets.len() == 0 {
        Ok(())
    } else {
        let p = packets[0];
        let rest = packets.drop_first();
        if p.kind == PacketKind::EpochStart {
            compared(rest, Seq::empty(), Seq::empty())
        } else if p.kind == PacketKind::VideoFrame {
            match video::v1::syntax::decoded_frame(
                p.payload,
                production,
                decoder::bounds(67_108_864, 8_388_608, None),
            ) {
                Err(e) => Err(MediaError::VideoDecode(e)),
                Ok((id, picture, ids)) => match reference::video_decoder::decoded_frame(
                    p.payload,
                    other,
                ) {
                    Err(e) => Err(
                        MediaError::ReferenceDecode(reference::video_decoder::told(e)),
                    ),
                    Ok(shown) => if shown != (id, picture, ids) {
                        Err(MediaError::Mismatch(id))
                    } else {
                        compared(
                            rest,
                            history::extended(production, id, picture),
                            history::extended(other, id, picture),
                        )
                    },
                },
            }
        } else {
            compared(rest, production, other)
        }
    }
}

/// The decoders never disagree: what keeps a file from passing is a packet that the production
/// decoder refuses.
pub proof fn law_decoders_agree(packets: Seq<syntax::PacketModel>, references: Seq<(u64, Picture)>)
    ensures
        match compared(packets, references, references) {
            Ok(_) => true,
            Err(e) => e is VideoDecode,
        },
    decreases packets.len(),
{
    if packets.len() > 0 {
        let p = packets[0];
        let rest = packets.drop_first();
        let bounds = decoder::bounds(67_108_864, 8_388_608, None);
        reference::video_decoder::law_agrees_with_production(p.payload, references, bounds);
        law_decoders_agree(rest, Seq::empty());
        law_decoders_agree(rest, references);
        if let Ok((id, picture, ids)) = video::v1::syntax::decoded_frame(
            p.payload,
            references,
            bounds,
        ) {
            law_decoders_agree(rest, history::extended(references, id, picture));
        }
    }
}

/// Whether two lists of bytes are the same.
pub fn same_bytes(a: &[u8], b: &[u8]) -> (r: bool)
    ensures
        r == (a@ == b@),
{
    if a.len() != b.len() {
        return false;
    }
    let mut i: usize = 0;
    while i < a.len()
        invariant
            i <= a@.len(),
            a@.len() == b@.len(),
            forall|j: int| 0 <= j < i ==> a@[j] == b@[j],
        decreases a@.len() - i,
    {
        if a[i] != b[i] {
            return false;
        }
        i = i + 1;
    }
    assert(a@ =~= b@);
    true
}

/// Whether two lists of ids are the same.
fn same_ids(a: &Vec<u64>, b: &Vec<u64>) -> (r: bool)
    ensures
        r == (a@ == b@),
{
    if a.len() != b.len() {
        return false;
    }
    let mut i: usize = 0;
    while i < a.len()
        invariant
            i <= a@.len(),
            a@.len() == b@.len(),
            forall|j: int| 0 <= j < i ==> a@[j] == b@[j],
        decreases a@.len() - i,
    {
        if a[i] != b[i] {
            return false;
        }
        i = i + 1;
    }
    assert(a@ =~= b@);
    true
}

/// Whether two frames show the same.
fn same_frame(a: &video::v1::Frame420, b: &Frame420) -> (r: bool)
    ensures
        r == (a.picture() == b.picture()),
{
    a.width == b.width && a.height == b.height && same_bytes(a.y(), b.y.as_slice()) && same_bytes(
        a.u(),
        b.u.as_slice(),
    ) && same_bytes(a.v(), b.v.as_slice())
}

/// Remembers a frame; of more than four, the oldest goes.
fn remember_shared(
    frames: &mut VecDeque<(u64, Arc<video::v1::Frame420>)>,
    id: u64,
    frame: video::v1::Frame420,
)
    requires
        old(frames)@.len() <= 4,
        shared_ready(old(frames)@),
        frame.picture().sized(),
    ensures
        final(frames)@.len() <= 4,
        shared_ready(final(frames)@),
        history::shown(final(frames)@) == history::extended(
            history::shown(old(frames)@),
            id,
            frame.picture(),
        ),
{
    let ghost before = history::shown(frames@);
    let ghost shown = frame.picture();
    if frames.len() >= 4 {
        let _ = frames.pop_front();
    }
    frames.push_back((id, Arc::new(frame)));
    assert(history::shown(frames@) =~= history::extended(before, id, shown));
}

/// Every frame can be predicted from.
pub open spec fn shared_ready(frames: Seq<(u64, Arc<video::v1::Frame420>)>) -> bool {
    forall|i: int| 0 <= i < frames.len() ==> (#[trigger] frames[i]).1.picture().sized()
}

/// Holds the production decoder to the reference decoder.
pub fn verify_video_with_reference_decoder(b: &[u8]) -> (r: Result<(), MediaError>)
    ensures
        match decode::file_packets(b@) {
            Err(e) => r == Err::<(), MediaError>(e),
            Ok((front, packets, n)) => match compared(packets, Seq::empty(), Seq::empty()) {
                Ok(_) => r is Ok,
                Err(e) => r == Err::<(), MediaError>(e),
            },
        },
{
    let packets: Vec<Packet> = match all_packets(b) {
        Ok((_, packets, _)) => packets,
        Err(e) => {
            return Err(e);
        },
    };
    compare(&packets)
}

/// Decodes packets with both decoders.
fn compare(packets: &Vec<Packet>) -> (r: Result<(), MediaError>)
    ensures
        match compared(epoch::contents(packets@), Seq::empty(), Seq::empty()) {
            Ok(_) => r is Ok,
            Err(e) => r == Err::<(), MediaError>(e),
        },
{
    let ghost all = epoch::contents(packets@);
    let ghost want = compared(all, Seq::empty(), Seq::empty());
    let mut production: VecDeque<(u64, Arc<video::v1::Frame420>)> = VecDeque::new();
    let mut other: VecDeque<(u64, Frame420)> = VecDeque::new();
    let mut i: usize = 0;
    proof {
        assert(all.skip(0) =~= all);
        assert(history::shown(production@) =~= Seq::<(u64, Picture)>::empty());
        assert(encode::remembered(other@) =~= Seq::<(u64, Picture)>::empty());
    }
    while i < packets.len()
        invariant
            i <= packets@.len(),
            all == epoch::contents(packets@),
            production@.len() <= 4,
            shared_ready(production@),
            other@.len() <= 4,
            decode::reference_ready(other@),
            want == compared(all, Seq::empty(), Seq::empty()),
            want == compared(
                all.skip(i as int),
                history::shown(production@),
                encode::remembered(other@),
            ),
        decreases packets@.len() - i,
    {
        let packet: &Packet = &packets[i];
        proof {
            assert(all.skip(i as int)[0] == packet.model());
            assert(all.skip(i as int).drop_first() =~= all.skip(i + 1));
        }
        match packet.kind {
            PacketKind::EpochStart => {
                production = VecDeque::new();
                other = VecDeque::new();
                proof {
                    assert(history::shown(production@) =~= Seq::<(u64, Picture)>::empty());
                    assert(encode::remembered(other@) =~= Seq::<(u64, Picture)>::empty());
                }
            },
            PacketKind::VideoFrame => {
                let refs: Vec<(u64, &video::v1::Frame420)> = oldest_first(&production);
                let (id, frame, ids): (u64, video::v1::Frame420, Vec<u64>) = match decoder::decode(
                    packet.payload.as_slice(),
                    refs.as_slice(),
                ) {
                    Ok(shown) => shown,
                    Err(e) => {
                        return Err(MediaError::VideoDecode(e));
                    },
                };
                let others: Vec<(u64, &Frame420)> = oldest_frames(&other);
                let (other_id, other_frame, other_ids): (u64, Frame420, Vec<u64>) =
                    match reference::video_decoder::decode(
                    packet.payload.as_slice(),
                    others.as_slice(),
                ) {
                    Ok(shown) => shown,
                    Err(e) => {
                        return Err(MediaError::ReferenceDecode(e));
                    },
                };
                if id != other_id || !same_ids(&ids, &other_ids) || !same_frame(
                    &frame,
                    &other_frame,
                ) {
                    return Err(MediaError::Mismatch(id));
                }
                remember_shared(&mut production, id, frame);
                remember(&mut other, other_id, other_frame);
            },
            _ => {},
        }
        i = i + 1;
    }
    Ok(())
}

// ---------------------------------------------------------------------------------------------
// Packets with what they need

/// A codec packet and what it needs to be decoded.
#[derive(Debug)]
pub enum CodecCase {
    Video { payload: Vec<u8>, references: Vec<(u64, Frame420)> },
    Audio { payload: Vec<u8> },
}

/// What a codec packet and its needs are.
pub enum CaseModel {
    Video(Seq<u8>, Seq<(u64, Picture)>),
    Audio(Seq<u8>),
}

impl CodecCase {
    pub open spec fn model(&self) -> CaseModel {
        match self {
            CodecCase::Video { payload, references } => CaseModel::Video(
                payload@,
                encode::remembered(references@),
            ),
            CodecCase::Audio { payload } => CaseModel::Audio(payload@),
        }
    }
}

pub open spec fn case_models(list: Seq<CodecCase>) -> Seq<CaseModel> {
    Seq::new(list.len(), |i: int| list[i].model())
}

/// The codec packets, each with the references that precede it; or why one of them cannot be
/// decoded.
pub open spec fn cases(packets: Seq<syntax::PacketModel>, references: Seq<(u64, Picture)>) -> Result<
    Seq<CaseModel>,
    MediaError,
>
    decreases packets.len(),
{
    if packets.len() == 0 {
        Ok(Seq::empty())
    } else {
        let p = packets[0];
        let rest = packets.drop_first();
        match p.kind {
            PacketKind::EpochStart => cases(rest, Seq::empty()),
            PacketKind::VideoFrame => match reference::video_decoder::decoded_frame(
                p.payload,
                references,
            ) {
                Err(e) => Err(MediaError::ReferenceDecode(reference::video_decoder::told(e))),
                Ok((id, picture, ids)) => match cases(
                    rest,
                    history::extended(references, id, picture),
                ) {
                    Err(e) => Err(e),
                    Ok(more) => Ok(seq![CaseModel::Video(p.payload, references)] + more),
                },
            },
            PacketKind::AudioFrame => match cases(rest, references) {
                Err(e) => Err(e),
                Ok(more) => Ok(seq![CaseModel::Audio(p.payload)] + more),
            },
            PacketKind::Metadata => cases(rest, references),
        }
    }
}

/// Copies frames.
fn snapshot(frames: &VecDeque<(u64, Frame420)>) -> (r: Vec<(u64, Frame420)>)
    ensures
        encode::remembered(r@) == encode::remembered(frames@),
{
    let mut r: Vec<(u64, Frame420)> = Vec::new();
    let mut i: usize = 0;
    while i < frames.len()
        invariant
            i <= frames@.len(),
            r@.len() == i,
            forall|j: int|
                0 <= j < i ==> (#[trigger] r@[j]).0 == frames@[j].0 && r@[j].1.picture()
                    == frames@[j].1.picture(),
        decreases frames@.len() - i,
    {
        let entry: &(u64, Frame420) = &frames[i];
        r.push((entry.0, entry.1.clone()));
        i = i + 1;
    }
    assert(encode::remembered(r@) =~= encode::remembered(frames@));
    r
}

fn copied(b: &Vec<u8>) -> (r: Vec<u8>)
    ensures
        r@ == b@,
{
    let mut r: Vec<u8> = Vec::new();
    bytes::put_slice(b, &mut r);
    assert(r@ =~= b@);
    r
}

/// The codec packets of a file, each with what it needs to be decoded.
pub fn codec_cases(b: &[u8]) -> (r: Result<Vec<CodecCase>, MediaError>)
    ensures
        match decode::file_packets(b@) {
            Err(e) => r == Err::<Vec<CodecCase>, MediaError>(e),
            Ok((front, packets, n)) => match cases(packets, Seq::empty()) {
                Err(e) => r == Err::<Vec<CodecCase>, MediaError>(e),
                Ok(list) => r matches Ok(found) && case_models(found@) == list,
            },
        },
{
    let packets: Vec<Packet> = match all_packets(b) {
        Ok((_, packets, _)) => packets,
        Err(e) => {
            return Err(e);
        },
    };
    let ghost all = epoch::contents(packets@);
    let ghost want = cases(all, Seq::empty());
    let mut frames: VecDeque<(u64, Frame420)> = VecDeque::new();
    let mut list: Vec<CodecCase> = Vec::new();
    let mut i: usize = 0;
    proof {
        assert(all.skip(0) =~= all);
        assert(encode::remembered(frames@) =~= Seq::<(u64, Picture)>::empty());
        if let Ok(found) = want {
            assert(case_models(list@) + found =~= found);
        }
    }
    while i < packets.len()
        invariant
            i <= packets@.len(),
            all == epoch::contents(packets@),
            decode::file_packets(b@) is Ok,
            (decode::file_packets(b@)->Ok_0).1 == all,
            frames@.len() <= 4,
            decode::reference_ready(frames@),
            want == cases(all, Seq::empty()),
            match cases(all.skip(i as int), encode::remembered(frames@)) {
                Ok(rest) => want == Ok::<Seq<CaseModel>, MediaError>(case_models(list@) + rest),
                Err(e) => want == Err::<Seq<CaseModel>, MediaError>(e),
            },
        decreases packets@.len() - i,
    {
        let packet: &Packet = &packets[i];
        let ghost before = case_models(list@);
        proof {
            assert(all.skip(i as int)[0] == packet.model());
            assert(all.skip(i as int).drop_first() =~= all.skip(i + 1));
        }
        match packet.kind {
            PacketKind::EpochStart => {
                frames = VecDeque::new();
                assert(encode::remembered(frames@) =~= Seq::<(u64, Picture)>::empty());
            },
            PacketKind::VideoFrame => {
                let references: Vec<(u64, Frame420)> = snapshot(&frames);
                let refs: Vec<(u64, &Frame420)> = oldest_frames(&frames);
                let (id, frame): (u64, Frame420) = match reference::video_decoder::decode(
                    packet.payload.as_slice(),
                    refs.as_slice(),
                ) {
                    Ok((id, frame, _)) => (id, frame),
                    Err(e) => {
                        return Err(MediaError::ReferenceDecode(e));
                    },
                };
                let case: CodecCase = CodecCase::Video {
                    payload: copied(&packet.payload),
                    references,
                };
                let ghost model = case.model();
                list.push(case);
                remember(&mut frames, id, frame);
                proof {
                    assert(case_models(list@) =~= before.push(model));
                    if let Ok(more) = cases(all.skip(i + 1), encode::remembered(frames@)) {
                        assert(before + (seq![model] + more) =~= case_models(list@) + more);
                    }
                }
            },
            PacketKind::AudioFrame => {
                let case: CodecCase = CodecCase::Audio { payload: copied(&packet.payload) };
                let ghost model = case.model();
                list.push(case);
                proof {
                    assert(case_models(list@) =~= before.push(model));
                    if let Ok(more) = cases(all.skip(i + 1), encode::remembered(frames@)) {
                        assert(before + (seq![model] + more) =~= case_models(list@) + more);
                    }
                }
            },
            PacketKind::Metadata => {},
        }
        i = i + 1;
    }
    assert(case_models(list@) + Seq::<CaseModel>::empty() =~= case_models(list@));
    Ok(list)
}

} // verus!
