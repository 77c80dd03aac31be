//! The container's byte layout.
use crate::bytes;
use crate::container::v1;
use crate::container::v1::{
    ContainerError, EpochIndex, FileHeader, PacketKind, StreamDesc, StreamKind,
};
use crate::kernels::scalar;
use vstd::prelude::*;

verus! {

/// What a front index says.
pub struct FrontModel {
    pub streams: Seq<StreamDesc>,
    pub epochs: Seq<EpochIndex>,
}

/// What a packet says.
pub struct PacketModel {
    pub kind: PacketKind,
    pub flags: u8,
    pub stream_id: u16,
    pub pts: u64,
    pub duration: u32,
    pub payload: Seq<u8>,
}

/// Bytes followed by their CRC-32C.
pub open spec fn sealed(body: Seq<u8>) -> Seq<u8> {
    body + bytes::le_bytes(scalar::crc_of(body) as int, 4)
}

/// The number that `n` bytes at `pos` spell.
pub open spec fn number_at(b: Seq<u8>, pos: int, n: int) -> int {
    bytes::le_value(b.subrange(pos, pos + n)) as int
}

// ---------------------------------------------------------------------------------------------
// The fixed header

/// `AVELUNE` and a zero.
pub open spec fn file_magic() -> Seq<u8> {
    seq![65u8, 86u8, 69u8, 76u8, 85u8, 78u8, 69u8, 0u8]
}

pub open spec fn header_body(h: FileHeader) -> Seq<u8> {
    file_magic() + bytes::le_bytes(1, 2) + bytes::le_bytes(0, 2) + bytes::le_bytes(
        h.flags as int,
        4,
    ) + bytes::le_bytes(32, 4) + bytes::le_bytes(h.stream_count as int, 2) + bytes::le_bytes(0, 2)
        + bytes::le_bytes(h.front_len as int, 4)
}

pub open spec fn header_bytes(h: FileHeader) -> Seq<u8> {
    sealed(header_body(h))
}

/// The header that bytes start with, or why they are refused.
pub open spec fn decoded_header(b: Seq<u8>) -> Result<FileHeader, ContainerError> {
    if b.len() < 32 {
        Err(ContainerError::UnexpectedEof)
    } else if b.take(8) != file_magic() {
        Err(ContainerError::BadMagic)
    } else if number_at(b, 8, 2) != 1 {
        Err(ContainerError::UnsupportedVersion(number_at(b, 8, 2) as u16))
    } else if number_at(b, 10, 2) != 0 || number_at(b, 12, 4) > 1 || number_at(b, 16, 4) != 32
        || number_at(b, 22, 2) != 0 {
        Err(ContainerError::BadHeader)
    } else if scalar::crc_of(b.take(28)) != number_at(b, 28, 4) {
        Err(ContainerError::HeaderChecksum)
    } else {
        Ok(
            FileHeader {
                flags: number_at(b, 12, 4) as u32,
                stream_count: number_at(b, 20, 2) as u16,
                front_len: number_at(b, 24, 4) as u32,
            },
        )
    }
}

// ---------------------------------------------------------------------------------------------
// The front index

/// `AVFR`.
pub open spec fn front_magic() -> Seq<u8> {
    seq![65u8, 86u8, 70u8, 82u8]
}

pub open spec fn stream_bytes(s: StreamDesc) -> Seq<u8> {
    bytes::le_bytes(s.id as int, 2) + seq![s.kind.byte(), s.codec] + bytes::le_bytes(
        s.timescale as int,
        4,
    ) + bytes::le_bytes(s.param0 as int, 4) + bytes::le_bytes(s.param1 as int, 4)
        + bytes::le_bytes(s.flags as int, 4) + bytes::le_bytes(s.meta0 as int, 4)
}

pub open spec fn epoch_bytes(e: EpochIndex) -> Seq<u8> {
    bytes::le_bytes(e.id as int, 4) + bytes::le_bytes(e.duration as int, 4) + bytes::le_bytes(
        e.pts as int,
        8,
    ) + bytes::le_bytes(e.offset as int, 8) + bytes::le_bytes(e.len as int, 8)
}

pub open spec fn streams_bytes(list: Seq<StreamDesc>) -> Seq<u8>
    decreases list.len(),
{
    if list.len() == 0 {
        Seq::empty()
    } else {
        streams_bytes(list.drop_last()) + stream_bytes(list.last())
    }
}

pub open spec fn epochs_bytes(list: Seq<EpochIndex>) -> Seq<u8>
    decreases list.len(),
{
    if list.len() == 0 {
        Seq::empty()
    } else {
        epochs_bytes(list.drop_last()) + epoch_bytes(list.last())
    }
}

pub open spec fn front_body(front: FrontModel) -> Seq<u8> {
    front_magic() + bytes::le_bytes(1, 2) + bytes::le_bytes(front.streams.len() as int, 2)
        + bytes::le_bytes(front.epochs.len() as int, 4) + streams_bytes(front.streams)
        + epochs_bytes(front.epochs)
}

pub open spec fn front_bytes(front: FrontModel) -> Seq<u8> {
    sealed(front_body(front))
}

/// The metadata of a stream is what its codec defines; other codecs are not looked into.
pub open spec fn stream_ok(s: StreamDesc) -> bool {
    s.codec == 1 ==> match s.kind {
        StreamKind::Video => v1::meta_ok(s.meta0 as int),
        StreamKind::Audio => s.flags == 0 && s.meta0 == 0,
    }
}

pub open spec fn epoch_ok(e: EpochIndex) -> bool {
    e.offset + e.len <= u64::MAX
}

/// The descriptor that 24 bytes at `pos` hold.
pub open spec fn stream_at(b: Seq<u8>, pos: int) -> StreamDesc {
    StreamDesc {
        id: number_at(b, pos, 2) as u16,
        kind: if b[pos + 2] == 1 {
            StreamKind::Video
        } else {
            StreamKind::Audio
        },
        codec: b[pos + 3],
        timescale: number_at(b, pos + 4, 4) as u32,
        param0: number_at(b, pos + 8, 4) as u32,
        param1: number_at(b, pos + 12, 4) as u32,
        flags: number_at(b, pos + 16, 4) as u32,
        meta0: number_at(b, pos + 20, 4) as u32,
    }
}

/// The index entry that 32 bytes at `pos` hold.
pub open spec fn epoch_at(b: Seq<u8>, pos: int) -> EpochIndex {
    EpochIndex {
        id: number_at(b, pos, 4) as u32,
        pts: number_at(b, pos + 8, 8) as u64,
        offset: number_at(b, pos + 16, 8) as u64,
        len: number_at(b, pos + 24, 8) as u64,
        duration: number_at(b, pos + 4, 4) as u32,
    }
}

/// No two descriptors share an id.
pub open spec fn stream_ids_distinct(list: Seq<StreamDesc>) -> bool {
    forall|i: int, j: int|
        0 <= i < j < list.len() ==> (#[trigger] list[i]).id != (#[trigger] list[j]).id
}

/// No two entries share an id.
pub open spec fn epoch_ids_distinct(list: Seq<EpochIndex>) -> bool {
    forall|i: int, j: int|
        0 <= i < j < list.len() ==> (#[trigger] list[i]).id != (#[trigger] list[j]).id
}

/// The descriptors from `pos` on.
pub open spec fn streams_at(b: Seq<u8>, pos: int, n: int) -> Seq<StreamDesc> {
    Seq::new(n as nat, |i: int| stream_at(b, pos + 24 * i))
}

/// The index entries from `pos` on.
pub open spec fn epochs_at(b: Seq<u8>, pos: int, n: int) -> Seq<EpochIndex> {
    Seq::new(n as nat, |i: int| epoch_at(b, pos + 32 * i))
}

/// Every descriptor and entry can stand in a front index.
pub open spec fn front_ok(front: FrontModel) -> bool {
    &&& forall|i: int| 0 <= i < front.streams.len() ==> stream_ok(#[trigger] front.streams[i])
    &&& forall|i: int| 0 <= i < front.epochs.len() ==> epoch_ok(#[trigger] front.epochs[i])
    &&& stream_ids_distinct(front.streams)
    &&& epoch_ids_distinct(front.epochs)
}

/// The categories that the descriptors name exist.
pub open spec fn kinds_known(b: Seq<u8>, pos: int, n: int) -> bool {
    forall|i: int| 0 <= i < n ==> 1 <= #[trigger] b[pos + 24 * i + 2] <= 2
}

/// The front index that bytes hold, or why they are refused.
pub open spec fn decoded_front(b: Seq<u8>, expected_streams: int) -> Result<
    FrontModel,
    ContainerError,
> {
    let streams = number_at(b, 6, 2);
    let epochs = number_at(b, 8, 4);
    let need = 16 + 24 * streams + 32 * epochs;
    let front = FrontModel {
        streams: streams_at(b, 12, streams),
        epochs: epochs_at(b, 12 + 24 * streams, epochs),
    };
    if b.len() < 16 {
        Err(ContainerError::UnexpectedEof)
    } else if b.take(4) != front_magic() || number_at(b, 4, 2) != 1 || streams != expected_streams {
        Err(ContainerError::BadFront)
    } else if need > usize::MAX {
        Err(ContainerError::BadFront)
    } else if b.len() < need {
        Err(ContainerError::UnexpectedEof)
    } else if b.len() > need {
        Err(ContainerError::TrailingData)
    } else if scalar::crc_of(b.take(need - 4)) != number_at(b, need - 4, 4) {
        Err(ContainerError::FrontChecksum)
    } else if !kinds_known(b, 12, streams) || !front_ok(front) {
        Err(ContainerError::BadFront)
    } else {
        Ok(front)
    }
}

// ---------------------------------------------------------------------------------------------
// Packets

/// `AVPK`.
pub open spec fn packet_magic() -> Seq<u8> {
    seq![65u8, 86u8, 80u8, 75u8]
}

pub open spec fn packet_head(p: PacketModel) -> Seq<u8> {
    packet_magic() + seq![p.kind.byte(), p.flags] + bytes::le_bytes(p.stream_id as int, 2)
        + bytes::le_bytes(p.pts as int, 8) + bytes::le_bytes(p.duration as int, 4)
        + bytes::le_bytes(p.payload.len() as int, 4)
}

pub open spec fn packet_bytes(p: PacketModel) -> Seq<u8> {
    sealed(packet_head(p)) + sealed(p.payload)
}

/// The packet that bytes start with and how many bytes it takes, or why they are refused.
pub open spec fn decoded_packet(b: Seq<u8>, max_packet: int) -> Result<
    (PacketModel, int),
    ContainerError,
> {
    let len = number_at(b, 20, 4);
    if b.len() < 28 {
        Err(ContainerError::UnexpectedEof)
    } else if b.take(4) != packet_magic() {
        Err(ContainerError::BadMagic)
    } else if scalar::crc_of(b.take(24)) != number_at(b, 24, 4) {
        Err(ContainerError::PacketHeaderChecksum)
    } else if b[5] != 0 {
        Err(ContainerError::BadHeader)
    } else if len > max_packet || 32 + len > usize::MAX {
        Err(ContainerError::PacketTooLarge(len as u32))
    } else if b.len() < 32 + len {
        Err(ContainerError::UnexpectedEof)
    } else if scalar::crc_of(b.subrange(28, 28 + len)) != number_at(b, 28 + len, 4) {
        Err(ContainerError::PayloadChecksum)
    } else if b[4] == 0 || b[4] > 4 {
        Err(ContainerError::UnknownPacketKind(b[4]))
    } else {
        Ok(
            (
                PacketModel {
                    kind: if b[4] == 1 {
                        PacketKind::EpochStart
                    } else if b[4] == 2 {
                        PacketKind::VideoFrame
                    } else if b[4] == 3 {
                        PacketKind::AudioFrame
                    } else {
                        PacketKind::Metadata
                    },
                    flags: b[5],
                    stream_id: number_at(b, 6, 2) as u16,
                    pts: number_at(b, 8, 8) as u64,
                    duration: number_at(b, 16, 4) as u32,
                    payload: b.subrange(28, 28 + len),
                },
                32 + len,
            ),
        )
    }
}

// ---------------------------------------------------------------------------------------------
// Laws

proof fn lemma_number_at(b: Seq<u8>, pos: int, n: nat, v: int)
    requires
        0 <= pos,
        pos + n <= b.len(),
        b.subrange(pos, pos + n) == bytes::le_bytes(v, n),
        0 <= v < bytes::le_bound(n),
    ensures
        number_at(b, pos, n as int) == v,
{
    bytes::lemma_le_write_read(v, n);
}

/// The last four bytes of sealed bytes check.
proof fn lemma_sealed(body: Seq<u8>)
    ensures
        sealed(body).len() == body.len() + 4,
        sealed(body).take(body.len() as int) == body,
        number_at(sealed(body), body.len() as int, 4) == scalar::crc_of(body),
{
    let n = body.len() as int;
    bytes::lemma_le_bounds();
    bytes::lemma_le_bytes_len(scalar::crc_of(body) as int, 4);
    assert(sealed(body).take(n) =~= body);
    assert(sealed(body).subrange(n, n + 4) =~= bytes::le_bytes(scalar::crc_of(body) as int, 4));
    lemma_number_at(sealed(body), n, 4, scalar::crc_of(body) as int);
}

/// A number within the first bytes is the same if more bytes follow.
proof fn lemma_number_prefix(b: Seq<u8>, rest: Seq<u8>, pos: int, n: int)
    requires
        0 <= pos,
        0 <= n,
        pos + n <= b.len(),
    ensures
        number_at(b + rest, pos, n) == number_at(b, pos, n),
{
    assert((b + rest).subrange(pos, pos + n) =~= b.subrange(pos, pos + n));
}

proof fn lemma_header_body(h: FileHeader)
    ensures
        header_body(h).len() == 28,
        header_body(h).take(8) == file_magic(),
        number_at(header_body(h), 8, 2) == 1,
        number_at(header_body(h), 10, 2) == 0,
        number_at(header_body(h), 12, 4) == h.flags,
        number_at(header_body(h), 16, 4) == 32,
        number_at(header_body(h), 20, 2) == h.stream_count,
        number_at(header_body(h), 22, 2) == 0,
        number_at(header_body(h), 24, 4) == h.front_len,
{
    let b = header_body(h);
    bytes::lemma_le_bounds();
    bytes::lemma_le_bytes_len(1, 2);
    bytes::lemma_le_bytes_len(0, 2);
    bytes::lemma_le_bytes_len(h.flags as int, 4);
    bytes::lemma_le_bytes_len(32, 4);
    bytes::lemma_le_bytes_len(h.stream_count as int, 2);
    bytes::lemma_le_bytes_len(h.front_len as int, 4);
    assert(b.take(8) =~= file_magic());
    assert(b.subrange(8, 10) =~= bytes::le_bytes(1, 2));
    lemma_number_at(b, 8, 2, 1);
    assert(b.subrange(10, 12) =~= bytes::le_bytes(0, 2));
    lemma_number_at(b, 10, 2, 0);
    assert(b.subrange(12, 16) =~= bytes::le_bytes(h.flags as int, 4));
    lemma_number_at(b, 12, 4, h.flags as int);
    assert(b.subrange(16, 20) =~= bytes::le_bytes(32, 4));
    lemma_number_at(b, 16, 4, 32);
    assert(b.subrange(20, 22) =~= bytes::le_bytes(h.stream_count as int, 2));
    lemma_number_at(b, 20, 2, h.stream_count as int);
    assert(b.subrange(22, 24) =~= bytes::le_bytes(0, 2));
    lemma_number_at(b, 22, 2, 0);
    assert(b.subrange(24, 28) =~= bytes::le_bytes(h.front_len as int, 4));
    lemma_number_at(b, 24, 4, h.front_len as int);
}

/// A written header reads back, whatever follows it.
pub proof fn law_header_write_read(h: FileHeader, rest: Seq<u8>)
    requires
        h.flags <= 1,
    ensures
        header_bytes(h).len() == 32,
        decoded_header(header_bytes(h) + rest) == Ok::<FileHeader, ContainerError>(h),
{
    let body = header_body(h);
    let tail = bytes::le_bytes(scalar::crc_of(body) as int, 4) + rest;
    let b = header_bytes(h) + rest;
    lemma_header_body(h);
    lemma_sealed(body);
    assert(b =~= body + tail);
    assert(b.take(8) =~= body.take(8));
    lemma_number_prefix(body, tail, 8, 2);
    lemma_number_prefix(body, tail, 10, 2);
    lemma_number_prefix(body, tail, 12, 4);
    lemma_number_prefix(body, tail, 16, 4);
    lemma_number_prefix(body, tail, 20, 2);
    lemma_number_prefix(body, tail, 22, 2);
    lemma_number_prefix(body, tail, 24, 4);
    assert(b.take(28) =~= body);
    lemma_number_prefix(header_bytes(h), rest, 28, 4);
}

proof fn lemma_stream_at(b: Seq<u8>, pos: int, s: StreamDesc)
    requires
        0 <= pos,
        pos + 24 <= b.len(),
        b.subrange(pos, pos + 24) == stream_bytes(s),
    ensures
        stream_at(b, pos) == s,
        1 <= b[pos + 2] <= 2,
{
    let t = stream_bytes(s);
    bytes::lemma_le_bounds();
    bytes::lemma_le_bytes_len(s.id as int, 2);
    bytes::lemma_le_bytes_len(s.timescale as int, 4);
    bytes::lemma_le_bytes_len(s.param0 as int, 4);
    bytes::lemma_le_bytes_len(s.param1 as int, 4);
    bytes::lemma_le_bytes_len(s.flags as int, 4);
    bytes::lemma_le_bytes_len(s.meta0 as int, 4);
    assert(b.subrange(pos, pos + 2) =~= t.subrange(0, 2));
    assert(t.subrange(0, 2) =~= bytes::le_bytes(s.id as int, 2));
    lemma_number_at(b, pos, 2, s.id as int);
    assert(b[pos + 2] == t[2]);
    assert(b[pos + 3] == t[3]);
    assert(b.subrange(pos + 4, pos + 8) =~= t.subrange(4, 8));
    assert(t.subrange(4, 8) =~= bytes::le_bytes(s.timescale as int, 4));
    lemma_number_at(b, pos + 4, 4, s.timescale as int);
    assert(b.subrange(pos + 8, pos + 12) =~= t.subrange(8, 12));
    assert(t.subrange(8, 12) =~= bytes::le_bytes(s.param0 as int, 4));
    lemma_number_at(b, pos + 8, 4, s.param0 as int);
    assert(b.subrange(pos + 12, pos + 16) =~= t.subrange(12, 16));
    assert(t.subrange(12, 16) =~= bytes::le_bytes(s.param1 as int, 4));
    lemma_number_at(b, pos + 12, 4, s.param1 as int);
    assert(b.subrange(pos + 16, pos + 20) =~= t.subrange(16, 20));
    assert(t.subrange(16, 20) =~= bytes::le_bytes(s.flags as int, 4));
    lemma_number_at(b, pos + 16, 4, s.flags as int);
    assert(b.subrange(pos + 20, pos + 24) =~= t.subrange(20, 24));
    assert(t.subrange(20, 24) =~= bytes::le_bytes(s.meta0 as int, 4));
    lemma_number_at(b, pos + 20, 4, s.meta0 as int);
}

proof fn lemma_epoch_at(b: Seq<u8>, pos: int, e: EpochIndex)
    requires
        0 <= pos,
        pos + 32 <= b.len(),
        b.subrange(pos, pos + 32) == epoch_bytes(e),
    ensures
        epoch_at(b, pos) == e,
{
    let t = epoch_bytes(e);
    bytes::lemma_le_bounds();
    bytes::lemma_le_bytes_len(e.id as int, 4);
    bytes::lemma_le_bytes_len(e.duration as int, 4);
    bytes::lemma_le_bytes_len(e.pts as int, 8);
    bytes::lemma_le_bytes_len(e.offset as int, 8);
    bytes::lemma_le_bytes_len(e.len as int, 8);
    assert(b.subrange(pos, pos + 4) =~= t.subrange(0, 4));
    assert(t.subrange(0, 4) =~= bytes::le_bytes(e.id as int, 4));
    lemma_number_at(b, pos, 4, e.id as int);
    assert(b.subrange(pos + 4, pos + 8) =~= t.subrange(4, 8));
    assert(t.subrange(4, 8) =~= bytes::le_bytes(e.duration as int, 4));
    lemma_number_at(b, pos + 4, 4, e.duration as int);
    assert(b.subrange(pos + 8, pos + 16) =~= t.subrange(8, 16));
    assert(t.subrange(8, 16) =~= bytes::le_bytes(e.pts as int, 8));
    lemma_number_at(b, pos + 8, 8, e.pts as int);
    assert(b.subrange(pos + 16, pos + 24) =~= t.subrange(16, 24));
    assert(t.subrange(16, 24) =~= bytes::le_bytes(e.offset as int, 8));
    lemma_number_at(b, pos + 16, 8, e.offset as int);
    assert(b.subrange(pos + 24, pos + 32) =~= t.subrange(24, 32));
    assert(t.subrange(24, 32) =~= bytes::le_bytes(e.len as int, 8));
    lemma_number_at(b, pos + 24, 8, e.len as int);
}

pub proof fn lemma_stream_bytes_len(s: StreamDesc)
    ensures
        stream_bytes(s).len() == 24,
{
    bytes::lemma_le_bytes_len(s.id as int, 2);
    bytes::lemma_le_bytes_len(s.timescale as int, 4);
    bytes::lemma_le_bytes_len(s.param0 as int, 4);
    bytes::lemma_le_bytes_len(s.param1 as int, 4);
    bytes::lemma_le_bytes_len(s.flags as int, 4);
    bytes::lemma_le_bytes_len(s.meta0 as int, 4);
}

pub proof fn lemma_epoch_bytes_len(e: EpochIndex)
    ensures
        epoch_bytes(e).len() == 32,
{
    bytes::lemma_le_bytes_len(e.id as int, 4);
    bytes::lemma_le_bytes_len(e.duration as int, 4);
    bytes::lemma_le_bytes_len(e.pts as int, 8);
    bytes::lemma_le_bytes_len(e.offset as int, 8);
    bytes::lemma_le_bytes_len(e.len as int, 8);
}

pub proof fn lemma_streams_bytes(list: Seq<StreamDesc>)
    ensures
        streams_bytes(list).len() == 24 * list.len(),
        forall|i: int|
            0 <= i < list.len() ==> streams_bytes(list).subrange(24 * i, 24 * i + 24)
                == stream_bytes(#[trigger] list[i]),
    decreases list.len(),
{
    if list.len() > 0 {
        let head = list.drop_last();
        lemma_streams_bytes(head);
        lemma_stream_bytes_len(list.last());
        assert forall|i: int| 0 <= i < list.len() implies streams_bytes(list).subrange(
            24 * i,
            24 * i + 24,
        ) == stream_bytes(#[trigger] list[i]) by {
            if i < head.len() {
                assert(head[i] == list[i]);
                assert(streams_bytes(list).subrange(24 * i, 24 * i + 24) =~= streams_bytes(
                    head,
                ).subrange(24 * i, 24 * i + 24));
            } else {
                assert(streams_bytes(list).subrange(24 * i, 24 * i + 24) =~= stream_bytes(
                    list.last(),
                ));
            }
        }
    }
}

pub proof fn lemma_epochs_bytes(list: Seq<EpochIndex>)
    ensures
        epochs_bytes(list).len() == 32 * list.len(),
        forall|i: int|
            0 <= i < list.len() ==> epochs_bytes(list).subrange(32 * i, 32 * i + 32)
                == epoch_bytes(#[trigger] list[i]),
    decreases list.len(),
{
    if list.len() > 0 {
        let head = list.drop_last();
        lemma_epochs_bytes(head);
        lemma_epoch_bytes_len(list.last());
        assert forall|i: int| 0 <= i < list.len() implies epochs_bytes(list).subrange(
            32 * i,
            32 * i + 32,
        ) == epoch_bytes(#[trigger] list[i]) by {
            if i < head.len() {
                assert(head[i] == list[i]);
                assert(epochs_bytes(list).subrange(32 * i, 32 * i + 32) =~= epochs_bytes(
                    head,
                ).subrange(32 * i, 32 * i + 32));
            } else {
                assert(epochs_bytes(list).subrange(32 * i, 32 * i + 32) =~= epoch_bytes(
                    list.last(),
                ));
            }
        }
    }
}

pub proof fn lemma_front_len(front: FrontModel)
    ensures
        front_body(front).len() == 12 + 24 * front.streams.len() + 32 * front.epochs.len(),
        front_bytes(front).len() == 16 + 24 * front.streams.len() + 32 * front.epochs.len(),
{
    lemma_streams_bytes(front.streams);
    lemma_epochs_bytes(front.epochs);
    bytes::lemma_le_bytes_len(1, 2);
    bytes::lemma_le_bytes_len(front.streams.len() as int, 2);
    bytes::lemma_le_bytes_len(front.epochs.len() as int, 4);
    bytes::lemma_le_bytes_len(scalar::crc_of(front_body(front)) as int, 4);
}

proof fn lemma_front_head(front: FrontModel)
    requires
        front.streams.len() <= u16::MAX,
        front.epochs.len() <= u32::MAX,
    ensures
        front_body(front).take(4) == front_magic(),
        number_at(front_body(front), 4, 2) == 1,
        number_at(front_body(front), 6, 2) == front.streams.len(),
        number_at(front_body(front), 8, 4) == front.epochs.len(),
{
    let (sc, ec) = (front.streams.len() as int, front.epochs.len() as int);
    let b = front_body(front);
    bytes::lemma_le_bounds();
    bytes::lemma_le_bytes_len(1, 2);
    bytes::lemma_le_bytes_len(sc, 2);
    bytes::lemma_le_bytes_len(ec, 4);
    lemma_front_len(front);
    assert(b.take(4) =~= front_magic());
    assert(b.subrange(4, 6) =~= bytes::le_bytes(1, 2));
    lemma_number_at(b, 4, 2, 1);
    assert(b.subrange(6, 8) =~= bytes::le_bytes(sc, 2));
    lemma_number_at(b, 6, 2, sc);
    assert(b.subrange(8, 12) =~= bytes::le_bytes(ec, 4));
    lemma_number_at(b, 8, 4, ec);
}

proof fn lemma_front_lists(front: FrontModel, b: Seq<u8>)
    requires
        b.len() >= front_body(front).len(),
        b.take(front_body(front).len() as int) == front_body(front),
    ensures
        streams_at(b, 12, front.streams.len() as int) == front.streams,
        kinds_known(b, 12, front.streams.len() as int),
        epochs_at(b, 12 + 24 * front.streams.len() as int, front.epochs.len() as int)
            == front.epochs,
{
    let (sc, ec) = (front.streams.len() as int, front.epochs.len() as int);
    let body = front_body(front);
    bytes::lemma_le_bytes_len(1, 2);
    bytes::lemma_le_bytes_len(sc, 2);
    bytes::lemma_le_bytes_len(ec, 4);
    lemma_front_len(front);
    lemma_streams_bytes(front.streams);
    lemma_epochs_bytes(front.epochs);
    let mid = 12 + 24 * sc;
    assert(body.subrange(12, mid) =~= streams_bytes(front.streams));
    assert(body.subrange(mid, mid + 32 * ec) =~= epochs_bytes(front.epochs));
    assert forall|i: int| 0 <= i < sc implies #[trigger] stream_at(b, 12 + 24 * i)
        == front.streams[i] && 1 <= b[12 + 24 * i + 2] <= 2 by {
        let p = 12 + 24 * i;
        assert(b.subrange(p, p + 24) =~= body.subrange(12, mid).subrange(24 * i, 24 * i + 24));
        lemma_stream_at(b, p, front.streams[i]);
    }
    assert(streams_at(b, 12, sc) =~= front.streams);
    assert forall|i: int| 0 <= i < sc implies 1 <= #[trigger] b[12 + 24 * i + 2] <= 2 by {
        assert(stream_at(b, 12 + 24 * i) == front.streams[i]);
    }
    assert forall|i: int| 0 <= i < ec implies #[trigger] epoch_at(b, mid + 32 * i)
        == front.epochs[i] by {
        let p = mid + 32 * i;
        assert(b.subrange(p, p + 32) =~= body.subrange(mid, mid + 32 * ec).subrange(
            32 * i,
            32 * i + 32,
        ));
        lemma_epoch_at(b, p, front.epochs[i]);
    }
    assert(epochs_at(b, mid, ec) =~= front.epochs);
}

/// A written front index reads back.
pub proof fn law_front_write_read(front: FrontModel)
    requires
        front_ok(front),
        front.streams.len() <= u16::MAX,
        front.epochs.len() <= u32::MAX,
        front_bytes(front).len() <= usize::MAX,
    ensures
        decoded_front(front_bytes(front), front.streams.len() as int) == Ok::<
            FrontModel,
            ContainerError,
        >(front),
{
    let (sc, ec) = (front.streams.len() as int, front.epochs.len() as int);
    let body = front_body(front);
    let b = front_bytes(front);
    let tail = bytes::le_bytes(scalar::crc_of(body) as int, 4);
    lemma_front_len(front);
    lemma_front_head(front);
    lemma_sealed(body);
    assert(b.take(4) =~= body.take(4));
    lemma_number_prefix(body, tail, 4, 2);
    lemma_number_prefix(body, tail, 6, 2);
    lemma_number_prefix(body, tail, 8, 4);
    lemma_front_lists(front, b);
}

proof fn lemma_packet_head(p: PacketModel)
    requires
        p.payload.len() <= u32::MAX,
    ensures
        packet_head(p).len() == 24,
        packet_head(p).take(4) == packet_magic(),
        packet_head(p)[4] == p.kind.byte(),
        packet_head(p)[5] == p.flags,
        number_at(packet_head(p), 6, 2) == p.stream_id,
        number_at(packet_head(p), 8, 8) == p.pts,
        number_at(packet_head(p), 16, 4) == p.duration,
        number_at(packet_head(p), 20, 4) == p.payload.len(),
{
    let b = packet_head(p);
    let n = p.payload.len() as int;
    bytes::lemma_le_bounds();
    bytes::lemma_le_bytes_len(p.stream_id as int, 2);
    bytes::lemma_le_bytes_len(p.pts as int, 8);
    bytes::lemma_le_bytes_len(p.duration as int, 4);
    bytes::lemma_le_bytes_len(n, 4);
    assert(b.take(4) =~= packet_magic());
    assert(b.subrange(6, 8) =~= bytes::le_bytes(p.stream_id as int, 2));
    lemma_number_at(b, 6, 2, p.stream_id as int);
    assert(b.subrange(8, 16) =~= bytes::le_bytes(p.pts as int, 8));
    lemma_number_at(b, 8, 8, p.pts as int);
    assert(b.subrange(16, 20) =~= bytes::le_bytes(p.duration as int, 4));
    lemma_number_at(b, 16, 4, p.duration as int);
    assert(b.subrange(20, 24) =~= bytes::le_bytes(n, 4));
    lemma_number_at(b, 20, 4, n);
}

pub proof fn lemma_packet_len(p: PacketModel)
    ensures
        packet_head(p).len() == 24,
        packet_bytes(p).len() == 32 + p.payload.len(),
{
    bytes::lemma_le_bytes_len(p.stream_id as int, 2);
    bytes::lemma_le_bytes_len(p.pts as int, 8);
    bytes::lemma_le_bytes_len(p.duration as int, 4);
    bytes::lemma_le_bytes_len(p.payload.len() as int, 4);
    bytes::lemma_le_bytes_len(scalar::crc_of(packet_head(p)) as int, 4);
    bytes::lemma_le_bytes_len(scalar::crc_of(p.payload) as int, 4);
}

/// A written packet reads back, whatever follows it.
pub proof fn law_packet_write_read(p: PacketModel, rest: Seq<u8>, max_packet: int)
    requires
        p.flags == 0,
        p.payload.len() <= u32::MAX,
        p.payload.len() <= max_packet,
        32 + p.payload.len() <= usize::MAX,
    ensures
        decoded_packet(packet_bytes(p) + rest, max_packet) == Ok::<
            (PacketModel, int),
            ContainerError,
        >((p, packet_bytes(p).len() as int)),
{
    let head = packet_head(p);
    let n = p.payload.len() as int;
    let b = packet_bytes(p) + rest;
    let tail = bytes::le_bytes(scalar::crc_of(head) as int, 4) + sealed(p.payload) + rest;
    lemma_packet_head(p);
    lemma_packet_len(p);
    lemma_sealed(head);
    lemma_sealed(p.payload);
    assert(b =~= head + tail);
    assert(b.take(4) =~= head.take(4));
    assert(b.take(24) =~= head);
    lemma_number_prefix(head, tail, 6, 2);
    lemma_number_prefix(head, tail, 8, 8);
    lemma_number_prefix(head, tail, 16, 4);
    lemma_number_prefix(head, tail, 20, 4);
    assert(b =~= sealed(head) + (sealed(p.payload) + rest));
    lemma_number_prefix(sealed(head), sealed(p.payload) + rest, 24, 4);
    assert(b.subrange(28, 28 + n) =~= p.payload) by {
        assert(b.subrange(28, 28 + n) =~= sealed(p.payload).take(n));
    }
    assert(b.subrange(28 + n, 32 + n) =~= sealed(p.payload).subrange(n, n + 4));
    assert(b[4] == head[4]);
    assert(b[5] == head[5]);
}

/// More input never changes what was read: a packet that was complete stays what it was, and so
/// does a refusal.
pub proof fn law_packet_prefix(b: Seq<u8>, rest: Seq<u8>, max_packet: int)
    requires
        decoded_packet(b, max_packet) != Err::<(PacketModel, int), ContainerError>(
            ContainerError::UnexpectedEof,
        ),
    ensures
        decoded_packet(b + rest, max_packet) == decoded_packet(b, max_packet),
{
    let c = b + rest;
    if b.len() >= 28 {
        assert(c.take(4) =~= b.take(4));
        assert(c.take(24) =~= b.take(24));
        lemma_number_prefix(b, rest, 24, 4);
        lemma_number_prefix(b, rest, 20, 4);
        lemma_number_prefix(b, rest, 6, 2);
        lemma_number_prefix(b, rest, 8, 8);
        lemma_number_prefix(b, rest, 16, 4);
        let len = number_at(b, 20, 4);
        if b.len() >= 32 + len {
            assert(0 <= len);
            lemma_number_prefix(b, rest, 28 + len, 4);
            assert(c.subrange(28, 28 + len) =~= b.subrange(28, 28 + len));
        }
    }
}

/// A packet takes at least 32 bytes, all of them from the input.
pub proof fn lemma_packet_size(b: Seq<u8>, max_packet: int)
    ensures
        decoded_packet(b, max_packet) matches Ok((p, n)) ==> 32 <= n <= b.len() && n <= usize::MAX
            && n == 32 + p.payload.len() && p.payload.len() <= max_packet,
{
}

/// A change of one byte of the payload of a packet is noticed.
pub proof fn law_payload_damage(p: PacketModel, rest: Seq<u8>, max_packet: int, i: int, v: u8)
    requires
        p.flags == 0,
        p.payload.len() <= u32::MAX,
        p.payload.len() <= max_packet,
        32 + p.payload.len() <= usize::MAX,
        0 <= i < p.payload.len(),
        v != p.payload[i],
    ensures
        decoded_packet((packet_bytes(p) + rest).update(28 + i, v), max_packet) == Err::<
            (PacketModel, int),
            ContainerError,
        >(ContainerError::PayloadChecksum),
{
    let n = p.payload.len() as int;
    let b = packet_bytes(p) + rest;
    let c = b.update(28 + i, v);
    law_packet_write_read(p, rest, max_packet);
    lemma_packet_len(p);
    assert(c.take(4) =~= b.take(4));
    assert(c.take(24) =~= b.take(24));
    assert(c.subrange(24, 28) =~= b.subrange(24, 28));
    assert(c.subrange(20, 24) =~= b.subrange(20, 24));
    assert(c.subrange(28 + n, 32 + n) =~= b.subrange(28 + n, 32 + n));
    assert(c.subrange(28, 28 + n) =~= p.payload.update(i, v));
    scalar::law_crc_detects_byte_change(p.payload, i, v);
}

// ---------------------------------------------------------------------------------------------
// Routing

/// The category that a packet's stream must have.
pub open spec fn wanted(kind: PacketKind) -> Option<StreamKind> {
    match kind {
        PacketKind::VideoFrame => Some(StreamKind::Video),
        PacketKind::AudioFrame => Some(StreamKind::Audio),
        PacketKind::EpochStart => None,
        PacketKind::Metadata => None,
    }
}

/// The descriptor from `i` on with this id.
pub open spec fn find_stream(streams: Seq<StreamDesc>, id: u16, i: int) -> Option<StreamDesc>
    decreases streams.len() - i,
{
    if i < 0 || i >= streams.len() {
        None
    } else if streams[i].id == id {
        Some(streams[i])
    } else {
        find_stream(streams, id, i + 1)
    }
}

/// The stream that a packet belongs to. A media packet must name a declared stream of its own
/// category.
pub open spec fn routed(streams: Seq<StreamDesc>, p: PacketModel) -> Result<
    Option<StreamDesc>,
    ContainerError,
> {
    match wanted(p.kind) {
        None => Ok(None),
        Some(kind) => match find_stream(streams, p.stream_id, 0) {
            None => Err(ContainerError::BadStream),
            Some(stream) => if stream.kind != kind {
                Err(ContainerError::BadStream)
            } else {
                Ok(Some(stream))
            },
        },
    }
}

pub proof fn lemma_find_stream(streams: Seq<StreamDesc>, k: int, i: int)
    requires
        stream_ids_distinct(streams),
        0 <= i <= k < streams.len(),
    ensures
        find_stream(streams, streams[k].id, i) == Some(streams[k]),
    decreases k - i,
{
    if i < k {
        assert(streams[i].id != streams[k].id);
        lemma_find_stream(streams, k, i + 1);
    }
}

pub proof fn lemma_find_none(streams: Seq<StreamDesc>, id: u16, i: int)
    requires
        0 <= i,
        forall|j: int| i <= j < streams.len() ==> (#[trigger] streams[j]).id != id,
    ensures
        find_stream(streams, id, i) is None,
    decreases streams.len() - i,
{
    if i < streams.len() {
        lemma_find_none(streams, id, i + 1);
    }
}

// ---------------------------------------------------------------------------------------------
// Epoch ranges and files

/// An epoch: its id, timestamp, duration and packets.
pub struct EpochRange {
    pub id: u32,
    pub pts: u64,
    pub duration: u32,
    pub bytes: Seq<u8>,
}

/// Why the packets of an epoch from `pos` on are refused, if they are. The first packet must start
/// this epoch, and no other packet may start one.
pub open spec fn range_error(bytes: Seq<u8>, id: u32, pos: int) -> Option<ContainerError>
    decreases bytes.len() - pos,
{
    if pos < 0 || pos >= bytes.len() {
        None
    } else {
        match decoded_packet(bytes.skip(pos), 134_217_728) {
            Err(e) => Some(e),
            Ok((p, n)) => if n <= 0 {
                Some(ContainerError::BadEpoch)
            } else if pos == 0 {
                if p.kind != PacketKind::EpochStart || p.payload.len() != 4 || bytes::le_value(
                    p.payload,
                ) != id {
                    Some(ContainerError::BadEpoch)
                } else {
                    range_error(bytes, id, pos + n)
                }
            } else if p.kind == PacketKind::EpochStart {
                Some(ContainerError::BadEpoch)
            } else {
                range_error(bytes, id, pos + n)
            },
        }
    }
}

/// Some epoch before `k` has this id.
pub open spec fn epoch_seen(epochs: Seq<EpochRange>, k: int, id: u32) -> bool {
    exists|j: int| 0 <= j < k && #[trigger] epochs[j].id == id
}

/// Why the epochs from `k` on are refused, if they are.
pub open spec fn ranges_error(epochs: Seq<EpochRange>, k: int) -> Option<ContainerError>
    decreases epochs.len() - k,
{
    if k < 0 || k >= epochs.len() {
        None
    } else if epochs[k].bytes.len() == 0 || epoch_seen(epochs, k, epochs[k].id) {
        Some(ContainerError::BadEpoch)
    } else {
        match range_error(epochs[k].bytes, epochs[k].id, 0) {
            Some(e) => Some(e),
            None => ranges_error(epochs, k + 1),
        }
    }
}

/// Why a packet from `pos` on cannot be routed, if one cannot.
pub open spec fn route_error(streams: Seq<StreamDesc>, bytes: Seq<u8>, pos: int) -> Option<
    ContainerError,
>
    decreases bytes.len() - pos,
{
    if pos < 0 || pos >= bytes.len() {
        None
    } else {
        match decoded_packet(bytes.skip(pos), 134_217_728) {
            Err(e) => Some(e),
            Ok((p, n)) => match routed(streams, p) {
                Err(e) => Some(e),
                Ok(_) => if n <= 0 {
                    Some(ContainerError::BadEpoch)
                } else {
                    route_error(streams, bytes, pos + n)
                },
            },
        }
    }
}

/// Why a packet of the epochs from `k` on cannot be routed, if one cannot.
pub open spec fn routes_error(streams: Seq<StreamDesc>, epochs: Seq<EpochRange>, k: int) -> Option<
    ContainerError,
>
    decreases epochs.len() - k,
{
    if k < 0 || k >= epochs.len() {
        None
    } else {
        match route_error(streams, epochs[k].bytes, 0) {
            Some(e) => Some(e),
            None => routes_error(streams, epochs, k + 1),
        }
    }
}

/// Why a file cannot be built, if it cannot.
pub open spec fn build_error(streams: Seq<StreamDesc>, epochs: Seq<EpochRange>) -> Option<
    ContainerError,
> {
    if streams.len() > u16::MAX || epochs.len() > u32::MAX {
        Some(ContainerError::ResourceLimit)
    } else {
        match ranges_error(epochs, 0) {
            Some(e) => Some(e),
            None => if !stream_ids_distinct(streams) {
                Some(ContainerError::BadFront)
            } else {
                routes_error(streams, epochs, 0)
            },
        }
    }
}

/// The packets of all epochs before `k`.
pub open spec fn payload_before(epochs: Seq<EpochRange>, k: int) -> Seq<u8>
    decreases k,
{
    if k <= 0 {
        Seq::empty()
    } else {
        payload_before(epochs, k - 1) + epochs[k - 1].bytes
    }
}

/// Where the packets start in a file with so many streams and epochs.
pub open spec fn file_base(streams: int, epochs: int) -> int {
    48 + 24 * streams + 32 * epochs
}

/// The index of epochs laid out one after the other.
pub open spec fn index_of(epochs: Seq<EpochRange>, base: int) -> Seq<EpochIndex> {
    Seq::new(
        epochs.len(),
        |k: int|
            EpochIndex {
                id: epochs[k].id,
                pts: epochs[k].pts,
                offset: (base + payload_before(epochs, k).len()) as u64,
                len: epochs[k].bytes.len() as u64,
                duration: epochs[k].duration,
            },
    )
}

/// The front index of a file.
pub open spec fn file_front(streams: Seq<StreamDesc>, epochs: Seq<EpochRange>) -> FrontModel {
    FrontModel {
        streams,
        epochs: index_of(epochs, file_base(streams.len() as int, epochs.len() as int)),
    }
}

/// The header of a file.
pub open spec fn file_header(streams: Seq<StreamDesc>, epochs: Seq<EpochRange>) -> FileHeader {
    FileHeader {
        flags: 1,
        stream_count: (streams.len() % 65536) as u16,
        front_len: (front_bytes(file_front(streams, epochs)).len() % 0x1_0000_0000) as u32,
    }
}

/// A file: header, front index, packets.
pub open spec fn file_bytes(streams: Seq<StreamDesc>, epochs: Seq<EpochRange>) -> Seq<u8> {
    header_bytes(file_header(streams, epochs)) + front_bytes(file_front(streams, epochs))
        + payload_before(epochs, epochs.len() as int)
}

/// The length of a file.
pub open spec fn file_len(streams: Seq<StreamDesc>, epochs: Seq<EpochRange>) -> int {
    file_base(streams.len() as int, epochs.len() as int) + payload_before(
        epochs,
        epochs.len() as int,
    ).len()
}

/// The header and front index that a file starts with, and where its packets start; or why the
/// file is refused.
pub open spec fn decoded_prefix(b: Seq<u8>) -> Result<(FileHeader, FrontModel, int), ContainerError> {
    match decoded_header(b) {
        Err(e) => Err(e),
        Ok(h) => if 32 + h.front_len > usize::MAX {
            Err(ContainerError::BadHeader)
        } else if b.len() < 32 + h.front_len {
            Err(ContainerError::UnexpectedEof)
        } else {
            match decoded_front(b.subrange(32, 32 + h.front_len), h.stream_count as int) {
                Err(e) => Err(e),
                Ok(front) => Ok((h, front, 32 + h.front_len)),
            }
        },
    }
}

pub proof fn lemma_payload_before(epochs: Seq<EpochRange>, k: int, n: int)
    requires
        0 <= k <= n <= epochs.len(),
    ensures
        payload_before(epochs, k).len() <= payload_before(epochs, n).len(),
        payload_before(epochs, n).take(payload_before(epochs, k).len() as int) == payload_before(
            epochs,
            k,
        ),
    decreases n - k,
{
    if k < n {
        lemma_payload_before(epochs, k, n - 1);
        let m = payload_before(epochs, k).len() as int;
        assert(payload_before(epochs, n).take(m) =~= payload_before(epochs, n - 1).take(m));
    } else {
        assert(payload_before(epochs, n).take(payload_before(epochs, n).len() as int)
            =~= payload_before(epochs, n));
    }
}

/// Each entry of the index points at the packets of its epoch.
proof fn lemma_index_entry(epochs: Seq<EpochRange>, base: int, k: int)
    requires
        0 <= base,
        0 <= k < epochs.len(),
        base + payload_before(epochs, epochs.len() as int).len() <= u64::MAX,
    ensures
        ({
            let e = index_of(epochs, base)[k];
            let all = payload_before(epochs, epochs.len() as int);
            &&& e.offset == base + payload_before(epochs, k).len()
            &&& e.len == epochs[k].bytes.len()
            &&& e.id == epochs[k].id
            &&& e.offset + e.len <= base + all.len()
            &&& all.subrange(e.offset - base, e.offset - base + e.len) == epochs[k].bytes
        }),
{
    let n = epochs.len() as int;
    let all = payload_before(epochs, n);
    lemma_payload_before(epochs, k, n);
    lemma_payload_before(epochs, k + 1, n);
    let m = payload_before(epochs, k).len() as int;
    let m1 = payload_before(epochs, k + 1).len() as int;
    assert(m1 == m + epochs[k].bytes.len());
    assert(all.subrange(m, m1) =~= all.take(m1).subrange(m, m1));
    assert(payload_before(epochs, k + 1).subrange(m, m1) =~= epochs[k].bytes);
}

proof fn lemma_file_front_ok(streams: Seq<StreamDesc>, epochs: Seq<EpochRange>)
    requires
        file_len(streams, epochs) <= u64::MAX,
        stream_ids_distinct(streams),
        forall|i: int| 0 <= i < streams.len() ==> stream_ok(#[trigger] streams[i]),
        forall|i: int, j: int|
            0 <= i < j < epochs.len() ==> (#[trigger] epochs[i]).id != (#[trigger] epochs[j]).id,
    ensures
        front_ok(file_front(streams, epochs)),
{
    let base = file_base(streams.len() as int, epochs.len() as int);
    let list = index_of(epochs, base);
    assert forall|i: int| 0 <= i < list.len() implies epoch_ok(#[trigger] list[i]) by {
        lemma_index_entry(epochs, base, i);
    }
    assert forall|i: int, j: int| 0 <= i < j < list.len() implies (#[trigger] list[i]).id != (
    #[trigger] list[j]).id by {
        assert(epochs[i].id != epochs[j].id);
    }
}

/// What a file starts with, for any front index and any bytes after it.
proof fn lemma_prefix(h: FileHeader, front: FrontModel, rest: Seq<u8>)
    requires
        front_ok(front),
        h.flags <= 1,
        h.stream_count == front.streams.len(),
        h.front_len == front_bytes(front).len(),
        front.epochs.len() <= u32::MAX,
        32 + front_bytes(front).len() <= usize::MAX,
    ensures
        decoded_prefix(header_bytes(h) + front_bytes(front) + rest) == Ok::<
            (FileHeader, FrontModel, int),
            ContainerError,
        >((h, front, 32 + h.front_len)),
        header_bytes(h).len() == 32,
{
    let f = front_bytes(front);
    let b = header_bytes(h) + f + rest;
    law_front_write_read(front);
    law_header_write_read(h, f + rest);
    assert(b =~= header_bytes(h) + (f + rest));
    assert(b.subrange(32, 32 + f.len() as int) =~= f);
}

/// A file reads back: its prefix gives the streams and an index whose entries follow one another
/// from the end of the prefix on, and each entry's bytes are the packets of its epoch.
#[verifier::spinoff_prover]
pub proof fn law_file_write_read(streams: Seq<StreamDesc>, epochs: Seq<EpochRange>)
    requires
        streams.len() <= u16::MAX,
        file_len(streams, epochs) <= usize::MAX,
        file_base(streams.len() as int, epochs.len() as int) <= u32::MAX,
        stream_ids_distinct(streams),
        forall|i: int| 0 <= i < streams.len() ==> stream_ok(#[trigger] streams[i]),
        forall|i: int, j: int|
            0 <= i < j < epochs.len() ==> (#[trigger] epochs[i]).id != (#[trigger] epochs[j]).id,
    ensures
        ({
            let base = file_base(streams.len() as int, epochs.len() as int);
            let b = file_bytes(streams, epochs);
            &&& decoded_prefix(b) == Ok::<(FileHeader, FrontModel, int), ContainerError>(
                (file_header(streams, epochs), file_front(streams, epochs), base),
            )
            &&& b.len() == file_len(streams, epochs)
            &&& forall|k: int|
                0 <= k < epochs.len() ==> {
                    let e = #[trigger] file_front(streams, epochs).epochs[k];
                    &&& e.offset == base + payload_before(epochs, k).len()
                    &&& e.offset + e.len <= b.len()
                    &&& b.subrange(e.offset as int, e.offset + e.len) == epochs[k].bytes
                }
        }),
{
    let base = file_base(streams.len() as int, epochs.len() as int);
    let front = file_front(streams, epochs);
    let h = file_header(streams, epochs);
    let b = file_bytes(streams, epochs);
    let all = payload_before(epochs, epochs.len() as int);
    lemma_front_len(front);
    lemma_file_front_ok(streams, epochs);
    assert(h.front_len == front_bytes(front).len());
    assert(h.stream_count == streams.len());
    lemma_prefix(h, front, all);
    assert forall|k: int| 0 <= k < epochs.len() implies {
        let e = #[trigger] front.epochs[k];
        &&& e.offset == base + payload_before(epochs, k).len()
        &&& e.offset + e.len <= b.len()
        &&& b.subrange(e.offset as int, e.offset + e.len) == epochs[k].bytes
    } by {
        lemma_index_entry(epochs, base, k);
        let e = front.epochs[k];
        assert(b.subrange(e.offset as int, e.offset + e.len) =~= all.subrange(
            e.offset - base,
            e.offset - base + e.len,
        ));
    }
}

pub proof fn lemma_ranges_from(epochs: Seq<EpochRange>, i: int, k: int)
    requires
        0 <= i <= k < epochs.len(),
        ranges_error(epochs, i) is None,
    ensures
        !epoch_seen(epochs, k, epochs[k].id),
        range_error(epochs[k].bytes, epochs[k].id, 0) is None,
        epochs[k].bytes.len() > 0,
    decreases k - i,
{
    if i < k {
        lemma_ranges_from(epochs, i + 1, k);
    }
}

/// Epochs that pass validation have distinct ids.
pub proof fn law_checked_ids(epochs: Seq<EpochRange>)
    requires
        ranges_error(epochs, 0) is None,
    ensures
        forall|i: int, j: int|
            0 <= i < j < epochs.len() ==> (#[trigger] epochs[i]).id != (#[trigger] epochs[j]).id,
{
    assert forall|i: int, j: int| 0 <= i < j < epochs.len() implies (#[trigger] epochs[i]).id != (
    #[trigger] epochs[j]).id by {
        lemma_ranges_from(epochs, 0, j);
        if epochs[i].id == epochs[j].id {
            assert(epoch_seen(epochs, j, epochs[j].id));
        }
    }
}

/// An epoch that passes validation starts with its own start packet.
pub proof fn law_checked_start(epochs: Seq<EpochRange>, k: int)
    requires
        ranges_error(epochs, 0) is None,
        0 <= k < epochs.len(),
    ensures
        decoded_packet(epochs[k].bytes, 134_217_728) matches Ok((p, n)) && p.kind
            == PacketKind::EpochStart && p.payload.len() == 4 && bytes::le_value(p.payload)
            == epochs[k].id,
{
    lemma_ranges_from(epochs, 0, k);
    assert(epochs[k].bytes.skip(0) =~= epochs[k].bytes);
    lemma_packet_size(epochs[k].bytes, 134_217_728);
}

/// A header is read from its own 32 bytes.
pub proof fn lemma_header_prefix(b: Seq<u8>)
    requires
        b.len() >= 32,
    ensures
        decoded_header(b.take(32)) == decoded_header(b),
{
    let a = b.take(32);
    let rest = b.skip(32);
    assert(b =~= a + rest);
    assert(a.take(8) =~= b.take(8));
    assert(a.take(28) =~= b.take(28));
    lemma_number_prefix(a, rest, 8, 2);
    lemma_number_prefix(a, rest, 10, 2);
    lemma_number_prefix(a, rest, 12, 4);
    lemma_number_prefix(a, rest, 16, 4);
    lemma_number_prefix(a, rest, 20, 2);
    lemma_number_prefix(a, rest, 22, 2);
    lemma_number_prefix(a, rest, 24, 4);
    lemma_number_prefix(a, rest, 28, 4);
}

} // verus!
