//! Writing and reading of headers, front indexes and files.
use crate::bytes;
use crate::bytes::{
    get_u16_le, get_u32_le, get_u64_le, put_slice, put_u16_le, put_u32_le, put_u64_le,
};
use crate::container::v1::parser::{decode_packet_view_with, PacketView};
use crate::container::v1::syntax;
use crate::container::v1::{
    ContainerError, EpochIndex, FileHeader, Front, Packet, PacketKind, StreamDesc, StreamKind,
    VideoMeta, DEFAULT_MAX_PACKET,
};
use crate::kernels::scalar;
use crate::kernels::KernelSet;
use std::collections::{BTreeSet, HashMap};
use vstd::prelude::*;

verus! {

/// Computes the CRC-32C checksum used by the container.
pub fn crc32c(data: &[u8]) -> (r: u32)
    ensures
        r == scalar::crc_of(data@),
{
    KernelSet::auto().crc32c(data)
}

/// Computes CRC-32C with an explicitly selected kernel set.
pub fn crc32c_with(kernels: KernelSet, data: &[u8]) -> (r: u32)
    ensures
        r == scalar::crc_of(data@),
{
    kernels.crc32c(data)
}

/// Appends bytes and their checksum.
fn put_sealed(body: &Vec<u8>, out: &mut Vec<u8>)
    ensures
        final(out)@ == old(out)@ + syntax::sealed(body@),
{
    put_slice(body, out);
    put_u32_le(crc32c(body), out);
    assert(out@ =~= old(out)@ + syntax::sealed(body@));
}

/// Appends a fixed file header to `out`.
pub fn encode_header(h: &FileHeader, out: &mut Vec<u8>)
    ensures
        final(out)@ == old(out)@ + syntax::header_bytes(*h),
{
    let mut body: Vec<u8> = vec![65, 86, 69, 76, 85, 78, 69, 0];
    put_u16_le(1, &mut body);
    put_u16_le(0, &mut body);
    put_u32_le(h.flags, &mut body);
    put_u32_le(32, &mut body);
    put_u16_le(h.stream_count, &mut body);
    put_u16_le(0, &mut body);
    put_u32_le(h.front_len, &mut body);
    assert(body@ =~= syntax::header_body(*h));
    put_sealed(&body, out);
}

/// Whether bytes start with the file magic.
fn has_file_magic(b: &[u8]) -> (r: bool)
    requires
        b@.len() >= 8,
    ensures
        r == (b@.take(8) == syntax::file_magic()),
{
    let r: bool = b[0] == 65 && b[1] == 86 && b[2] == 69 && b[3] == 76 && b[4] == 85 && b[5] == 78
        && b[6] == 69 && b[7] == 0;
    proof {
        if r {
            assert(b@.take(8) =~= syntax::file_magic());
        } else {
            let (x, y) = (b@.take(8), syntax::file_magic());
            assert(x[0] != y[0] || x[1] != y[1] || x[2] != y[2] || x[3] != y[3] || x[4] != y[4]
                || x[5] != y[5] || x[6] != y[6] || x[7] != y[7]);
        }
    }
    r
}

/// Parses and validates a fixed file header.
pub fn decode_header(b: &[u8]) -> (r: Result<FileHeader, ContainerError>)
    ensures
        r == syntax::decoded_header(b@),
{
    if b.len() < 32 {
        return Err(ContainerError::UnexpectedEof);
    }
    if !has_file_magic(b) {
        return Err(ContainerError::BadMagic);
    }
    let major: u16 = get_u16_le(b, 8);
    if major != 1 {
        return Err(ContainerError::UnsupportedVersion(major));
    }
    let flags: u32 = get_u32_le(b, 12);
    if get_u16_le(b, 10) != 0 || flags > 1 || get_u32_le(b, 16) != 32 || get_u16_le(b, 22) != 0 {
        return Err(ContainerError::BadHeader);
    }
    assert(b@.subrange(0, 28) =~= b@.take(28));
    if crc32c(&b[0..28]) != get_u32_le(b, 28) {
        return Err(ContainerError::HeaderChecksum);
    }
    Ok(FileHeader { flags, stream_count: get_u16_le(b, 20), front_len: get_u32_le(b, 24) })
}

fn put_stream(s: &StreamDesc, out: &mut Vec<u8>)
    ensures
        final(out)@ == old(out)@ + syntax::stream_bytes(*s),
{
    put_u16_le(s.id, out);
    out.push(s.kind.code());
    out.push(s.codec);
    put_u32_le(s.timescale, out);
    put_u32_le(s.param0, out);
    put_u32_le(s.param1, out);
    put_u32_le(s.flags, out);
    put_u32_le(s.meta0, out);
    assert(out@ =~= old(out)@ + syntax::stream_bytes(*s));
}

fn put_epoch(e: &EpochIndex, out: &mut Vec<u8>)
    ensures
        final(out)@ == old(out)@ + syntax::epoch_bytes(*e),
{
    put_u32_le(e.id, out);
    put_u32_le(e.duration, out);
    put_u64_le(e.pts, out);
    put_u64_le(e.offset, out);
    put_u64_le(e.len, out);
    assert(out@ =~= old(out)@ + syntax::epoch_bytes(*e));
}

/// The low two bytes of a count.
fn low_u16(n: usize) -> (r: u16)
    ensures
        r == n % 0x1_0000,
        bytes::le_bytes(r as int, 2) == bytes::le_bytes(n as int, 2),
{
    proof {
        bytes::lemma_le_bytes_low(n as int);
    }
    (n % 0x1_0000) as u16
}

/// The low four bytes of a count.
fn low_u32(n: usize) -> (r: u32)
    ensures
        r == n as int % 0x1_0000_0000,
        bytes::le_bytes(r as int, 4) == bytes::le_bytes(n as int, 4),
{
    proof {
        bytes::lemma_le_bytes_low(n as int);
    }
    (n as u64 % 0x1_0000_0000) as u32
}

/// Serializes a front index.
pub fn encode_front(front: &Front) -> (r: Vec<u8>)
    ensures
        r@ == syntax::front_bytes(front.model()),
{
    let mut body: Vec<u8> = vec![65, 86, 70, 82];
    put_u16_le(1, &mut body);
    put_u16_le(low_u16(front.streams.len()), &mut body);
    put_u32_le(low_u32(front.epochs.len()), &mut body);
    let ghost head = body@;
    assert(head =~= syntax::front_magic() + bytes::le_bytes(1, 2) + bytes::le_bytes(
        front.streams@.len() as int,
        2,
    ) + bytes::le_bytes(front.epochs@.len() as int, 4));
    let mut i: usize = 0;
    assert(front.streams@.take(0) =~= Seq::empty());
    assert(body@ =~= head + syntax::streams_bytes(front.streams@.take(0)));
    while i < front.streams.len()
        invariant
            i <= front.streams@.len(),
            body@ == head + syntax::streams_bytes(front.streams@.take(i as int)),
        decreases front.streams@.len() - i,
    {
        put_stream(&front.streams[i], &mut body);
        proof {
            assert(front.streams@.take(i + 1).drop_last() =~= front.streams@.take(i as int));
            assert(body@ =~= head + syntax::streams_bytes(front.streams@.take(i + 1)));
        }
        i = i + 1;
    }
    assert(front.streams@.take(i as int) =~= front.streams@);
    let ghost middle = body@;
    let mut j: usize = 0;
    assert(front.epochs@.take(0) =~= Seq::empty());
    assert(body@ =~= middle + syntax::epochs_bytes(front.epochs@.take(0)));
    while j < front.epochs.len()
        invariant
            j <= front.epochs@.len(),
            body@ == middle + syntax::epochs_bytes(front.epochs@.take(j as int)),
        decreases front.epochs@.len() - j,
    {
        put_epoch(&front.epochs[j], &mut body);
        proof {
            assert(front.epochs@.take(j + 1).drop_last() =~= front.epochs@.take(j as int));
            assert(body@ =~= middle + syntax::epochs_bytes(front.epochs@.take(j + 1)));
        }
        j = j + 1;
    }
    assert(front.epochs@.take(j as int) =~= front.epochs@);
    assert(body@ =~= syntax::front_body(front.model()));
    let mut out: Vec<u8> = Vec::new();
    put_sealed(&body, &mut out);
    assert(out@ =~= syntax::front_bytes(front.model()));
    out
}

/// Whether bytes start with the front-index magic.
pub(crate) fn has_front_magic(b: &[u8]) -> (r: bool)
    requires
        b@.len() >= 4,
    ensures
        r == (b@.take(4) == syntax::front_magic()),
{
    let r: bool = b[0] == 65 && b[1] == 86 && b[2] == 70 && b[3] == 82;
    proof {
        if r {
            assert(b@.take(4) =~= syntax::front_magic());
        } else {
            let (x, y) = (b@.take(4), syntax::front_magic());
            assert(x[0] != y[0] || x[1] != y[1] || x[2] != y[2] || x[3] != y[3]);
        }
    }
    r
}

/// Reads one stream descriptor.
fn read_stream(b: &[u8], p: usize) -> (r: Result<StreamDesc, ContainerError>)
    requires
        p + 24 <= b@.len(),
    ensures
        match r {
            Ok(s) => 1 <= b@[p + 2] <= 2 && s == syntax::stream_at(b@, p as int)
                && syntax::stream_ok(s),
            Err(e) => e == ContainerError::BadFront && !(1 <= b@[p + 2] <= 2 && syntax::stream_ok(
                syntax::stream_at(b@, p as int),
            )),
        },
{
    assert(b.len() == b@.len());
    let kind: StreamKind = match StreamKind::try_from(b[p + 2]) {
        Ok(kind) => kind,
        Err(e) => {
            return Err(e);
        },
    };
    let s: StreamDesc = StreamDesc {
        id: get_u16_le(b, p),
        kind,
        codec: b[p + 3],
        timescale: get_u32_le(b, p + 4),
        param0: get_u32_le(b, p + 8),
        param1: get_u32_le(b, p + 12),
        flags: get_u32_le(b, p + 16),
        meta0: get_u32_le(b, p + 20),
    };
    if s.codec == 1 {
        match s.kind {
            StreamKind::Video => match VideoMeta::unpack(s.meta0) {
                Ok(_) => {},
                Err(e) => {
                    return Err(e);
                },
            },
            StreamKind::Audio => {
                if s.flags != 0 || s.meta0 != 0 {
                    return Err(ContainerError::BadFront);
                }
            },
        }
    }
    Ok(s)
}

/// Reads `n` stream descriptors.
fn read_streams(b: &[u8], n: usize) -> (r: Result<Vec<StreamDesc>, ContainerError>)
    requires
        12 + 24 * n <= b@.len(),
    ensures
        ({
            let list = syntax::streams_at(b@, 12, n as int);
            let ok = syntax::kinds_known(b@, 12, n as int) && (forall|i: int|
                0 <= i < n ==> syntax::stream_ok(#[trigger] list[i]))
                && syntax::stream_ids_distinct(list);
            match r {
                Ok(streams) => ok && streams@ == list,
                Err(e) => !ok && e == ContainerError::BadFront,
            }
        }),
{
    let ghost list = syntax::streams_at(b@, 12, n as int);
    let mut streams: Vec<StreamDesc> = Vec::new();
    let mut seen: BTreeSet<u16> = BTreeSet::new();
    let mut i: usize = 0;
    while i < n
        invariant
            12 + 24 * n <= b@.len(),
            i <= n,
            list == syntax::streams_at(b@, 12, n as int),
            streams@ == list.take(i as int),
            syntax::kinds_known(b@, 12, i as int),
            forall|j: int| 0 <= j < i ==> syntax::stream_ok(#[trigger] list[j]),
            syntax::stream_ids_distinct(list.take(i as int)),
            forall|id: u16| #[trigger]
                seen@.contains(id) <==> exists|j: int| 0 <= j < i && (#[trigger] list[j]).id == id,
        decreases n - i,
    {
        assert(b.len() == b@.len());
        let p: usize = 12 + 24 * i;
        let ghost before = seen@;
        let ghost next = list.take(i + 1);
        let id: u16 = get_u16_le(b, p);
        assert(list[i as int] == syntax::stream_at(b@, p as int));
        assert(list[i as int].id == id);
        if !seen.insert(id) {
            proof {
                let j = choose|j: int| 0 <= j < i && (#[trigger] list[j]).id == id;
                assert(list[j].id == list[i as int].id);
            }
            return Err(ContainerError::BadFront);
        }
        let s: StreamDesc = match read_stream(b, p) {
            Ok(s) => s,
            Err(e) => {
                proof {
                    if syntax::kinds_known(b@, 12, n as int) {
                        assert(1 <= b@[12 + 24 * i + 2] <= 2);
                        assert(!syntax::stream_ok(list[i as int]));
                    }
                }
                return Err(e);
            },
        };
        streams.push(s);
        proof {
            assert(next =~= list.take(i as int).push(s));
            assert forall|x: int, y: int| 0 <= x < y < next.len() implies (#[trigger] next[x]).id
                != (#[trigger] next[y]).id by {
                if y < i {
                    assert(list.take(i as int)[x].id != list.take(i as int)[y].id);
                } else {
                    assert(list[x].id != id) by {
                        if list[x].id == id {
                            assert(before.contains(id));
                        }
                    }
                }
            }
            assert forall|id2: u16| #[trigger] seen@.contains(id2) <==> exists|j: int|
                0 <= j < i + 1 && (#[trigger] list[j]).id == id2 by {
                if seen@.contains(id2) {
                    if id2 == id {
                        assert(list[i as int].id == id2);
                    } else {
                        assert(before.contains(id2));
                        let j = choose|j: int| 0 <= j < i && (#[trigger] list[j]).id == id2;
                        assert(list[j].id == id2);
                    }
                } else {
                    assert(!before.contains(id2));
                }
            }
            assert forall|k: int| 0 <= k < i + 1 implies 1 <= #[trigger] b@[12 + 24 * k + 2] <= 2 by {
                if k < i {
                } else {
                    assert(k == i);
                }
            }
        }
        i = i + 1;
    }
    assert(list.take(i as int) =~= list);
    Ok(streams)
}

/// Reads one index entry.
fn read_epoch(b: &[u8], p: usize) -> (r: Result<EpochIndex, ContainerError>)
    requires
        p + 32 <= b@.len(),
    ensures
        match r {
            Ok(e) => e == syntax::epoch_at(b@, p as int) && syntax::epoch_ok(e),
            Err(e) => e == ContainerError::BadFront && !syntax::epoch_ok(
                syntax::epoch_at(b@, p as int),
            ),
        },
{
    assert(b.len() == b@.len());
    let e: EpochIndex = EpochIndex {
        id: get_u32_le(b, p),
        pts: get_u64_le(b, p + 8),
        offset: get_u64_le(b, p + 16),
        len: get_u64_le(b, p + 24),
        duration: get_u32_le(b, p + 4),
    };
    if e.offset > u64::MAX - e.len {
        return Err(ContainerError::BadFront);
    }
    Ok(e)
}

/// Reads `n` index entries from `start` on.
fn read_epochs(b: &[u8], start: usize, n: usize) -> (r: Result<Vec<EpochIndex>, ContainerError>)
    requires
        start + 32 * n <= b@.len(),
    ensures
        ({
            let list = syntax::epochs_at(b@, start as int, n as int);
            let ok = (forall|i: int| 0 <= i < n ==> syntax::epoch_ok(#[trigger] list[i]))
                && syntax::epoch_ids_distinct(list);
            match r {
                Ok(epochs) => ok && epochs@ == list,
                Err(e) => !ok && e == ContainerError::BadFront,
            }
        }),
{
    let ghost list = syntax::epochs_at(b@, start as int, n as int);
    let mut epochs: Vec<EpochIndex> = Vec::new();
    let mut seen: BTreeSet<u32> = BTreeSet::new();
    let mut i: usize = 0;
    while i < n
        invariant
            start + 32 * n <= b@.len(),
            i <= n,
            list == syntax::epochs_at(b@, start as int, n as int),
            epochs@ == list.take(i as int),
            forall|j: int| 0 <= j < i ==> syntax::epoch_ok(#[trigger] list[j]),
            syntax::epoch_ids_distinct(list.take(i as int)),
            forall|id: u32| #[trigger]
                seen@.contains(id) <==> exists|j: int| 0 <= j < i && (#[trigger] list[j]).id == id,
        decreases n - i,
    {
        assert(b.len() == b@.len());
        let p: usize = start + 32 * i;
        let ghost before = seen@;
        let ghost next = list.take(i + 1);
        let id: u32 = get_u32_le(b, p);
        assert(list[i as int] == syntax::epoch_at(b@, p as int));
        assert(list[i as int].id == id);
        if !seen.insert(id) {
            proof {
                let j = choose|j: int| 0 <= j < i && (#[trigger] list[j]).id == id;
                assert(list[j].id == list[i as int].id);
            }
            return Err(ContainerError::BadFront);
        }
        let e: EpochIndex = match read_epoch(b, p) {
            Ok(e) => e,
            Err(e) => {
                assert(!syntax::epoch_ok(list[i as int]));
                return Err(e);
            },
        };
        epochs.push(e);
        proof {
            assert(next =~= list.take(i as int).push(e));
            assert forall|x: int, y: int| 0 <= x < y < next.len() implies (#[trigger] next[x]).id
                != (#[trigger] next[y]).id by {
                if y < i {
                    assert(list.take(i as int)[x].id != list.take(i as int)[y].id);
                } else {
                    assert(list[x].id != id) by {
                        if list[x].id == id {
                            assert(before.contains(id));
                        }
                    }
                }
            }
            assert forall|id2: u32| #[trigger] seen@.contains(id2) <==> exists|j: int|
                0 <= j < i + 1 && (#[trigger] list[j]).id == id2 by {
                if seen@.contains(id2) {
                    if id2 == id {
                        assert(list[i as int].id == id2);
                    } else {
                        assert(before.contains(id2));
                        let j = choose|j: int| 0 <= j < i && (#[trigger] list[j]).id == id2;
                        assert(list[j].id == id2);
                    }
                } else {
                    assert(!before.contains(id2));
                }
            }
        }
        i = i + 1;
    }
    assert(list.take(i as int) =~= list);
    Ok(epochs)
}

/// What reading a front index gives.
pub open spec fn front_result(
    spec: Result<syntax::FrontModel, ContainerError>,
    r: Result<Front, ContainerError>,
) -> bool {
    match r {
        Ok(front) => spec == Ok::<syntax::FrontModel, ContainerError>(front.model()),
        Err(e) => spec == Err::<syntax::FrontModel, ContainerError>(e),
    }
}

/// Parses and validates a front index for the expected stream count.
pub fn decode_front(b: &[u8], expected_streams: u16) -> (r: Result<Front, ContainerError>)
    ensures
        front_result(syntax::decoded_front(b@, expected_streams as int), r),
{
    if b.len() < 16 {
        return Err(ContainerError::UnexpectedEof);
    }
    if !has_front_magic(b) {
        return Err(ContainerError::BadFront);
    }
    if get_u16_le(b, 4) != 1 {
        return Err(ContainerError::BadFront);
    }
    let sc: u16 = get_u16_le(b, 6);
    let ec: u32 = get_u32_le(b, 8);
    if sc != expected_streams {
        return Err(ContainerError::BadFront);
    }
    let need: u64 = 16 + 24 * sc as u64 + 32 * ec as u64;
    if need > usize::MAX as u64 {
        return Err(ContainerError::BadFront);
    }
    let need: usize = need as usize;
    if b.len() < need {
        return Err(ContainerError::UnexpectedEof);
    }
    if b.len() > need {
        return Err(ContainerError::TrailingData);
    }
    assert(b@.subrange(0, need - 4) =~= b@.take(need - 4));
    if crc32c(&b[0..need - 4]) != get_u32_le(b, need - 4) {
        return Err(ContainerError::FrontChecksum);
    }
    let streams: Vec<StreamDesc> = match read_streams(b, sc as usize) {
        Ok(streams) => streams,
        Err(e) => {
            return Err(e);
        },
    };
    let epochs: Vec<EpochIndex> = match read_epochs(b, 12 + 24 * sc as usize, ec as usize) {
        Ok(epochs) => epochs,
        Err(e) => {
            return Err(e);
        },
    };
    Ok(Front { streams, epochs })
}

// ---------------------------------------------------------------------------------------------
// Routing

/// Positions of stream descriptors by id.
pub type StreamIndex = HashMap<u16, usize>;

/// The index finds exactly the descriptors of the list.
pub open spec fn indexes(index: Map<u16, usize>, streams: Seq<StreamDesc>) -> bool {
    &&& syntax::stream_ids_distinct(streams)
    &&& forall|i: int|
        0 <= i < streams.len() ==> index.contains_key((#[trigger] streams[i]).id)
            && index[streams[i].id] == i
    &&& forall|id: u16| #[trigger]
        index.contains_key(id) ==> index[id] < streams.len() && streams[index[id] as int].id == id
}

/// Builds the lookup table of a stream list.
pub fn build_stream_index(streams: &[StreamDesc]) -> (r: Result<StreamIndex, ContainerError>)
    ensures
        match r {
            Ok(index) => streams@.len() <= u16::MAX && indexes(index@, streams@),
            Err(e) => if streams@.len() > u16::MAX {
                e == ContainerError::ResourceLimit
            } else {
                !syntax::stream_ids_distinct(streams@) && e == ContainerError::BadFront
            },
        },
{
    if streams.len() > 65535 {
        return Err(ContainerError::ResourceLimit);
    }
    let mut index: StreamIndex = HashMap::with_capacity(streams.len());
    let mut i: usize = 0;
    while i < streams.len()
        invariant
            streams@.len() <= u16::MAX,
            i <= streams@.len(),
            indexes(index@, streams@.take(i as int)),
        decreases streams@.len() - i,
    {
        let ghost before = index@;
        let ghost head = streams@.take(i as int);
        let ghost next = streams@.take(i + 1);
        let id: u16 = streams[i].id;
        let previous: Option<usize> = index.insert(id, i);
        if previous.is_some() {
            proof {
                assert(before.contains_key(id));
                let j = before[id] as int;
                assert(head[j].id == id);
                assert(streams@[j].id == streams@[i as int].id);
            }
            return Err(ContainerError::BadFront);
        }
        proof {
            assert(!before.contains_key(id));
            assert(next =~= head.push(streams@[i as int]));
            assert forall|k: int| 0 <= k < next.len() implies index@.contains_key(
                (#[trigger] next[k]).id,
            ) && index@[next[k].id] == k by {
                if k < i {
                    assert(head[k] == next[k]);
                    assert(before.contains_key(head[k].id));
                }
            }
            assert forall|x: int, y: int| 0 <= x < y < next.len() implies (#[trigger] next[x]).id
                != (#[trigger] next[y]).id by {
                assert(head[x] == next[x]);
                assert(before.contains_key(head[x].id));
                if y < i {
                    assert(head[y] == next[y]);
                }
            }
            assert forall|id2: u16| #[trigger] index@.contains_key(id2) implies index@[id2]
                < next.len() && next[index@[id2] as int].id == id2 by {
                if id2 != id {
                    assert(before.contains_key(id2));
                    assert(head[before[id2] as int].id == id2);
                }
            }
        }
        i = i + 1;
    }
    assert(streams@.take(i as int) =~= streams@);
    Ok(index)
}

/// What routing a packet gives.
pub open spec fn route_result(
    spec: Result<Option<StreamDesc>, ContainerError>,
    r: Result<Option<&StreamDesc>, ContainerError>,
) -> bool {
    match r {
        Ok(None) => spec == Ok::<Option<StreamDesc>, ContainerError>(None),
        Ok(Some(stream)) => spec == Ok::<Option<StreamDesc>, ContainerError>(Some(*stream)),
        Err(e) => spec == Err::<Option<StreamDesc>, ContainerError>(e),
    }
}

/// Finds the stream that a packet belongs to.
pub fn packet_stream_indexed<'a>(
    streams: &'a [StreamDesc],
    index: &StreamIndex,
    packet: PacketView<'_>,
) -> (r: Result<Option<&'a StreamDesc>, ContainerError>)
    requires
        indexes(index@, streams@),
    ensures
        route_result(syntax::routed(streams@, packet.model()), r),
{
    let kind: StreamKind = match packet.kind {
        PacketKind::VideoFrame => StreamKind::Video,
        PacketKind::AudioFrame => StreamKind::Audio,
        _ => {
            return Ok(None);
        },
    };
    match index.get(&packet.stream_id) {
        None => {
            proof {
                assert forall|j: int| 0 <= j < streams@.len() implies (#[trigger] streams@[j]).id
                    != packet.stream_id by {
                    assert(index@.contains_key(streams@[j].id));
                }
                syntax::lemma_find_none(streams@, packet.stream_id, 0);
            }
            Err(ContainerError::BadStream)
        },
        Some(position) => {
            let at: usize = *position;
            proof {
                assert(index@.contains_key(packet.stream_id));
                syntax::lemma_find_stream(streams@, at as int, 0);
            }
            let stream: &'a StreamDesc = &streams[at];
            if stream.kind != kind {
                return Err(ContainerError::BadStream);
            }
            Ok(Some(stream))
        },
    }
}

// ---------------------------------------------------------------------------------------------
// Packets

/// Appends one framed, checksummed packet; a length is written by its low four bytes.
pub fn encode_packet(p: &Packet, out: &mut Vec<u8>)
    ensures
        final(out)@ == old(out)@ + syntax::packet_bytes(p.model()),
{
    let mut head: Vec<u8> = vec![65, 86, 80, 75];
    head.push(p.kind.code());
    head.push(p.flags);
    put_u16_le(p.stream_id, &mut head);
    put_u64_le(p.pts, &mut head);
    put_u32_le(p.duration, &mut head);
    put_u32_le(low_u32(p.payload.len()), &mut head);
    assert(head@ =~= syntax::packet_head(p.model()));
    put_sealed(&head, out);
    put_sealed(&p.payload, out);
    assert(out@ =~= old(out)@ + syntax::packet_bytes(p.model()));
}

/// Appends one framed, checksummed packet after validating fields that the packet header cannot
/// represent.
pub fn encode_packet_checked(p: &Packet, out: &mut Vec<u8>) -> (r: Result<(), ContainerError>)
    ensures
        match r {
            Ok(()) => p.flags == 0 && p.payload@.len() <= u32::MAX && final(out)@ == old(out)@
                + syntax::packet_bytes(p.model()),
            Err(e) => final(out)@ == old(out)@ && if p.flags != 0 {
                e == ContainerError::BadHeader
            } else {
                p.payload@.len() > u32::MAX && e == ContainerError::ResourceLimit
            },
        },
{
    if p.flags != 0 {
        return Err(ContainerError::BadHeader);
    }
    if p.payload.len() as u64 > 0xffff_ffff {
        return Err(ContainerError::ResourceLimit);
    }
    encode_packet(p, out);
    Ok(())
}

/// Parses one packet and returns an owned packet together with the consumed byte count.
pub fn decode_packet(b: &[u8], max_packet: usize) -> (r: Result<(Packet, usize), ContainerError>)
    ensures
        match r {
            Ok((packet, n)) => syntax::decoded_packet(b@, max_packet as int) == Ok::<
                (syntax::PacketModel, int),
                ContainerError,
            >((packet.model(), n as int)),
            Err(e) => syntax::decoded_packet(b@, max_packet as int) == Err::<
                (syntax::PacketModel, int),
                ContainerError,
            >(e),
        },
{
    match decode_packet_view_with(b, max_packet, KernelSet::auto()) {
        Ok((view, n)) => Ok((view.to_owned(), n)),
        Err(e) => Err(e),
    }
}

// ---------------------------------------------------------------------------------------------
// Files

/// Parses the fixed header plus complete front index from a file prefix.
pub fn parse_file_prefix(b: &[u8]) -> (r: Result<(FileHeader, Front, usize), ContainerError>)
    ensures
        match r {
            Ok((h, front, n)) => syntax::decoded_prefix(b@) == Ok::<
                (FileHeader, syntax::FrontModel, int),
                ContainerError,
            >((h, front.model(), n as int)),
            Err(e) => syntax::decoded_prefix(b@) == Err::<
                (FileHeader, syntax::FrontModel, int),
                ContainerError,
            >(e),
        },
{
    let h: FileHeader = match decode_header(b) {
        Ok(h) => h,
        Err(e) => {
            return Err(e);
        },
    };
    let len: usize = h.front_len as usize;
    if len > usize::MAX - 32 {
        return Err(ContainerError::BadHeader);
    }
    if b.len() < 32 + len {
        return Err(ContainerError::UnexpectedEof);
    }
    match decode_front(&b[32..32 + len], h.stream_count) {
        Ok(front) => Ok((h, front, 32 + len)),
        Err(e) => Err(e),
    }
}

/// The epochs of a file to be built.
pub open spec fn ranges(epochs: Seq<(u32, u64, u32, Vec<u8>)>) -> Seq<syntax::EpochRange> {
    Seq::new(
        epochs.len(),
        |k: int|
            syntax::EpochRange {
                id: epochs[k].0,
                pts: epochs[k].1,
                duration: epochs[k].2,
                bytes: epochs[k].3@,
            },
    )
}

/// Validates the packets of one epoch.
fn validate_epoch_range(bytes: &Vec<u8>, id: u32) -> (r: Result<(), ContainerError>)
    ensures
        match r {
            Ok(()) => syntax::range_error(bytes@, id, 0) is None,
            Err(e) => syntax::range_error(bytes@, id, 0) == Some(e),
        },
{
    let mut pos: usize = 0;
    while pos < bytes.len()
        invariant
            pos <= bytes@.len(),
            syntax::range_error(bytes@, id, 0) == syntax::range_error(bytes@, id, pos as int),
        decreases bytes@.len() - pos,
    {
        assert(bytes@.subrange(pos as int, bytes@.len() as int) =~= bytes@.skip(pos as int));
        let (packet, used): (PacketView, usize) = match decode_packet_view_with(
            &bytes.as_slice()[pos..bytes.len()],
            DEFAULT_MAX_PACKET,
            KernelSet::auto(),
        ) {
            Ok(found) => found,
            Err(e) => {
                return Err(e);
            },
        };
        if pos == 0 {
            if packet.kind != PacketKind::EpochStart || packet.payload.len() != 4 {
                return Err(ContainerError::BadEpoch);
            }
            assert(packet.payload@.subrange(0, 4) =~= packet.payload@);
            if get_u32_le(packet.payload, 0) != id {
                return Err(ContainerError::BadEpoch);
            }
        } else if packet.kind == PacketKind::EpochStart {
            return Err(ContainerError::BadEpoch);
        }
        pos = pos + used;
    }
    Ok(())
}

/// Validates complete indexed epoch byte ranges, including every packet CRC/framing boundary.
/// The first packet must be the matching EpochStart and no second EpochStart may appear inside
/// the same indexed range.
pub fn validate_epoch_ranges(epochs: &[(u32, u64, u32, Vec<u8>)]) -> (r: Result<(), ContainerError>)
    ensures
        match r {
            Ok(()) => syntax::ranges_error(ranges(epochs@), 0) is None,
            Err(e) => syntax::ranges_error(ranges(epochs@), 0) == Some(e),
        },
{
    let ghost list = ranges(epochs@);
    let mut seen: BTreeSet<u32> = BTreeSet::new();
    let mut k: usize = 0;
    while k < epochs.len()
        invariant
            list == ranges(epochs@),
            k <= epochs@.len(),
            syntax::ranges_error(list, 0) == syntax::ranges_error(list, k as int),
            forall|id: u32| #[trigger] seen@.contains(id) <==> syntax::epoch_seen(list, k as int, id),
        decreases epochs@.len() - k,
    {
        let epoch: &(u32, u64, u32, Vec<u8>) = &epochs[k];
        let id: u32 = epoch.0;
        let ghost before = seen@;
        assert(list[k as int].id == id && list[k as int].bytes == epoch.3@);
        if epoch.3.len() == 0 || !seen.insert(id) {
            return Err(ContainerError::BadEpoch);
        }
        proof {
            assert forall|id2: u32| #[trigger] seen@.contains(id2) <==> syntax::epoch_seen(
                list,
                k + 1,
                id2,
            ) by {
                if seen@.contains(id2) {
                    if id2 == id {
                        assert(list[k as int].id == id2);
                    } else {
                        assert(before.contains(id2));
                        let j = choose|j: int| 0 <= j < k && #[trigger] list[j].id == id2;
                        assert(list[j].id == id2);
                    }
                } else {
                    assert(!before.contains(id2));
                }
            }
        }
        match validate_epoch_range(&epoch.3, id) {
            Ok(()) => {},
            Err(e) => {
                return Err(e);
            },
        }
        k = k + 1;
    }
    Ok(())
}

/// Checks that every packet of an epoch can be routed.
fn validate_routes(streams: &Vec<StreamDesc>, index: &StreamIndex, bytes: &Vec<u8>) -> (r: Result<
    (),
    ContainerError,
>)
    requires
        indexes(index@, streams@),
    ensures
        match r {
            Ok(()) => syntax::route_error(streams@, bytes@, 0) is None,
            Err(e) => syntax::route_error(streams@, bytes@, 0) == Some(e),
        },
{
    let mut pos: usize = 0;
    while pos < bytes.len()
        invariant
            indexes(index@, streams@),
            pos <= bytes@.len(),
            syntax::route_error(streams@, bytes@, 0) == syntax::route_error(
                streams@,
                bytes@,
                pos as int,
            ),
        decreases bytes@.len() - pos,
    {
        assert(bytes@.subrange(pos as int, bytes@.len() as int) =~= bytes@.skip(pos as int));
        let (packet, used): (PacketView, usize) = match decode_packet_view_with(
            &bytes.as_slice()[pos..bytes.len()],
            DEFAULT_MAX_PACKET,
            KernelSet::auto(),
        ) {
            Ok(found) => found,
            Err(e) => {
                return Err(e);
            },
        };
        match packet_stream_indexed(streams.as_slice(), index, packet) {
            Ok(_) => {},
            Err(e) => {
                return Err(e);
            },
        }
        pos = pos + used;
    }
    Ok(())
}

/// Checks that every packet of every epoch can be routed.
fn validate_mux_streams(streams: &Vec<StreamDesc>, epochs: &Vec<(u32, u64, u32, Vec<u8>)>) -> (r:
    Result<(), ContainerError>)
    requires
        streams@.len() <= u16::MAX,
    ensures
        ({
            let error = if !syntax::stream_ids_distinct(streams@) {
                Some(ContainerError::BadFront)
            } else {
                syntax::routes_error(streams@, ranges(epochs@), 0)
            };
            match r {
                Ok(()) => error is None,
                Err(e) => error == Some(e),
            }
        }),
{
    let index: StreamIndex = match build_stream_index(streams.as_slice()) {
        Ok(index) => index,
        Err(e) => {
            return Err(e);
        },
    };
    let ghost list = ranges(epochs@);
    let mut k: usize = 0;
    while k < epochs.len()
        invariant
            indexes(index@, streams@),
            list == ranges(epochs@),
            k <= epochs@.len(),
            syntax::routes_error(streams@, list, 0) == syntax::routes_error(
                streams@,
                list,
                k as int,
            ),
        decreases epochs@.len() - k,
    {
        let epoch: &(u32, u64, u32, Vec<u8>) = &epochs[k];
        assert(list[k as int].bytes == epoch.3@);
        match validate_routes(streams, &index, &epoch.3) {
            Ok(()) => {},
            Err(e) => {
                return Err(e);
            },
        }
        k = k + 1;
    }
    Ok(())
}

/// Builds a complete file from stream descriptors and pre-encoded epoch byte ranges.
pub fn build_file(streams: Vec<StreamDesc>, epochs: Vec<(u32, u64, u32, Vec<u8>)>) -> (r: Vec<u8>)
    requires
        syntax::file_len(streams@, ranges(epochs@)) <= usize::MAX,
    ensures
        r@ == syntax::file_bytes(streams@, ranges(epochs@)),
{
    let ghost list = ranges(epochs@);
    let ghost base = syntax::file_base(streams@.len() as int, epochs@.len() as int);
    let count: usize = streams.len();
    let start: usize = 48 + 24 * count + 32 * epochs.len();
    let mut off: u64 = start as u64;
    let mut entries: Vec<EpochIndex> = Vec::new();
    let mut k: usize = 0;
    while k < epochs.len()
        invariant
            list == ranges(epochs@),
            k <= epochs@.len(),
            base + syntax::payload_before(list, epochs@.len() as int).len() <= usize::MAX,
            off == base + syntax::payload_before(list, k as int).len(),
            entries@ == syntax::index_of(list, base).take(k as int),
        decreases epochs@.len() - k,
    {
        let epoch: &(u32, u64, u32, Vec<u8>) = &epochs[k];
        proof {
            assert(list[k as int].bytes == epoch.3@);
            syntax::lemma_payload_before(list, k + 1, list.len() as int);
            assert(syntax::payload_before(list, k + 1).len() == syntax::payload_before(
                list,
                k as int,
            ).len() + epoch.3@.len());
        }
        entries.push(
            EpochIndex {
                id: epoch.0,
                pts: epoch.1,
                offset: off,
                len: epoch.3.len() as u64,
                duration: epoch.2,
            },
        );
        off = off + epoch.3.len() as u64;
        assert(entries@ =~= syntax::index_of(list, base).take(k + 1));
        k = k + 1;
    }
    assert(entries@ =~= syntax::index_of(list, base));
    let front: Front = Front { streams, epochs: entries };
    let front_data: Vec<u8> = encode_front(&front);
    assert(front.model() == syntax::file_front(front.streams@, list));
    let mut out: Vec<u8> = Vec::new();
    encode_header(
        &FileHeader {
            flags: 1,
            stream_count: low_u16(count),
            front_len: low_u32(front_data.len()),
        },
        &mut out,
    );
    put_slice(&front_data, &mut out);
    let ghost head = out@;
    let mut k: usize = 0;
    assert(out@ =~= head + syntax::payload_before(list, 0));
    while k < epochs.len()
        invariant
            list == ranges(epochs@),
            k <= epochs@.len(),
            out@ == head + syntax::payload_before(list, k as int),
        decreases epochs@.len() - k,
    {
        put_slice(&epochs[k].3, &mut out);
        proof {
            assert(list[k as int].bytes == epochs@[k as int].3@);
            assert(out@ =~= head + syntax::payload_before(list, k + 1));
        }
        k = k + 1;
    }
    assert(out@ =~= syntax::file_bytes(front.streams@, list));
    out
}

/// Checked builder: the epochs must be well framed and every packet must have its stream.
pub fn build_file_checked(streams: Vec<StreamDesc>, epochs: Vec<(u32, u64, u32, Vec<u8>)>) -> (r:
    Result<Vec<u8>, ContainerError>)
    requires
        syntax::file_len(streams@, ranges(epochs@)) <= usize::MAX,
    ensures
        match r {
            Ok(file) => syntax::build_error(streams@, ranges(epochs@)) is None && file@
                == syntax::file_bytes(streams@, ranges(epochs@)),
            Err(e) => syntax::build_error(streams@, ranges(epochs@)) == Some(e),
        },
{
    if streams.len() > 65535 || epochs.len() as u64 > 0xffff_ffff {
        return Err(ContainerError::ResourceLimit);
    }
    match validate_epoch_ranges(epochs.as_slice()) {
        Ok(()) => {},
        Err(e) => {
            return Err(e);
        },
    }
    match validate_mux_streams(&streams, &epochs) {
        Ok(()) => {},
        Err(e) => {
            return Err(e);
        },
    }
    Ok(build_file(streams, epochs))
}

} // verus!
