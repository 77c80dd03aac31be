//! Where the bytes of files and packets stand and what they mean.
use crate::bytes;
use crate::container::v1::syntax;
use crate::container::v1::{
    ContainerError, EpochIndex, FileHeader, PacketKind, StreamDesc, StreamKind,
};
use crate::kernels::scalar;
use vstd::prelude::*;

verus! {

// ---------------------------------------------------------------------------------------------
// Numbers

/// Two bytes, the lower first.
pub open spec fn two(b: Seq<u8>, at: int) -> int {
    b[at] + 256 * b[at + 1]
}

/// Four bytes, the lowest first.
pub open spec fn four(b: Seq<u8>, at: int) -> int {
    two(b, at) + 65536 * two(b, at + 2)
}

/// Eight bytes, the lowest first.
pub open spec fn eight(b: Seq<u8>, at: int) -> int {
    four(b, at) + 4294967296 * four(b, at + 4)
}

/// Numbers of two, four and eight bytes are read the lowest byte first.
pub proof fn law_numbers(b: Seq<u8>, at: int)
    requires
        0 <= at,
    ensures
        at + 2 <= b.len() ==> syntax::number_at(b, at, 2) == two(b, at) && 0 <= two(b, at) < 65536,
        at + 4 <= b.len() ==> syntax::number_at(b, at, 4) == four(b, at) && 0 <= four(b, at)
            < 4294967296,
        at + 8 <= b.len() ==> syntax::number_at(b, at, 8) == eight(b, at) && 0 <= eight(b, at)
            < 18446744073709551616,
{
    if at + 2 <= b.len() {
        bytes::lemma_le_value_2(b.subrange(at, at + 2));
    }
    if at + 4 <= b.len() {
        bytes::lemma_le_value_4(b.subrange(at, at + 4));
    }
    if at + 8 <= b.len() {
        let s = b.subrange(at, at + 8);
        bytes::lemma_le_value_split(s, 4);
        bytes::lemma_le_value_4(s.take(4));
        bytes::lemma_le_value_4(s.skip(4));
        bytes::lemma_le_bounds();
    }
}

// ---------------------------------------------------------------------------------------------
// Checksums

/// Bytes with their checksum behind them, the lowest byte first, have one checksum, whatever the
/// bytes: that of the Castagnoli polynomial.
pub proof fn law_checksum_residue(data: Seq<u8>)
    ensures
        scalar::crc_of(syntax::sealed(data)) == 0x4867_4bc7,
{
    let c = scalar::crc_run(0xffff_ffff, data);
    let x = !c;
    let tail = bytes::le_bytes(x as int, 4);
    reveal_with_fuel(bytes::le_bytes, 5);
    let (b0, b1, b2, b3) = (tail[0], tail[1], tail[2], tail[3]);
    assert(b0 == x as int % 256);
    assert(b1 == x as int / 256 % 256);
    assert(b2 == x as int / 256 / 256 % 256);
    assert(b3 == x as int / 256 / 256 / 256 % 256);
    assert(tail =~= seq![b0, b1, b2, b3]);
    let all = data + tail;
    lemma_run_push(data, b0);
    lemma_run_push(data.push(b0), b1);
    lemma_run_push(data.push(b0).push(b1), b2);
    lemma_run_push(data.push(b0).push(b1).push(b2), b3);
    assert(all =~= data.push(b0).push(b1).push(b2).push(b3));
    lemma_residue(c, b0, b1, b2, b3);
}

proof fn lemma_run_push(data: Seq<u8>, b: u8)
    ensures
        scalar::crc_run(0xffff_ffff, data.push(b)) == scalar::crc_byte(
            scalar::crc_run(0xffff_ffff, data),
            b,
        ),
{
    assert(data.push(b).drop_last() =~= data);
}

proof fn lemma_residue(c: u32, b0: u8, b1: u8, b2: u8, b3: u8)
    requires
        b0 == (!c) as int % 256,
        b1 == (!c) as int / 256 % 256,
        b2 == (!c) as int / 256 / 256 % 256,
        b3 == (!c) as int / 256 / 256 / 256 % 256,
    ensures
        !scalar::crc_byte(
            scalar::crc_byte(scalar::crc_byte(scalar::crc_byte(c, b0), b1), b2),
            b3,
        ) == 0x4867_4bc7u32,
{
    let x = !c;
    let (s0, s1, s2, s3) = (x % 256, x / 256 % 256, x / 256 / 256 % 256, x / 256 / 256 / 256 % 256);
    assert(s0 == x & 0xff && s1 == (x >> 8) & 0xff && s2 == (x >> 16) & 0xff && s3 == x >> 24)
        by (bit_vector)
        requires
            s0 == x % 256,
            s1 == x / 256 % 256,
            s2 == x / 256 / 256 % 256,
            s3 == x / 256 / 256 / 256 % 256,
    ;
    assert(b0 as u32 == s0 && b1 as u32 == s1 && b2 as u32 == s2 && b3 as u32 == s3);
    let a0 = c ^ (b0 as u32);
    let a1 = scalar::crc_bit(a0);
    let a2 = scalar::crc_bit(a1);
    let a3 = scalar::crc_bit(a2);
    let a4 = scalar::crc_bit(a3);
    let a5 = scalar::crc_bit(a4);
    let a6 = scalar::crc_bit(a5);
    let a7 = scalar::crc_bit(a6);
    let a8 = scalar::crc_bit(a7);
    let d0 = a8 ^ (b1 as u32);
    let d1 = scalar::crc_bit(d0);
    let d2 = scalar::crc_bit(d1);
    let d3 = scalar::crc_bit(d2);
    let d4 = scalar::crc_bit(d3);
    let d5 = scalar::crc_bit(d4);
    let d6 = scalar::crc_bit(d5);
    let d7 = scalar::crc_bit(d6);
    let d8 = scalar::crc_bit(d7);
    let e0 = d8 ^ (b2 as u32);
    let e1 = scalar::crc_bit(e0);
    let e2 = scalar::crc_bit(e1);
    let e3 = scalar::crc_bit(e2);
    let e4 = scalar::crc_bit(e3);
    let e5 = scalar::crc_bit(e4);
    let e6 = scalar::crc_bit(e5);
    let e7 = scalar::crc_bit(e6);
    let e8 = scalar::crc_bit(e7);
    let f0 = e8 ^ (b3 as u32);
    let f1 = scalar::crc_bit(f0);
    let f2 = scalar::crc_bit(f1);
    let f3 = scalar::crc_bit(f2);
    let f4 = scalar::crc_bit(f3);
    let f5 = scalar::crc_bit(f4);
    let f6 = scalar::crc_bit(f5);
    let f7 = scalar::crc_bit(f6);
    let f8 = scalar::crc_bit(f7);
    assert(a8 == (c >> 8) ^ 0xad7d_5351u32) by (bit_vector)
        requires
            x == !c,
            s0 == x & 0xff,
            a0 == c ^ s0,
            a1 == (if a0 & 1 == 1 { (a0 >> 1) ^ 0x82f6_3b78u32 } else { a0 >> 1 }),
            a2 == (if a1 & 1 == 1 { (a1 >> 1) ^ 0x82f6_3b78u32 } else { a1 >> 1 }),
            a3 == (if a2 & 1 == 1 { (a2 >> 1) ^ 0x82f6_3b78u32 } else { a2 >> 1 }),
            a4 == (if a3 & 1 == 1 { (a3 >> 1) ^ 0x82f6_3b78u32 } else { a3 >> 1 }),
            a5 == (if a4 & 1 == 1 { (a4 >> 1) ^ 0x82f6_3b78u32 } else { a4 >> 1 }),
            a6 == (if a5 & 1 == 1 { (a5 >> 1) ^ 0x82f6_3b78u32 } else { a5 >> 1 }),
            a7 == (if a6 & 1 == 1 { (a6 >> 1) ^ 0x82f6_3b78u32 } else { a6 >> 1 }),
            a8 == (if a7 & 1 == 1 { (a7 >> 1) ^ 0x82f6_3b78u32 } else { a7 >> 1 }),
    ;
    assert(!f8 == 0x4867_4bc7u32) by (bit_vector)
        requires
            x == !c,
            s1 == (x >> 8) & 0xff,
            s2 == (x >> 16) & 0xff,
            s3 == x >> 24,
            a8 == (c >> 8) ^ 0xad7d_5351u32,
            d0 == a8 ^ s1,
            d1 == (if d0 & 1 == 1 { (d0 >> 1) ^ 0x82f6_3b78u32 } else { d0 >> 1 }),
            d2 == (if d1 & 1 == 1 { (d1 >> 1) ^ 0x82f6_3b78u32 } else { d1 >> 1 }),
            d3 == (if d2 & 1 == 1 { (d2 >> 1) ^ 0x82f6_3b78u32 } else { d2 >> 1 }),
            d4 == (if d3 & 1 == 1 { (d3 >> 1) ^ 0x82f6_3b78u32 } else { d3 >> 1 }),
            d5 == (if d4 & 1 == 1 { (d4 >> 1) ^ 0x82f6_3b78u32 } else { d4 >> 1 }),
            d6 == (if d5 & 1 == 1 { (d5 >> 1) ^ 0x82f6_3b78u32 } else { d5 >> 1 }),
            d7 == (if d6 & 1 == 1 { (d6 >> 1) ^ 0x82f6_3b78u32 } else { d6 >> 1 }),
            d8 == (if d7 & 1 == 1 { (d7 >> 1) ^ 0x82f6_3b78u32 } else { d7 >> 1 }),
            e0 == d8 ^ s2,
            e1 == (if e0 & 1 == 1 { (e0 >> 1) ^ 0x82f6_3b78u32 } else { e0 >> 1 }),
            e2 == (if e1 & 1 == 1 { (e1 >> 1) ^ 0x82f6_3b78u32 } else { e1 >> 1 }),
            e3 == (if e2 & 1 == 1 { (e2 >> 1) ^ 0x82f6_3b78u32 } else { e2 >> 1 }),
            e4 == (if e3 & 1 == 1 { (e3 >> 1) ^ 0x82f6_3b78u32 } else { e3 >> 1 }),
            e5 == (if e4 & 1 == 1 { (e4 >> 1) ^ 0x82f6_3b78u32 } else { e4 >> 1 }),
            e6 == (if e5 & 1 == 1 { (e5 >> 1) ^ 0x82f6_3b78u32 } else { e5 >> 1 }),
            e7 == (if e6 & 1 == 1 { (e6 >> 1) ^ 0x82f6_3b78u32 } else { e6 >> 1 }),
            e8 == (if e7 & 1 == 1 { (e7 >> 1) ^ 0x82f6_3b78u32 } else { e7 >> 1 }),
            f0 == e8 ^ s3,
            f1 == (if f0 & 1 == 1 { (f0 >> 1) ^ 0x82f6_3b78u32 } else { f0 >> 1 }),
            f2 == (if f1 & 1 == 1 { (f1 >> 1) ^ 0x82f6_3b78u32 } else { f1 >> 1 }),
            f3 == (if f2 & 1 == 1 { (f2 >> 1) ^ 0x82f6_3b78u32 } else { f2 >> 1 }),
            f4 == (if f3 & 1 == 1 { (f3 >> 1) ^ 0x82f6_3b78u32 } else { f3 >> 1 }),
            f5 == (if f4 & 1 == 1 { (f4 >> 1) ^ 0x82f6_3b78u32 } else { f4 >> 1 }),
            f6 == (if f5 & 1 == 1 { (f5 >> 1) ^ 0x82f6_3b78u32 } else { f5 >> 1 }),
            f7 == (if f6 & 1 == 1 { (f6 >> 1) ^ 0x82f6_3b78u32 } else { f6 >> 1 }),
            f8 == (if f7 & 1 == 1 { (f7 >> 1) ^ 0x82f6_3b78u32 } else { f7 >> 1 }),
    ;
}

/// So many zeros.
pub open spec fn zeros(n: nat) -> Seq<u8> {
    Seq::new(n, |i: int| 0u8)
}

proof fn lemma_byte_gone(c: u32, b: u8)
    requires
        (c ^ (b as u32)) & 0xff == 0,
    ensures
        scalar::crc_byte(c, b) == (c ^ (b as u32)) >> 8,
{
    let a0 = c ^ (b as u32);
    let a1 = scalar::crc_bit(a0);
    let a2 = scalar::crc_bit(a1);
    let a3 = scalar::crc_bit(a2);
    let a4 = scalar::crc_bit(a3);
    let a5 = scalar::crc_bit(a4);
    let a6 = scalar::crc_bit(a5);
    let a7 = scalar::crc_bit(a6);
    let a8 = scalar::crc_bit(a7);
    assert(a8 == a0 >> 8) by (bit_vector)
        requires
            a0 & 0xff == 0,
            a1 == (if a0 & 1 == 1 { (a0 >> 1) ^ 0x82f6_3b78u32 } else { a0 >> 1 }),
            a2 == (if a1 & 1 == 1 { (a1 >> 1) ^ 0x82f6_3b78u32 } else { a1 >> 1 }),
            a3 == (if a2 & 1 == 1 { (a2 >> 1) ^ 0x82f6_3b78u32 } else { a2 >> 1 }),
            a4 == (if a3 & 1 == 1 { (a3 >> 1) ^ 0x82f6_3b78u32 } else { a3 >> 1 }),
            a5 == (if a4 & 1 == 1 { (a4 >> 1) ^ 0x82f6_3b78u32 } else { a4 >> 1 }),
            a6 == (if a5 & 1 == 1 { (a5 >> 1) ^ 0x82f6_3b78u32 } else { a5 >> 1 }),
            a7 == (if a6 & 1 == 1 { (a6 >> 1) ^ 0x82f6_3b78u32 } else { a6 >> 1 }),
            a8 == (if a7 & 1 == 1 { (a7 >> 1) ^ 0x82f6_3b78u32 } else { a7 >> 1 }),
    ;
}

/// Four bytes of ones wipe out what checksums start with: zeros behind them change nothing.
pub proof fn law_checksum_start(n: nat)
    ensures
        scalar::crc_of(seq![255u8, 255u8, 255u8, 255u8] + zeros(n)) == 0xffff_ffff,
{
    lemma_zero_run(n);
    assert(!0u32 == 0xffff_ffffu32) by (bit_vector);
}

proof fn lemma_zero_run(n: nat)
    ensures
        scalar::crc_run(0xffff_ffff, seq![255u8, 255u8, 255u8, 255u8] + zeros(n)) == 0,
    decreases n,
{
    let ones = seq![255u8, 255u8, 255u8, 255u8];
    if n == 0 {
        let e = Seq::<u8>::empty();
        lemma_run_push(e, 255);
        lemma_run_push(e.push(255), 255);
        lemma_run_push(e.push(255).push(255), 255);
        lemma_run_push(e.push(255).push(255).push(255), 255);
        assert(ones + zeros(0) =~= e.push(255).push(255).push(255).push(255));
        assert((0xffff_ffffu32 ^ 255u32) & 0xff == 0 && (0xffff_ffffu32 ^ 255u32) >> 8 == 0xff_ffff
            && (0xff_ffffu32 ^ 255u32) & 0xff == 0 && (0xff_ffffu32 ^ 255u32) >> 8 == 0xffff && (
        0xffffu32 ^ 255u32) & 0xff == 0 && (0xffffu32 ^ 255u32) >> 8 == 0xff && (0xffu32 ^ 255u32)
            & 0xff == 0 && (0xffu32 ^ 255u32) >> 8 == 0) by (bit_vector);
        lemma_byte_gone(0xffff_ffff, 255);
        lemma_byte_gone(0xff_ffff, 255);
        lemma_byte_gone(0xffff, 255);
        lemma_byte_gone(0xff, 255);
    } else {
        lemma_zero_run((n - 1) as nat);
        let before = ones + zeros((n - 1) as nat);
        lemma_run_push(before, 0);
        assert(ones + zeros(n) =~= before.push(0));
        assert((0u32 ^ 0u32) & 0xff == 0 && (0u32 ^ 0u32) >> 8 == 0) by (bit_vector);
        lemma_byte_gone(0, 0);
    }
}

// ---------------------------------------------------------------------------------------------
// Packets

/// The parts of a packet: four letters, its kind, a zero, its stream, time, duration and length, the
/// checksum of those, the payload, and the checksum of the payload.
pub open spec fn packet_stands(b: Seq<u8>, p: syntax::PacketModel) -> bool {
    let n = p.payload.len() as int;
    &&& b.len() >= 32 + n
    &&& b[0] == 65 && b[1] == 86 && b[2] == 80 && b[3] == 75
    &&& b[4] == match p.kind {
        PacketKind::EpochStart => 1int,
        PacketKind::VideoFrame => 2,
        PacketKind::AudioFrame => 3,
        PacketKind::Metadata => 4,
    }
    &&& b[5] == 0 && p.flags == 0
    &&& two(b, 6) == p.stream_id
    &&& eight(b, 8) == p.pts
    &&& four(b, 16) == p.duration
    &&& four(b, 20) == n
    &&& four(b, 24) == scalar::crc_of(b.take(24))
    &&& b.subrange(28, 28 + n) == p.payload
    &&& four(b, 28 + n) == scalar::crc_of(p.payload)
}

/// Bytes are read as a packet where, and only where, its parts stand in them one behind the other,
/// and the payload is no longer than allowed.
pub proof fn law_packet_layout(b: Seq<u8>, max_packet: int, p: syntax::PacketModel)
    requires
        b.len() <= usize::MAX,
    ensures
        (syntax::decoded_packet(b, max_packet) == Ok::<(syntax::PacketModel, int), ContainerError>(
            (p, 32 + p.payload.len() as int),
        )) <==> packet_stands(b, p) && p.payload.len() <= max_packet,
{
    law_numbers(b, 6);
    law_numbers(b, 8);
    law_numbers(b, 16);
    law_numbers(b, 20);
    law_numbers(b, 24);
    if b.len() >= 28 {
        law_numbers(b, 28 + four(b, 20));
        assert(b.take(4) == syntax::packet_magic() <==> b[0] == 65 && b[1] == 86 && b[2] == 80 && b[3]
            == 75) by {
            if b[0] == 65 && b[1] == 86 && b[2] == 80 && b[3] == 75 {
                assert(b.take(4) =~= syntax::packet_magic());
            } else {
                assert(b.take(4)[0] == b[0] && b.take(4)[1] == b[1] && b.take(4)[2] == b[2] && b.take(
                    4,
                )[3] == b[3]);
            }
        }
    }
}

// ---------------------------------------------------------------------------------------------
// Headers

/// The parts of a file header.
pub open spec fn header_stands(b: Seq<u8>, h: FileHeader) -> bool {
    &&& b.len() >= 32
    &&& b[0] == 65 && b[1] == 86 && b[2] == 69 && b[3] == 76
    &&& b[4] == 85 && b[5] == 78 && b[6] == 69 && b[7] == 0
    &&& two(b, 8) == 1
    &&& two(b, 10) == 0
    &&& four(b, 12) == h.flags && h.flags <= 1
    &&& four(b, 16) == 32
    &&& two(b, 20) == h.stream_count
    &&& two(b, 22) == 0
    &&& four(b, 24) == h.front_len
    &&& four(b, 28) == scalar::crc_of(b.take(28))
}

/// Bytes are read as a file header where, and only where, its parts stand in them.
pub proof fn law_header_layout(b: Seq<u8>, h: FileHeader)
    ensures
        (syntax::decoded_header(b) == Ok::<FileHeader, ContainerError>(h)) <==> header_stands(b, h),
{
    law_numbers(b, 8);
    law_numbers(b, 10);
    law_numbers(b, 12);
    law_numbers(b, 16);
    law_numbers(b, 20);
    law_numbers(b, 22);
    law_numbers(b, 24);
    law_numbers(b, 28);
    if b.len() >= 32 {
        let t = b.take(8);
        assert(t[0] == b[0] && t[1] == b[1] && t[2] == b[2] && t[3] == b[3] && t[4] == b[4] && t[5]
            == b[5] && t[6] == b[6] && t[7] == b[7]);
        if b[0] == 65 && b[1] == 86 && b[2] == 69 && b[3] == 76 && b[4] == 85 && b[5] == 78 && b[6]
            == 69 && b[7] == 0 {
            assert(t =~= syntax::file_magic());
        }
    }
}

/// The parts of a stream descriptor.
pub open spec fn stream_stands(b: Seq<u8>, at: int, s: StreamDesc) -> bool {
    &&& two(b, at) == s.id
    &&& b[at + 2] == match s.kind {
        StreamKind::Video => 1int,
        StreamKind::Audio => 2,
    }
    &&& b[at + 3] == s.codec
    &&& four(b, at + 4) == s.timescale
    &&& four(b, at + 8) == s.param0
    &&& four(b, at + 12) == s.param1
    &&& four(b, at + 16) == s.flags
    &&& four(b, at + 20) == s.meta0
}

/// The parts of an index entry.
pub open spec fn epoch_stands(b: Seq<u8>, at: int, e: EpochIndex) -> bool {
    &&& four(b, at) == e.id
    &&& four(b, at + 4) == e.duration
    &&& eight(b, at + 8) == e.pts
    &&& eight(b, at + 16) == e.offset
    &&& eight(b, at + 24) == e.len
}

/// In a front index that is accepted the descriptors follow twelve bytes, 24 bytes each, then the
/// entries, 32 bytes each, then the checksum of all that.
pub proof fn law_front_layout(b: Seq<u8>, expected: int, front: syntax::FrontModel)
    requires
        syntax::decoded_front(b, expected) == Ok::<syntax::FrontModel, ContainerError>(front),
    ensures
        b[0] == 65 && b[1] == 86 && b[2] == 70 && b[3] == 82,
        two(b, 4) == 1,
        two(b, 6) == front.streams.len() == expected,
        four(b, 8) == front.epochs.len(),
        b.len() == 16 + 24 * front.streams.len() + 32 * front.epochs.len(),
        four(b, b.len() - 4) == scalar::crc_of(b.take(b.len() - 4)),
        forall|i: int|
            0 <= i < front.streams.len() ==> stream_stands(
                b,
                12 + 24 * i,
                #[trigger] front.streams[i],
            ),
        forall|i: int|
            0 <= i < front.epochs.len() ==> epoch_stands(
                b,
                12 + 24 * front.streams.len() + 32 * i,
                #[trigger] front.epochs[i],
            ),
{
    law_numbers(b, 4);
    law_numbers(b, 6);
    law_numbers(b, 8);
    law_numbers(b, b.len() - 4);
    let t = b.take(4);
    assert(t[0] == b[0] && t[1] == b[1] && t[2] == b[2] && t[3] == b[3]);
    let n = front.streams.len() as int;
    assert forall|i: int| 0 <= i < n implies stream_stands(
        b,
        12 + 24 * i,
        #[trigger] front.streams[i],
    ) by {
        let at = 12 + 24 * i;
        assert(1 <= b[12 + 24 * i + 2] <= 2);
        law_numbers(b, at);
        law_numbers(b, at + 4);
        law_numbers(b, at + 8);
        law_numbers(b, at + 12);
        law_numbers(b, at + 16);
        law_numbers(b, at + 20);
    }
    assert forall|i: int| 0 <= i < front.epochs.len() implies epoch_stands(
        b,
        12 + 24 * n + 32 * i,
        #[trigger] front.epochs[i],
    ) by {
        let at = 12 + 24 * n + 32 * i;
        law_numbers(b, at);
        law_numbers(b, at + 4);
        law_numbers(b, at + 8);
        law_numbers(b, at + 16);
        law_numbers(b, at + 24);
    }
}

} // verus!
