//! A file whose last byte was changed is refused.
use crate::bytes;
use crate::container::v1::syntax;
use crate::container::v1::ContainerError;
use crate::media::decode;
use crate::media::vectors;
use crate::media::{Backend, ClipModel, MediaError};
use vstd::prelude::*;

verus! {

/// The same bytes but for the last.
pub open spec fn ended(b: Seq<u8>, v: u8) -> Seq<u8> {
    b.update(b.len() - 1, v)
}

/// A packet with another last byte has another checksum.
proof fn lemma_last_packet(b: Seq<u8>, max_packet: int, v: u8)
    requires
        syntax::decoded_packet(b, max_packet) matches Ok((p, n)) && n == b.len(),
        v != b.last(),
    ensures
        syntax::decoded_packet(ended(b, v), max_packet) == Err::<
            (syntax::PacketModel, int),
            ContainerError,
        >(ContainerError::PayloadChecksum),
{
    let c = ended(b, v);
    let len = syntax::number_at(b, 20, 4);
    syntax::lemma_packet_size(b, max_packet);
    assert(c.take(4) =~= b.take(4));
    assert(c.take(24) =~= b.take(24));
    assert(c.subrange(24, 28) =~= b.subrange(24, 28));
    assert(c.subrange(20, 24) =~= b.subrange(20, 24));
    assert(c.subrange(28, 28 + len) =~= b.subrange(28, 28 + len));
    let x = b.subrange(28 + len, 28 + len + 4);
    let y = c.subrange(28 + len, 28 + len + 4);
    assert(x[0] == y[0] && x[1] == y[1] && x[2] == y[2] && x[3] == b.last() && y[3] == v);
    bytes::lemma_le_value_4(x);
    bytes::lemma_le_value_4(y);
}

/// A packet before the last byte stays what it is.
proof fn lemma_earlier_packet(b: Seq<u8>, max_packet: int, v: u8)
    requires
        syntax::decoded_packet(b, max_packet) matches Ok((p, n)) && n < b.len(),
    ensures
        syntax::decoded_packet(ended(b, v), max_packet) == syntax::decoded_packet(b, max_packet),
{
    let c = ended(b, v);
    let len = syntax::number_at(b, 20, 4);
    syntax::lemma_packet_size(b, max_packet);
    assert(c.take(4) =~= b.take(4));
    assert(c.take(24) =~= b.take(24));
    assert(c.subrange(24, 28) =~= b.subrange(24, 28));
    assert(c.subrange(20, 24) =~= b.subrange(20, 24));
    assert(c.subrange(6, 8) =~= b.subrange(6, 8));
    assert(c.subrange(8, 16) =~= b.subrange(8, 16));
    assert(c.subrange(16, 20) =~= b.subrange(16, 20));
    assert(c.subrange(28, 28 + len) =~= b.subrange(28, 28 + len));
    assert(c.subrange(28 + len, 28 + len + 4) =~= b.subrange(28 + len, 28 + len + 4));
}

/// The packets from `pos` on.
proof fn lemma_scan_ended(b: Seq<u8>, pos: int, v: u8)
    requires
        0 <= pos < b.len(),
        decode::scanned(b, pos).1 is None,
        v != b.last(),
    ensures
        decode::scanned(ended(b, v), pos).1 matches Some(
            MediaError::PacketAt(_, ContainerError::PayloadChecksum),
        ),
    decreases b.len() - pos,
{
    reveal(decode::scanned);
    let c = ended(b, v);
    let rest = b.skip(pos);
    assert(c.skip(pos) =~= ended(rest, v));
    syntax::lemma_packet_size(rest, 134_217_728);
    let (p, n) = syntax::decoded_packet(rest, 134_217_728)->Ok_0;
    if pos + n < b.len() {
        lemma_earlier_packet(rest, 134_217_728, v);
        lemma_scan_ended(b, pos + n, v);
    } else {
        lemma_last_packet(rest, 134_217_728, v);
    }
}

/// What a file starts with does not depend on a last byte behind it.
proof fn lemma_prefix_ended(backend: Backend, b: Seq<u8>, v: u8)
    requires
        decode::prefix_of(backend, b) matches Ok((front, n)) && n < b.len(),
    ensures
        decode::prefix_of(backend, ended(b, v)) == decode::prefix_of(backend, b),
{
    let c = ended(b, v);
    let (front, n) = decode::prefix_of(backend, b)->Ok_0;
    assert(c.take(32) =~= b.take(32));
    syntax::lemma_header_prefix(b);
    syntax::lemma_header_prefix(c);
    assert(c.subrange(32, n) =~= b.subrange(32, n));
}

/// A file that holds whole packets behind its index is refused once its last byte is another, by
/// either reader.
pub proof fn law_last_byte_refused(backend: Backend, b: Seq<u8>, v: u8)
    requires
        decode::prefix_of(backend, b) matches Ok((front, n)) && n < b.len() && decode::scanned(
            b,
            n,
        ).1 is None,
        v != b.last(),
    ensures
        decode::file_clip(backend, ended(b, v)) is Err,
        backend == Backend::Reference ==> decode::file_packets(ended(b, v)) matches Err(
            MediaError::PacketAt(_, ContainerError::PayloadChecksum),
        ),
{
    let (front, n) = decode::prefix_of(backend, b)->Ok_0;
    lemma_prefix_ended(backend, b, v);
    assert(n >= 32);
    lemma_scan_ended(b, n, v);
}

/// A file of which either reader has taken frames.
proof fn lemma_taken(file: Seq<u8>)
    requires
        decode::file_packets(file) is Ok,
        decode::file_clip(Backend::Production, file) matches Ok(clip) && clip.frames.len() > 0,
    ensures
        decode::prefix_of(Backend::Production, file) matches Ok((front, n)) && n < file.len()
            && decode::scanned(file, n).1 is None,
        decode::prefix_of(Backend::Reference, file) matches Ok((front, n)) && n < file.len()
            && decode::scanned(file, n).1 is None,
{
    let (front, n) = decode::prefix_of(Backend::Production, file)->Ok_0;
    assert(decode::prefix_of(Backend::Reference, file)->Ok_0.1 == n);
    assert(decode::scanned(file, n).0.len() > 0);
    assert(n < file.len()) by {
        reveal(decode::scanned);
    }
}

/// A video vector is a file that was read.
proof fn lemma_video(q: u16, file: Seq<u8>, clip: ClipModel)
    requires
        vectors::video_made(q) == Ok::<(Seq<u8>, ClipModel), MediaError>((file, clip)),
    ensures
        decode::file_packets(file) is Ok,
        decode::file_clip(Backend::Production, file) == Ok::<ClipModel, MediaError>(clip),
{
    reveal(vectors::video_made);
}

/// The file that the vectors damage.
proof fn lemma_source(made: vectors::VectorsModel) -> (file: Seq<u8>)
    requires
        vectors::vectors_made() == Ok::<vectors::VectorsModel, MediaError>(made),
    ensures
        made.corrupt == vectors::damaged(file),
        decode::file_packets(file) is Ok,
        decode::file_clip(Backend::Production, file) matches Ok(clip) && clip.frames.len() > 0,
{
    let (file, clip) = vectors::video_made(1)->Ok_0;
    lemma_video(1, file, clip);
    assert(clip.frames == vectors::source_clip().frames);
    assert(vectors::source_clip().frames.len() == 4);
    file
}

/// The vector that must be refused is refused, by either reader.
pub proof fn law_corrupt_vector_refused(made: vectors::VectorsModel)
    requires
        vectors::vectors_made() == Ok::<vectors::VectorsModel, MediaError>(made),
    ensures
        decode::file_clip(Backend::Production, made.corrupt) is Err,
        decode::file_clip(Backend::Reference, made.corrupt) is Err,
        decode::file_packets(made.corrupt) is Err,
{
    let file = lemma_source(made);
    lemma_taken(file);
    let w = file.last();
    assert(w ^ 0x80u8 != w) by (bit_vector);
    law_last_byte_refused(Backend::Production, file, w ^ 0x80u8);
    law_last_byte_refused(Backend::Reference, file, w ^ 0x80u8);
}

} // verus!
