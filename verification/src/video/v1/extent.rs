//! A packet is as long as it says: nothing of it can be left out, and nothing added.
use crate::bytes;
use crate::video::v1::history;
use crate::video::v1::syntax;
use crate::video::v1::VideoError;
use vstd::prelude::*;

verus! {

/// What can be read from the whole up to `n` is read in the same way from the first `n` bytes, and
/// the other way round; what goes further is missed there.
pub open spec fn cut_at<T>(
    whole: Result<(T, int), VideoError>,
    part: Result<(T, int), VideoError>,
    n: int,
) -> bool {
    &&& whole matches Ok((value, end)) ==> if end <= n {
        part == whole
    } else {
        part == Err::<(T, int), VideoError>(VideoError::UnexpectedEof)
    }
    &&& part is Ok ==> whole == part
}

pub proof fn lemma_chunk_cut(input: Seq<u8>, pos: int, n: int)
    requires
        0 <= pos,
        0 <= n <= input.len(),
    ensures
        cut_at(syntax::read_chunk(input, pos), syntax::read_chunk(input.take(n), pos), n),
        syntax::read_chunk(input, pos) matches Ok((chunk, end)) ==> pos + 4 <= end <= input.len(),
{
    if input.len() >= pos + 4 {
        if n >= pos + 4 {
            assert(input.take(n).subrange(pos, pos + 4) =~= input.subrange(pos, pos + 4));
            let end = pos + 4 + bytes::le_value(input.subrange(pos, pos + 4));
            if end <= n {
                assert(input.take(n).subrange(pos + 4, end) =~= input.subrange(pos + 4, end));
            }
        }
    }
}

pub proof fn lemma_envelope_cut(input: Seq<u8>, pos: int, n: int)
    requires
        0 <= pos,
        0 <= n <= input.len(),
    ensures
        cut_at(syntax::read_envelope(input, pos), syntax::read_envelope(input.take(n), pos), n),
        syntax::read_envelope(input, pos) matches Ok((envelope, end)) ==> pos < end <= input.len(),
{
    lemma_chunk_cut(input, pos + 1, n);
    if let Ok((first, at)) = syntax::read_chunk(input, pos + 1) {
        lemma_chunk_cut(input, at, n);
    }
}

proof fn lemma_envelopes_cut(input: Seq<u8>, pos: int, count: nat, n: int)
    requires
        0 <= pos,
        0 <= n <= input.len(),
    ensures
        count == 0 || cut_at(
            syntax::read_envelopes(input, pos, count),
            syntax::read_envelopes(input.take(n), pos, count),
            n,
        ),
        syntax::read_envelopes(input, pos, count) matches Ok((list, end)) ==> pos <= end && (count
            == 0 || end <= input.len()),
    decreases count,
{
    if count > 0 {
        lemma_envelope_cut(input, pos, n);
        if let Ok((first, at)) = syntax::read_envelope(input, pos) {
            lemma_envelopes_cut(input, at, (count - 1) as nat, n);
        }
    }
}

pub proof fn lemma_references_cut(
    input: Seq<u8>,
    pos: int,
    left: nat,
    frame_id: u64,
    w: int,
    h: int,
    references: Seq<(u64, syntax::Picture)>,
    ids: Seq<u64>,
    pictures: Seq<syntax::Picture>,
    n: int,
)
    requires
        0 <= pos <= n <= input.len(),
    ensures
        ({
            let whole = syntax::read_references(
                input,
                pos,
                left,
                frame_id,
                w,
                h,
                references,
                ids,
                pictures,
            );
            let part = syntax::read_references(
                input.take(n),
                pos,
                left,
                frame_id,
                w,
                h,
                references,
                ids,
                pictures,
            );
            &&& whole matches Ok((all, shown, end)) ==> pos <= end <= input.len() && if end <= n {
                part == whole
            } else {
                part == Err::<(Seq<u64>, Seq<syntax::Picture>, int), VideoError>(
                    VideoError::UnexpectedEof,
                )
            }
            &&& part is Ok ==> whole == part
        }),
    decreases left,
{
    if left > 0 && input.len() >= pos + 8 && n >= pos + 8 {
        assert(input.take(n).subrange(pos, pos + 8) =~= input.subrange(pos, pos + 8));
        let id = bytes::le_value(input.subrange(pos, pos + 8)) as u64;
        if let Some(picture) = syntax::find_reference(references, id, 0) {
            lemma_references_cut(
                input,
                pos + 8,
                (left - 1) as nat,
                frame_id,
                w,
                h,
                references,
                ids.push(id),
                pictures.push(picture),
                n,
            );
        }
    } else if left > 0 && input.len() >= pos + 8 {
        lemma_references_end(
            input,
            pos,
            left,
            frame_id,
            w,
            h,
            references,
            ids,
            pictures,
        );
    }
}

/// Where the references end.
pub proof fn lemma_references_end(
    input: Seq<u8>,
    pos: int,
    left: nat,
    frame_id: u64,
    w: int,
    h: int,
    references: Seq<(u64, syntax::Picture)>,
    ids: Seq<u64>,
    pictures: Seq<syntax::Picture>,
)
    requires
        pos <= input.len(),
    ensures
        syntax::read_references(
            input,
            pos,
            left,
            frame_id,
            w,
            h,
            references,
            ids,
            pictures,
        ) matches Ok((all, shown, end)) ==> end == pos + 8 * left && end <= input.len(),
    decreases left,
{
    if left > 0 && input.len() >= pos + 8 {
        let id = bytes::le_value(input.subrange(pos, pos + 8)) as u64;
        if let Some(picture) = syntax::find_reference(references, id, 0) {
            lemma_references_end(
                input,
                pos + 8,
                (left - 1) as nat,
                frame_id,
                w,
                h,
                references,
                ids.push(id),
                pictures.push(picture),
            );
        }
    }
}

/// The fields of a packet's first 20 bytes are there in any longer part of it.
pub proof fn lemma_fields_cut(input: Seq<u8>, n: int)
    requires
        20 <= n <= input.len(),
    ensures
        ({
            let part = input.take(n);
            &&& part.take(4) == input.take(4)
            &&& part.subrange(4, 12) == input.subrange(4, 12)
            &&& part.subrange(12, 14) == input.subrange(12, 14)
            &&& part.subrange(14, 16) == input.subrange(14, 16)
            &&& part.subrange(16, 18) == input.subrange(16, 18)
            &&& part[18] == input[18]
            &&& part[19] == input[19]
        }),
{
    let part = input.take(n);
    assert(part.take(4) =~= input.take(4));
    assert(part.subrange(4, 12) =~= input.subrange(4, 12));
    assert(part.subrange(12, 14) =~= input.subrange(12, 14));
    assert(part.subrange(14, 16) =~= input.subrange(14, 16));
    assert(part.subrange(16, 18) =~= input.subrange(16, 18));
}

/// Every truncation of an accepted packet is refused: there is too little of it.
pub proof fn law_truncation_refused(
    packet: Seq<u8>,
    references: Seq<(u64, syntax::Picture)>,
    bounds: syntax::Bounds,
    n: int,
)
    requires
        syntax::decoded_frame(packet, references, bounds) is Ok,
        0 <= n < packet.len(),
    ensures
        syntax::decoded_frame(packet.take(n), references, bounds) == Err::<
            (u64, syntax::Picture, Seq<u64>),
            VideoError,
        >(VideoError::UnexpectedEof),
        history::decoded_next(packet.take(n), references, bounds) == Err::<
            (u64, syntax::Picture, Seq<u64>),
            VideoError,
        >(VideoError::UnexpectedEof),
{
    if n >= 20 {
        lemma_fields_cut(packet, n);
        let frame_id = bytes::le_value(packet.subrange(4, 12)) as u64;
        let w = bytes::le_value(packet.subrange(12, 14)) as int;
        let h = bytes::le_value(packet.subrange(14, 16)) as int;
        let count = packet[18] as nat;
        let none = Seq::<u64>::empty();
        let blank = Seq::<syntax::Picture>::empty();
        lemma_references_cut(packet, 20, count, frame_id, w, h, references, none, blank, n);
        let (ids, pictures, at) = syntax::read_references(
            packet,
            20,
            count,
            frame_id,
            w,
            h,
            references,
            none,
            blank,
        )->Ok_0;
        lemma_envelopes_cut(packet, at, 3, n);
    }
}

/// A byte more than an accepted packet is noticed.
pub proof fn law_extension_refused(
    packet: Seq<u8>,
    references: Seq<(u64, syntax::Picture)>,
    bounds: syntax::Bounds,
    more: u8,
)
    requires
        syntax::decoded_frame(packet, references, bounds) is Ok,
    ensures
        syntax::decoded_frame(packet.push(more), references, bounds) == Err::<
            (u64, syntax::Picture, Seq<u64>),
            VideoError,
        >(VideoError::TrailingData),
        history::decoded_next(packet.push(more), references, bounds) == Err::<
            (u64, syntax::Picture, Seq<u64>),
            VideoError,
        >(VideoError::TrailingData),
{
    let longer = packet.push(more);
    let n = packet.len() as int;
    assert(longer.take(n) =~= packet);
    lemma_fields_cut(longer, n);
    let frame_id = bytes::le_value(packet.subrange(4, 12)) as u64;
    let w = bytes::le_value(packet.subrange(12, 14)) as int;
    let h = bytes::le_value(packet.subrange(14, 16)) as int;
    let count = packet[18] as nat;
    let none = Seq::<u64>::empty();
    let blank = Seq::<syntax::Picture>::empty();
    lemma_references_cut(longer, 20, count, frame_id, w, h, references, none, blank, n);
    let (ids, pictures, at) = syntax::read_references(
        packet,
        20,
        count,
        frame_id,
        w,
        h,
        references,
        none,
        blank,
    )->Ok_0;
    lemma_envelopes_cut(longer, at, 3, n);
}

} // verus!
