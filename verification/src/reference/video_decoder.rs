//! Decoder of ALV1 packets that reads and reconstructs plane after plane.
use crate::bitstream;
use crate::bytes;
use crate::kernels::KernelSet;
use crate::reference::bitstream::{entropy_decompress, BitstreamError};
use crate::reference::frame;
use crate::reference::frame::{planes, sizes};
use crate::video::v1::decoder;
use crate::video::v1::decoder::{decode_plane_into, decode_plane_single_into, has_magic, holds, read_chunk};
use crate::video::v1::prediction;
use crate::video::v1::extent;
use crate::video::v1::syntax;
use crate::video::v1::VideoError;
use vstd::prelude::*;

pub use crate::reference::frame::Frame420;

verus! {

/// Four-byte ALV1 packet magic.
pub const CODEC_MAGIC: [u8; 4] = [65, 76, 86, 49];

/// Errors of the reference decoder.
#[derive(Debug, Clone, Copy, PartialEq, Eq, Structural)]
pub enum Error {
    BadDimensions,
    UnexpectedEof,
    BadHeader,
    BadMode,
    BadQuantizer,
    ReferenceMissing(u64),
    ReferenceShape,
    Bitstream(BitstreamError),
    BadCoefficient,
    BadPalette,
    TrailingData,
}

/// The decoder's word for an error. Frames that were validated cannot be of the wrong length, and
/// there is no limit but that on dimensions.
pub open spec fn told(e: VideoError) -> Error {
    match e {
        VideoError::UnexpectedEof => Error::UnexpectedEof,
        VideoError::BadHeader => Error::BadHeader,
        VideoError::BadMode => Error::BadMode,
        VideoError::BadQuantizer => Error::BadQuantizer,
        VideoError::ReferenceMissing(id) => Error::ReferenceMissing(id),
        VideoError::ReferenceShape => Error::ReferenceShape,
        VideoError::Bitstream(b) => Error::Bitstream(b),
        VideoError::BadCoefficient => Error::BadCoefficient,
        VideoError::BadPalette => Error::BadPalette,
        VideoError::TrailingData => Error::TrailingData,
        _ => Error::BadDimensions,
    }
}

fn tell(e: VideoError) -> (r: Error)
    ensures
        r == told(e),
{
    match e {
        VideoError::UnexpectedEof => Error::UnexpectedEof,
        VideoError::BadHeader => Error::BadHeader,
        VideoError::BadMode => Error::BadMode,
        VideoError::BadQuantizer => Error::BadQuantizer,
        VideoError::ReferenceMissing(id) => Error::ReferenceMissing(id),
        VideoError::ReferenceShape => Error::ReferenceShape,
        VideoError::Bitstream(b) => Error::Bitstream(b),
        VideoError::BadCoefficient => Error::BadCoefficient,
        VideoError::BadPalette => Error::BadPalette,
        VideoError::TrailingData => Error::TrailingData,
        _ => Error::BadDimensions,
    }
}

/// The tokens of one plane, unpacked lane after lane, and the position behind them.
pub open spec fn lanes_at(input: Seq<u8>, pos: int) -> Result<(syntax::Lanes, int), VideoError> {
    if pos >= input.len() {
        Err(VideoError::UnexpectedEof)
    } else if input[pos] > 1 {
        Err(VideoError::BadHeader)
    } else {
        match syntax::read_chunk(input, pos + 1) {
            Err(e) => Err(e),
            Ok((first, at)) => if input[pos] == 1 && input.len() < at + 4 {
                Err(VideoError::UnexpectedEof)
            } else {
                match bitstream::syntax::decompressed(first, 8_388_608, true) {
                    Err(e) => Err(VideoError::Bitstream(e)),
                    Ok(lane) => if input[pos] == 0 {
                        Ok((syntax::Lanes::Single(lane), at))
                    } else {
                        match syntax::read_chunk(input, at) {
                            Err(e) => Err(e),
                            Ok((second, end)) => match bitstream::syntax::decompressed(
                                second,
                                8_388_608,
                                true,
                            ) {
                                Err(e) => Err(VideoError::Bitstream(e)),
                                Ok(data) => Ok((syntax::Lanes::Split(lane, data), end)),
                            },
                        }
                    },
                }
            },
        }
    }
}

/// Plane `p`, and the position behind it.
#[verifier::opaque]
pub open spec fn plane_at(
    input: Seq<u8>,
    pos: int,
    refs: Seq<syntax::Picture>,
    p: int,
    w: int,
    h: int,
    q: int,
) -> Result<(Seq<u8>, int), VideoError> {
    match lanes_at(input, pos) {
        Err(e) => Err(e),
        Ok((lanes, end)) => match syntax::decoded_plane(
            lanes,
            syntax::planes_of(refs, p),
            syntax::plane_len(w, p),
            syntax::plane_len(h, p),
            q,
        ) {
            Err(e) => Err(e),
            Ok(plane) => Ok((plane, end)),
        },
    }
}

/// The three planes, and the position behind them.
pub open spec fn planes_at(
    input: Seq<u8>,
    pos: int,
    refs: Seq<syntax::Picture>,
    w: int,
    h: int,
    q: int,
) -> Result<(syntax::Picture, int), VideoError> {
    match plane_at(input, pos, refs, 0, w, h, q) {
        Err(e) => Err(e),
        Ok((y, at)) => match plane_at(input, at, refs, 1, w, h, q) {
            Err(e) => Err(e),
            Ok((u, next)) => match plane_at(input, next, refs, 2, w, h, q) {
                Err(e) => Err(e),
                Ok((v, end)) => Ok((syntax::Picture { width: w, height: h, y, u, v }, end)),
            },
        },
    }
}

/// The frame that a packet holds: its id, the picture and the ids of the pictures it was
/// predicted from; or why the packet is refused.
pub open spec fn decoded_frame(input: Seq<u8>, references: Seq<(u64, syntax::Picture)>) -> Result<
    (u64, syntax::Picture, Seq<u64>),
    VideoError,
> {
    if input.len() < 20 {
        Err(VideoError::UnexpectedEof)
    } else if input.take(4) != syntax::magic() {
        Err(VideoError::BadHeader)
    } else {
        let frame_id = bytes::le_value(input.subrange(4, 12)) as u64;
        let w = bytes::le_value(input.subrange(12, 14)) as int;
        let h = bytes::le_value(input.subrange(14, 16)) as int;
        let q = bytes::le_value(input.subrange(16, 18)) as int;
        let count = input[18] as nat;
        if q == 0 {
            Err(VideoError::BadQuantizer)
        } else if !frame::dimensions_ok(w, h) {
            Err(VideoError::BadDimensions)
        } else if count > 4 || input[19] != 1 {
            Err(VideoError::BadHeader)
        } else {
            match syntax::read_references(
                input,
                20,
                count,
                frame_id,
                w,
                h,
                references,
                Seq::empty(),
                Seq::empty(),
            ) {
                Err(e) => Err(e),
                Ok((ids, pictures, at)) => match planes_at(input, at, pictures, w, h, q) {
                    Err(e) => Err(e),
                    Ok((picture, end)) => if end != input.len() {
                        Err(VideoError::TrailingData)
                    } else {
                        Ok((frame_id, picture, ids))
                    },
                },
            }
        }
    }
}

// ---------------------------------------------------------------------------------------------
// Laws

proof fn lemma_lanes_cut(input: Seq<u8>, pos: int, n: int)
    requires
        0 <= pos,
        0 <= n <= input.len(),
    ensures
        extent::cut_at(lanes_at(input, pos), lanes_at(input.take(n), pos), n),
        lanes_at(input, pos) matches Ok((lanes, end)) ==> pos < end,
{
    extent::lemma_chunk_cut(input, pos + 1, n);
    if let Ok((first, at)) = syntax::read_chunk(input, pos + 1) {
        extent::lemma_chunk_cut(input, at, n);
    }
}

proof fn lemma_plane_cut(
    input: Seq<u8>,
    pos: int,
    refs: Seq<syntax::Picture>,
    p: int,
    w: int,
    h: int,
    q: int,
    n: int,
)
    requires
        0 <= pos,
        0 <= n <= input.len(),
    ensures
        extent::cut_at(
            plane_at(input, pos, refs, p, w, h, q),
            plane_at(input.take(n), pos, refs, p, w, h, q),
            n,
        ),
        plane_at(input, pos, refs, p, w, h, q) matches Ok((plane, end)) ==> pos < end,
{
    reveal(plane_at);
    lemma_lanes_cut(input, pos, n);
}

proof fn lemma_planes_cut(
    input: Seq<u8>,
    pos: int,
    refs: Seq<syntax::Picture>,
    w: int,
    h: int,
    q: int,
    n: int,
)
    requires
        0 <= pos,
        0 <= n <= input.len(),
    ensures
        extent::cut_at(
            planes_at(input, pos, refs, w, h, q),
            planes_at(input.take(n), pos, refs, w, h, q),
            n,
        ),
{
    lemma_plane_cut(input, pos, refs, 0, w, h, q, n);
    if let Ok((y, at)) = plane_at(input, pos, refs, 0, w, h, q) {
        lemma_plane_cut(input, at, refs, 1, w, h, q, n);
        if let Ok((u, next)) = plane_at(input, at, refs, 1, w, h, q) {
            lemma_plane_cut(input, next, refs, 2, w, h, q, n);
        }
    }
}

/// A packet and the first `n` bytes of it are read alike up to where the planes end.
proof fn lemma_frame_cut(
    input: Seq<u8>,
    references: Seq<(u64, syntax::Picture)>,
    n: int,
) -> (read: (Seq<u64>, Seq<syntax::Picture>, int))
    requires
        20 <= n <= input.len(),
        decoded_frame(input, references) is Ok || decoded_frame(input.take(n), references) is Ok,
    ensures
        ({
            let (ids, pictures, at) = read;
            let frame_id = bytes::le_value(input.subrange(4, 12)) as u64;
            let w = bytes::le_value(input.subrange(12, 14)) as int;
            let h = bytes::le_value(input.subrange(14, 16)) as int;
            let q = bytes::le_value(input.subrange(16, 18)) as int;
            let count = input[18] as nat;
            let whole = syntax::read_references(
                input,
                20,
                count,
                frame_id,
                w,
                h,
                references,
                Seq::empty(),
                Seq::empty(),
            );
            let part = syntax::read_references(
                input.take(n),
                20,
                count,
                frame_id,
                w,
                h,
                references,
                Seq::empty(),
                Seq::empty(),
            );
            &&& whole == Ok::<(Seq<u64>, Seq<syntax::Picture>, int), VideoError>(read)
            &&& if at <= n {
                part == whole
            } else {
                part == Err::<(Seq<u64>, Seq<syntax::Picture>, int), VideoError>(
                    VideoError::UnexpectedEof,
                )
            }
            &&& extent::cut_at(
                planes_at(input, at, pictures, w, h, q),
                planes_at(input.take(n), at, pictures, w, h, q),
                n,
            )
        }),
{
    extent::lemma_fields_cut(input, n);
    let frame_id = bytes::le_value(input.subrange(4, 12)) as u64;
    let w = bytes::le_value(input.subrange(12, 14)) as int;
    let h = bytes::le_value(input.subrange(14, 16)) as int;
    let q = bytes::le_value(input.subrange(16, 18)) as int;
    let count = input[18] as nat;
    let none = Seq::<u64>::empty();
    let blank = Seq::<syntax::Picture>::empty();
    extent::lemma_references_cut(input, 20, count, frame_id, w, h, references, none, blank, n);
    let read = syntax::read_references(
        input,
        20,
        count,
        frame_id,
        w,
        h,
        references,
        none,
        blank,
    )->Ok_0;
    lemma_planes_cut(input, read.2, read.1, w, h, q, n);
    read
}

/// Every truncation of an accepted packet is refused: there is too little of it.
pub proof fn law_truncation_refused(
    packet: Seq<u8>,
    references: Seq<(u64, syntax::Picture)>,
    n: int,
)
    requires
        decoded_frame(packet, references) is Ok,
        0 <= n < packet.len(),
    ensures
        decoded_frame(packet.take(n), references) == Err::<
            (u64, syntax::Picture, Seq<u64>),
            VideoError,
        >(VideoError::UnexpectedEof),
{
    if n >= 20 {
        extent::lemma_fields_cut(packet, n);
        let read = lemma_frame_cut(packet, references, n);
    }
}

/// A byte more than an accepted packet is noticed.
pub proof fn law_extension_refused(
    packet: Seq<u8>,
    references: Seq<(u64, syntax::Picture)>,
    more: u8,
)
    requires
        decoded_frame(packet, references) is Ok,
    ensures
        decoded_frame(packet.push(more), references) == Err::<
            (u64, syntax::Picture, Seq<u64>),
            VideoError,
        >(VideoError::TrailingData),
{
    let longer = packet.push(more);
    let n = packet.len() as int;
    assert(longer.take(n) =~= packet);
    extent::lemma_fields_cut(longer, n);
    let read = lemma_frame_cut(longer, references, n);
}

proof fn lemma_more_room(input: Seq<u8>, max: nat)
    requires
        max <= 8_388_608,
    ensures
        bitstream::syntax::decompressed(input, max, false) matches Ok(data)
            ==> bitstream::syntax::decompressed(input, 8_388_608, true) == Ok::<
            Seq<u8>,
            BitstreamError,
        >(data),
{
}

proof fn lemma_plane_agrees(
    input: Seq<u8>,
    pos: int,
    refs: Seq<syntax::Picture>,
    p: int,
    w: int,
    h: int,
    q: int,
    max: nat,
)
    requires
        max <= 8_388_608,
        syntax::read_envelope(input, pos) is Ok,
        syntax::decoded_envelope(
            (syntax::read_envelope(input, pos)->Ok_0).0,
            refs,
            p,
            w,
            h,
            q,
            max,
        ) is Ok,
    ensures
        plane_at(input, pos, refs, p, w, h, q) == Ok::<(Seq<u8>, int), VideoError>(
            (
                syntax::decoded_envelope(
                    (syntax::read_envelope(input, pos)->Ok_0).0,
                    refs,
                    p,
                    w,
                    h,
                    q,
                    max,
                )->Ok_0,
                (syntax::read_envelope(input, pos)->Ok_0).1,
            ),
        ),
{
    reveal(syntax::decoded_envelope);
    reveal(plane_at);
    let (first, at) = syntax::read_chunk(input, pos + 1)->Ok_0;
    lemma_more_room(first, max);
    if input[pos] == 1 {
        let (second, end) = syntax::read_chunk(input, at)->Ok_0;
        lemma_more_room(second, max);
    }
}

/// Whatever the production decoder shows, within its limits, the reference decoder shows too.
pub proof fn law_agrees_with_production(
    input: Seq<u8>,
    references: Seq<(u64, syntax::Picture)>,
    bounds: syntax::Bounds,
)
    requires
        bounds.max_entropy <= 8_388_608,
    ensures
        syntax::decoded_frame(input, references, bounds) matches Ok(shown) ==> decoded_frame(
            input,
            references,
        ) == Ok::<(u64, syntax::Picture, Seq<u64>), VideoError>(shown),
{
    if syntax::decoded_frame(input, references, bounds) is Ok {
        let frame_id = bytes::le_value(input.subrange(4, 12)) as u64;
        let w = bytes::le_value(input.subrange(12, 14)) as int;
        let h = bytes::le_value(input.subrange(14, 16)) as int;
        let q = bytes::le_value(input.subrange(16, 18)) as int;
        prediction::lemma_plane_size(w, h);
        let (ids, pictures, at) = syntax::read_references(
            input,
            20,
            input[18] as nat,
            frame_id,
            w,
            h,
            references,
            Seq::empty(),
            Seq::empty(),
        )->Ok_0;
        reveal_with_fuel(syntax::read_envelopes, 4);
        let (a, at1) = syntax::read_envelope(input, at)->Ok_0;
        let (b, at2) = syntax::read_envelope(input, at1)->Ok_0;
        let (c, end) = syntax::read_envelope(input, at2)->Ok_0;
        let envelopes = (syntax::read_envelopes(input, at, 3)->Ok_0).0;
        assert(envelopes =~= seq![a, b, c]);
        lemma_plane_agrees(input, at, pictures, 0, w, h, q, bounds.max_entropy);
        lemma_plane_agrees(input, at1, pictures, 1, w, h, q, bounds.max_entropy);
        lemma_plane_agrees(input, at2, pictures, 2, w, h, q, bounds.max_entropy);
    }
}

// ---------------------------------------------------------------------------------------------
// Decoding

/// Looks a frame up by its id.
fn find_frame<'a>(references: &[(u64, &'a Frame420)], id: u64) -> (r: Option<&'a Frame420>)
    ensures
        match r {
            Some(frame) => {
                &&& syntax::find_reference(frame::numbered(references@), id, 0) == Some(
                    frame.picture(),
                )
                &&& exists|i: int| 0 <= i < references@.len() && #[trigger] references@[i].1 == frame
            },
            None => syntax::find_reference(frame::numbered(references@), id, 0) is None,
        },
{
    let mut i: usize = 0;
    while i < references.len()
        invariant
            i <= references@.len(),
            syntax::find_reference(frame::numbered(references@), id, 0) == syntax::find_reference(
                frame::numbered(references@),
                id,
                i as int,
            ),
        decreases references@.len() - i,
    {
        let entry: (u64, &'a Frame420) = references[i];
        if entry.0 == id {
            assert(references@[i as int].1 == entry.1);
            return Some(entry.1);
        }
        i = i + 1;
    }
    None
}

/// Reads the reference ids of a frame and looks the frames up.
fn read_references<'a>(
    input: &[u8],
    count: usize,
    frame_id: u64,
    w: u32,
    h: u32,
    references: &[(u64, &'a Frame420)],
) -> (r: Result<(Vec<u64>, Vec<&'a Frame420>, usize), VideoError>)
    requires
        20 <= input@.len(),
        forall|i: int|
            0 <= i < references@.len() ==> (#[trigger] references@[i]).1.picture().sized(),
    ensures
        ({
            let want = syntax::read_references(
                input@,
                20,
                count as nat,
                frame_id,
                w as int,
                h as int,
                frame::numbered(references@),
                Seq::empty(),
                Seq::empty(),
            );
            match r {
                Ok((ids, frames, pos)) => {
                    &&& want == Ok::<(Seq<u64>, Seq<syntax::Picture>, int), VideoError>(
                        (ids@, frame::pictures(frames@), pos as int),
                    )
                    &&& pos <= input@.len()
                    &&& forall|i: int|
                        0 <= i < frames@.len() ==> {
                            &&& (#[trigger] frames@[i]).picture().sized()
                            &&& frames@[i].width == w
                            &&& frames@[i].height == h
                        }
                },
                Err(e) => want == Err::<(Seq<u64>, Seq<syntax::Picture>, int), VideoError>(e),
            }
        }),
{
    let mut ids: Vec<u64> = Vec::new();
    let mut frames: Vec<&'a Frame420> = Vec::new();
    let mut pos: usize = 20;
    let mut done: usize = 0;
    let ghost known = frame::numbered(references@);
    let ghost goal = syntax::read_references(
        input@,
        20,
        count as nat,
        frame_id,
        w as int,
        h as int,
        known,
        Seq::empty(),
        Seq::empty(),
    );
    assert(frame::pictures(frames@) =~= Seq::empty());
    while done < count
        invariant
            done <= count,
            20 <= pos <= input@.len(),
            known == frame::numbered(references@),
            forall|i: int|
                0 <= i < references@.len() ==> (#[trigger] references@[i]).1.picture().sized(),
            forall|i: int|
                0 <= i < frames@.len() ==> {
                    &&& (#[trigger] frames@[i]).picture().sized()
                    &&& frames@[i].width == w
                    &&& frames@[i].height == h
                },
            goal == syntax::read_references(
                input@,
                20,
                count as nat,
                frame_id,
                w as int,
                h as int,
                known,
                Seq::empty(),
                Seq::empty(),
            ),
            goal == syntax::read_references(
                input@,
                pos as int,
                (count - done) as nat,
                frame_id,
                w as int,
                h as int,
                known,
                ids@,
                frame::pictures(frames@),
            ),
        decreases count - done,
    {
        if input.len() - pos < 8 {
            return Err(VideoError::UnexpectedEof);
        }
        let id: u64 = bytes::get_u64_le(input, pos);
        pos = pos + 8;
        if holds(&ids, id) || id == frame_id {
            return Err(VideoError::BadHeader);
        }
        let found: &'a Frame420 = match find_frame(references, id) {
            Some(found) => found,
            None => {
                return Err(VideoError::ReferenceMissing(id));
            },
        };
        if found.width != w || found.height != h {
            return Err(VideoError::ReferenceShape);
        }
        let ghost before = frame::pictures(frames@);
        ids.push(id);
        frames.push(found);
        assert(frame::pictures(frames@) =~= before.push(found.picture()));
        done = done + 1;
    }
    Ok((ids, frames, pos))
}

/// Unpacks a chunk of tokens.
fn unpack(input: &[u8], pos: &mut usize) -> (r: Result<Vec<u8>, VideoError>)
    requires
        *old(pos) <= input@.len(),
    ensures
        *final(pos) <= input@.len(),
        match syntax::read_chunk(input@, *old(pos) as int) {
            Err(e) => r == Err::<Vec<u8>, VideoError>(e),
            Ok((chunk, end)) => match bitstream::syntax::decompressed(chunk, 8_388_608, true) {
                Err(e) => r == Err::<Vec<u8>, VideoError>(VideoError::Bitstream(e)),
                Ok(lane) => r matches Ok(out) && out@ == lane && *final(pos) == end,
            },
        },
{
    match read_chunk(input, pos) {
        Err(e) => Err(e),
        Ok(chunk) => match entropy_decompress(chunk, 8_388_608) {
            Err(e) => Err(VideoError::Bitstream(e)),
            Ok(lane) => Ok(lane),
        },
    }
}

/// Decodes a plane from one lane of tokens.
fn decode_plane_single(tokens: &[u8], refs: &[&[u8]], w: usize, h: usize, q: i32) -> (r: Result<
    Vec<u8>,
    VideoError,
>)
    requires
        prediction::plane_fits(w as int, h as int),
        forall|i: int| 0 <= i < refs@.len() ==> #[trigger] refs@[i]@.len() == w * h,
    ensures
        ({
            let want = syntax::decoded_plane(
                syntax::Lanes::Single(tokens@),
                crate::video::v1::blocks::views(refs@),
                w as int,
                h as int,
                q as int,
            );
            match r {
                Ok(plane) => want == Ok::<Seq<u8>, VideoError>(plane@) && plane@.len() == w * h,
                Err(e) => want == Err::<Seq<u8>, VideoError>(e),
            }
        }),
{
    proof {
        prediction::lemma_fits(w as int, h as int);
    }
    let mut recon: Vec<u8> = vec![128u8; w * h];
    match decode_plane_single_into(tokens, refs, w, h, q, KernelSet::scalar(), recon.as_mut_slice()) {
        Ok(()) => Ok(recon),
        Err(e) => Err(e),
    }
}

/// Decodes a plane from a lane of modes and a lane of data.
fn decode_plane(control: &[u8], data: &[u8], refs: &[&[u8]], w: usize, h: usize, q: i32) -> (r:
    Result<Vec<u8>, VideoError>)
    requires
        prediction::plane_fits(w as int, h as int),
        forall|i: int| 0 <= i < refs@.len() ==> #[trigger] refs@[i]@.len() == w * h,
    ensures
        ({
            let want = syntax::decoded_plane(
                syntax::Lanes::Split(control@, data@),
                crate::video::v1::blocks::views(refs@),
                w as int,
                h as int,
                q as int,
            );
            match r {
                Ok(plane) => want == Ok::<Seq<u8>, VideoError>(plane@) && plane@.len() == w * h,
                Err(e) => want == Err::<Seq<u8>, VideoError>(e),
            }
        }),
{
    proof {
        prediction::lemma_fits(w as int, h as int);
    }
    let mut recon: Vec<u8> = vec![128u8; w * h];
    match decode_plane_into(control, data, refs, w, h, q, KernelSet::scalar(), recon.as_mut_slice()) {
        Ok(()) => Ok(recon),
        Err(e) => Err(e),
    }
}

/// Reads and decodes plane `p`.
fn read_plane(
    input: &[u8],
    pos: &mut usize,
    refs: &Vec<&Frame420>,
    p: usize,
    w: u32,
    h: u32,
    q: u16,
) -> (r: Result<Vec<u8>, VideoError>)
    requires
        *old(pos) <= input@.len(),
        frame::dimensions_ok(w as int, h as int),
        forall|i: int|
            0 <= i < refs@.len() ==> {
                &&& (#[trigger] refs@[i]).picture().sized()
                &&& refs@[i].width == w
                &&& refs@[i].height == h
            },
    ensures
        *final(pos) <= input@.len(),
        ({
            let want = plane_at(
                input@,
                *old(pos) as int,
                frame::pictures(refs@),
                p as int,
                w as int,
                h as int,
                q as int,
            );
            match r {
                Ok(plane) => want == Ok::<(Seq<u8>, int), VideoError>((plane@, *final(pos) as int)),
                Err(e) => want == Err::<(Seq<u8>, int), VideoError>(e),
            }
        }),
        r matches Ok(plane) ==> plane@.len() == syntax::plane_len(w as int, p as int)
            * syntax::plane_len(h as int, p as int),
{
    proof {
        reveal(plane_at);
        frame::lemma_planes(w as int, h as int, p as int);
    }
    if *pos >= input.len() {
        return Err(VideoError::UnexpectedEof);
    }
    let layout: u8 = input[*pos];
    *pos = *pos + 1;
    if layout > 1 {
        return Err(VideoError::BadHeader);
    }
    let (pw, ph): (usize, usize) = if p == 0 {
        (w as usize, h as usize)
    } else {
        (w as usize / 2, h as usize / 2)
    };
    let rplanes: Vec<&[u8]> = planes(refs, p);
    assert forall|i: int| 0 <= i < rplanes@.len() implies #[trigger] rplanes@[i]@.len() == pw * ph by {
        assert(refs@[i].picture().sized());
    }
    if layout == 0 {
        let tokens: Vec<u8> = match unpack(input, pos) {
            Ok(tokens) => tokens,
            Err(e) => {
                return Err(e);
            },
        };
        decode_plane_single(tokens.as_slice(), rplanes.as_slice(), pw, ph, q as i32)
    } else {
        if input.len() - *pos < 4 {
            return Err(VideoError::UnexpectedEof);
        }
        let len: usize = bytes::get_u32_le(input, *pos) as usize;
        if input.len() - *pos - 4 < len || input.len() - *pos - 4 - len < 4 {
            return Err(VideoError::UnexpectedEof);
        }
        let control: Vec<u8> = match unpack(input, pos) {
            Ok(control) => control,
            Err(e) => {
                return Err(e);
            },
        };
        let data: Vec<u8> = match unpack(input, pos) {
            Ok(data) => data,
            Err(e) => {
                return Err(e);
            },
        };
        decode_plane(
            control.as_slice(),
            data.as_slice(),
            rplanes.as_slice(),
            pw,
            ph,
            q as i32,
        )
    }
}

/// What decoding gives.
pub open spec fn decode_result(
    input: Seq<u8>,
    references: Seq<(u64, syntax::Picture)>,
    r: Result<(u64, Frame420, Vec<u64>), Error>,
) -> bool {
    match r {
        Ok((id, frame, ids)) => decoded_frame(input, references) == Ok::<
            (u64, syntax::Picture, Seq<u64>),
            VideoError,
        >((id, frame.picture(), ids@)),
        Err(e) => decoded_frame(input, references) matches Err(reason) && e == told(reason),
    }
}

/// Decodes one ALV1 packet. The planes of the references must have the sizes that their
/// dimensions ask for.
pub fn decode(input: &[u8], references: &[(u64, &Frame420)]) -> (r: Result<
    (u64, Frame420, Vec<u64>),
    Error,
>)
    requires
        forall|i: int|
            0 <= i < references@.len() ==> (#[trigger] references@[i]).1.picture().sized(),
    ensures
        decode_result(input@, frame::numbered(references@), r),
        r matches Ok((id, frame, ids)) ==> frame::valid(frame.picture()),
{
    if input.len() < 20 {
        return Err(Error::UnexpectedEof);
    }
    if !has_magic(input) {
        return Err(Error::BadHeader);
    }
    let frame_id: u64 = bytes::get_u64_le(input, 4);
    let w: u32 = bytes::get_u16_le(input, 12) as u32;
    let h: u32 = bytes::get_u16_le(input, 14) as u32;
    let q: u16 = bytes::get_u16_le(input, 16);
    if q == 0 {
        return Err(Error::BadQuantizer);
    }
    match sizes(w, h) {
        Ok(_) => {},
        Err(e) => {
            return Err(tell(e));
        },
    }
    let count: usize = input[18] as usize;
    if count > 4 || input[19] != 1 {
        return Err(Error::BadHeader);
    }
    let (ids, frames, start): (Vec<u64>, Vec<&Frame420>, usize) = match read_references(
        input,
        count,
        frame_id,
        w,
        h,
        references,
    ) {
        Ok(found) => found,
        Err(e) => {
            return Err(tell(e));
        },
    };
    let mut pos: usize = start;
    let y: Vec<u8> = match read_plane(input, &mut pos, &frames, 0, w, h, q) {
        Ok(plane) => plane,
        Err(e) => {
            return Err(tell(e));
        },
    };
    let u: Vec<u8> = match read_plane(input, &mut pos, &frames, 1, w, h, q) {
        Ok(plane) => plane,
        Err(e) => {
            return Err(tell(e));
        },
    };
    let v: Vec<u8> = match read_plane(input, &mut pos, &frames, 2, w, h, q) {
        Ok(plane) => plane,
        Err(e) => {
            return Err(tell(e));
        },
    };
    if pos != input.len() {
        return Err(Error::TrailingData);
    }
    proof {
        frame::lemma_planes(w as int, h as int, 1);
    }
    Ok((frame_id, Frame420 { width: w, height: h, y, u, v }, ids))
}

} // verus!
