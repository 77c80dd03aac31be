//! Decoding of ALV1 frame packets.
use crate::bitstream::v1::{entropy_decompress_with_scratch, EntropyScratch};
use crate::bytes;
use crate::kernels::KernelSet;
use crate::limits::Limits;
use crate::video::v1::blocks;
use crate::video::v1::frame::{sizes, Frame420};
use crate::video::v1::prediction;
use crate::video::v1::syntax;
use crate::video::v1::VideoError;
use vstd::prelude::*;

verus! {

/// The lanes that a separate control slice, if any, and a data slice make up.
pub open spec fn lanes_of(control: Option<&[u8]>, data: &[u8]) -> syntax::Lanes {
    match control {
        None => syntax::Lanes::Single(data@),
        Some(c) => syntax::Lanes::Split(c@, data@),
    }
}

/// Decodes block `k` of a plane, which stands at (`bx`, `by`), and moves the lane positions on.
fn decode_next(
    control: Option<&[u8]>,
    data: &[u8],
    cp: &mut usize,
    dp: &mut usize,
    refs: &[&[u8]],
    w: usize,
    h: usize,
    bx: usize,
    by: usize,
    q: i32,
    kernels: KernelSet,
    recon: &mut [u8],
    k: Ghost<int>,
) -> (r: Result<(), VideoError>)
    requires
        prediction::placed(old(recon)@.len(), w, h, bx, by),
        forall|i: int| 0 <= i < refs@.len() ==> #[trigger] refs@[i]@.len() == w * h,
        bx == syntax::block_x(w as int, k@),
        by == syntax::block_y(w as int, k@),
        control is Some ==> *old(cp) == k@,
        0 <= k@ <= 0x400_0000,
    ensures
        final(recon)@.len() == old(recon)@.len(),
        control is Some && r is Ok ==> *final(cp) == k@ + 1,
        match r {
            Ok(()) => exists|block: syntax::Block|
                #![trigger block_shown(block)]
                {
                    &&& block_shown(block)
                    &&& syntax::next_block(
                        lanes_of(control, data),
                        k@,
                        *old(dp) as int,
                        refs@.len(),
                        w as int,
                        h as int,
                        q as int,
                    ) == Ok::<(syntax::Block, int), VideoError>((block, *final(dp) as int))
                    &&& final(recon)@ == syntax::with_block(
                        old(recon)@,
                        blocks::views(refs@),
                        w as int,
                        h as int,
                        bx as int,
                        by as int,
                        q as int,
                        block,
                    )
                },
            Err(e) => syntax::next_block(
                lanes_of(control, data),
                k@,
                *old(dp) as int,
                refs@.len(),
                w as int,
                h as int,
                q as int,
            ) == Err::<(syntax::Block, int), VideoError>(e),
        },
{
    let mode: u8 = match control {
        Some(c) => {
            if *cp >= c.len() {
                return Err(VideoError::UnexpectedEof);
            }
            let m: u8 = c[*cp];
            *cp = *cp + 1;
            m
        },
        None => {
            if *dp >= data.len() {
                return Err(VideoError::UnexpectedEof);
            }
            let m: u8 = data[*dp];
            *dp = *dp + 1;
            m
        },
    };
    let bw: usize = prediction::cut_len(w, bx);
    let bh: usize = prediction::cut_len(h, by);
    proof {
        assert(0 < bw * bh <= 64) by (nonlinear_arith)
            requires
                0 < bw <= 8,
                0 < bh <= 8,
        ;
        blocks::lemma_read_block_shaped(
            data@,
            *dp as int,
            mode,
            refs@.len(),
            (bw * bh) as int,
        );
    }
    match blocks::read_block(data, dp, mode, refs.len(), bw * bh) {
        Ok(block) => {
            proof {
                assert(block_shown(block.model()));
            }
            if blocks::reconstruct_block(recon, refs, w, h, bx, by, q, &block, kernels) {
                Ok(())
            } else {
                Err(VideoError::BadCoefficient)
            }
        },
        Err(e) => Err(e),
    }
}

spec fn block_shown(block: syntax::Block) -> bool {
    true
}

/// Decodes the blocks of a plane from its token lanes.
fn decode_lanes(
    control: Option<&[u8]>,
    data: &[u8],
    refs: &[&[u8]],
    w: usize,
    h: usize,
    q: i32,
    kernels: KernelSet,
    recon: &mut [u8],
) -> (r: Result<(), VideoError>)
    requires
        prediction::plane_fits(w as int, h as int),
        forall|i: int| 0 <= i < refs@.len() ==> #[trigger] refs@[i]@.len() == w * h,
    ensures
        final(recon)@.len() == old(recon)@.len(),
        plane_result(
            lanes_of(control, data),
            blocks::views(refs@),
            w as int,
            h as int,
            q as int,
            old(recon)@.len(),
            r,
            final(recon)@,
        ),
{
    proof {
        prediction::lemma_fits(w as int, h as int);
    }
    if recon.len() != w * h {
        return Err(VideoError::PlaneLength);
    }
    let len: usize = recon.len();
    let mut i: usize = 0;
    while i < len
        invariant
            len == recon@.len() == old(recon)@.len(),
            i <= len,
            forall|j: int| 0 <= j < i ==> #[trigger] recon@[j] == 128,
        decreases len - i,
    {
        recon[i] = 128;
        i = i + 1;
    }
    assert(recon@ =~= syntax::gray(w as int, h as int));
    let ghost lanes = lanes_of(control, data);
    let ghost planes = blocks::views(refs@);
    let ghost goal = syntax::decoded_plane(lanes, planes, w as int, h as int, q as int);
    let ghost mut k: int = 0;
    let mut cp: usize = 0;
    let mut dp: usize = 0;
    let mut bx: usize = 0;
    let mut by: usize = 0;
    proof {
        syntax::lemma_block_count(w as int, h as int);
    }
    while by < h
        invariant
            prediction::plane_fits(w as int, h as int),
            w <= 0x400_0000,
            h <= 0x400_0000,
            forall|i: int| 0 <= i < refs@.len() ==> #[trigger] refs@[i]@.len() == w * h,
            recon@.len() == w * h,
            old(recon)@.len() == w * h,
            lanes == lanes_of(control, data),
            planes == blocks::views(refs@),
            goal == syntax::decoded_plane(lanes, planes, w as int, h as int, q as int),
            0 <= k <= syntax::block_count(w as int, h as int) <= 0x400_0000,
            by < h <==> k < syntax::block_count(w as int, h as int),
            bx == syntax::block_x(w as int, k),
            by == syntax::block_y(w as int, k),
            control is Some ==> cp == k,
            goal == syntax::decoded_from(
                lanes,
                k,
                dp as int,
                planes,
                w as int,
                h as int,
                q as int,
                recon@,
            ),
        decreases syntax::block_count(w as int, h as int) - k,
    {
        proof {
            syntax::lemma_block_place(w as int, h as int, k);
            syntax::lemma_next_place(w as int, h as int, k);
        }
        match decode_next(
            control,
            data,
            &mut cp,
            &mut dp,
            refs,
            w,
            h,
            bx,
            by,
            q,
            kernels,
            recon,
            Ghost(k),
        ) {
            Ok(()) => {},
            Err(e) => {
                return Err(e);
            },
        }
        proof {
            k = k + 1;
        }
        bx = bx + 8;
        if bx >= w {
            bx = 0;
            by = by + 8;
        }
    }
    match control {
        Some(c) => {
            if cp != c.len() || dp != data.len() {
                return Err(VideoError::TrailingData);
            }
        },
        None => {
            if dp != data.len() {
                return Err(VideoError::TrailingData);
            }
        },
    }
    Ok(())
}

/// What decoding a plane into `len` samples gives.
pub open spec fn plane_result(
    lanes: syntax::Lanes,
    refs: Seq<Seq<u8>>,
    w: int,
    h: int,
    q: int,
    len: nat,
    r: Result<(), VideoError>,
    recon: Seq<u8>,
) -> bool {
    if len != w * h {
        r == Err::<(), VideoError>(VideoError::PlaneLength)
    } else {
        match r {
            Ok(()) => syntax::decoded_plane(lanes, refs, w, h, q) == Ok::<Seq<u8>, VideoError>(
                recon,
            ),
            Err(e) => syntax::decoded_plane(lanes, refs, w, h, q) == Err::<Seq<u8>, VideoError>(e),
        }
    }
}

/// Decodes a plane whose modes and data share one lane.
pub fn decode_plane_single_into(
    tokens: &[u8],
    refs: &[&[u8]],
    w: usize,
    h: usize,
    q: i32,
    kernels: KernelSet,
    recon: &mut [u8],
) -> (r: Result<(), VideoError>)
    requires
        prediction::plane_fits(w as int, h as int),
        forall|i: int| 0 <= i < refs@.len() ==> #[trigger] refs@[i]@.len() == w * h,
    ensures
        final(recon)@.len() == old(recon)@.len(),
        plane_result(
            syntax::Lanes::Single(tokens@),
            blocks::views(refs@),
            w as int,
            h as int,
            q as int,
            old(recon)@.len(),
            r,
            final(recon)@,
        ),
{
    decode_lanes(None, tokens, refs, w, h, q, kernels, recon)
}

/// Decodes a plane whose modes stand in a lane of their own.
pub fn decode_plane_into(
    control: &[u8],
    data: &[u8],
    refs: &[&[u8]],
    w: usize,
    h: usize,
    q: i32,
    kernels: KernelSet,
    recon: &mut [u8],
) -> (r: Result<(), VideoError>)
    requires
        prediction::plane_fits(w as int, h as int),
        forall|i: int| 0 <= i < refs@.len() ==> #[trigger] refs@[i]@.len() == w * h,
    ensures
        final(recon)@.len() == old(recon)@.len(),
        plane_result(
            syntax::Lanes::Split(control@, data@),
            blocks::views(refs@),
            w as int,
            h as int,
            q as int,
            old(recon)@.len(),
            r,
            final(recon)@,
        ),
{
    decode_lanes(Some(control), data, refs, w, h, q, kernels, recon)
}

/// Decodes a single-lane plane into a new buffer.
pub fn decode_plane_single(
    tokens: &[u8],
    refs: &[&[u8]],
    w: usize,
    h: usize,
    q: i32,
    kernels: KernelSet,
) -> (r: Result<Vec<u8>, VideoError>)
    requires
        prediction::plane_fits(w as int, h as int),
        forall|i: int| 0 <= i < refs@.len() ==> #[trigger] refs@[i]@.len() == w * h,
    ensures
        match r {
            Ok(recon) => syntax::decoded_plane(
                syntax::Lanes::Single(tokens@),
                blocks::views(refs@),
                w as int,
                h as int,
                q as int,
            ) == Ok::<Seq<u8>, VideoError>(recon@),
            Err(e) => syntax::decoded_plane(
                syntax::Lanes::Single(tokens@),
                blocks::views(refs@),
                w as int,
                h as int,
                q as int,
            ) == Err::<Seq<u8>, VideoError>(e),
        },
{
    proof {
        prediction::lemma_fits(w as int, h as int);
    }
    let mut recon: Vec<u8> = vec![0u8; w * h];
    match decode_plane_single_into(tokens, refs, w, h, q, kernels, recon.as_mut_slice()) {
        Ok(()) => Ok(recon),
        Err(e) => Err(e),
    }
}

// ---------------------------------------------------------------------------------------------
// Frames

/// Reusable entropy storage for the lanes of a plane.
#[derive(Debug)]
pub struct PlaneEntropyScratch {
    pub control_or_single: EntropyScratch,
    pub data: EntropyScratch,
}

impl PlaneEntropyScratch {
    pub fn new() -> (r: Self)
        ensures
            r.control_or_single.held() == Seq::<u8>::empty(),
            r.data.held() == Seq::<u8>::empty(),
    {
        PlaneEntropyScratch {
            control_or_single: EntropyScratch::new(),
            data: EntropyScratch::new(),
        }
    }
}

/// The compressed tokens of one plane.
pub enum PlaneEnvelope<'a> {
    Single(&'a [u8]),
    Split(&'a [u8], &'a [u8]),
}

impl<'a> PlaneEnvelope<'a> {
    pub open spec fn model(&self) -> syntax::Envelope {
        match self {
            PlaneEnvelope::Single(first) => syntax::Envelope::Single(first@),
            PlaneEnvelope::Split(first, second) => syntax::Envelope::Split(first@, second@),
        }
    }
}

/// Reads a length and as many bytes as it says.
pub(crate) fn read_chunk<'a>(input: &'a [u8], pos: &mut usize) -> (r: Result<&'a [u8], VideoError>)
    requires
        *old(pos) <= input@.len(),
    ensures
        *final(pos) <= input@.len(),
        match r {
            Ok(chunk) => syntax::read_chunk(input@, *old(pos) as int) == Ok::<
                (Seq<u8>, int),
                VideoError,
            >((chunk@, *final(pos) as int)),
            Err(e) => syntax::read_chunk(input@, *old(pos) as int) == Err::<
                (Seq<u8>, int),
                VideoError,
            >(e),
        },
{
    if input.len() - *pos < 4 {
        return Err(VideoError::UnexpectedEof);
    }
    let len: usize = bytes::get_u32_le(input, *pos) as usize;
    let start: usize = *pos + 4;
    if input.len() - start < len {
        return Err(VideoError::UnexpectedEof);
    }
    *pos = start + len;
    Ok(&input[start..start + len])
}

/// Reads the envelope of one plane.
fn read_envelope<'a>(input: &'a [u8], pos: &mut usize) -> (r: Result<PlaneEnvelope<'a>, VideoError>)
    requires
        *old(pos) <= input@.len(),
    ensures
        *final(pos) <= input@.len(),
        match r {
            Ok(envelope) => syntax::read_envelope(input@, *old(pos) as int) == Ok::<
                (syntax::Envelope, int),
                VideoError,
            >((envelope.model(), *final(pos) as int)),
            Err(e) => syntax::read_envelope(input@, *old(pos) as int) == Err::<
                (syntax::Envelope, int),
                VideoError,
            >(e),
        },
{
    if *pos >= input.len() {
        return Err(VideoError::UnexpectedEof);
    }
    let layout: u8 = input[*pos];
    *pos = *pos + 1;
    let first: &[u8] = match read_chunk(input, pos) {
        Ok(first) => first,
        Err(e) => {
            return Err(e);
        },
    };
    if layout == 0 {
        Ok(PlaneEnvelope::Single(first))
    } else if layout == 1 {
        match read_chunk(input, pos) {
            Ok(second) => Ok(PlaneEnvelope::Split(first, second)),
            Err(e) => Err(e),
        }
    } else {
        Err(VideoError::BadHeader)
    }
}

/// Finds the envelopes of all planes before any of them is opened, so that lengths are cheap to
/// refuse.
fn parse_plane_envelopes<'a>(input: &'a [u8], pos: &mut usize) -> (r: Result<
    (PlaneEnvelope<'a>, PlaneEnvelope<'a>, PlaneEnvelope<'a>),
    VideoError,
>)
    requires
        *old(pos) <= input@.len(),
    ensures
        match r {
            Ok((y, u, v)) => syntax::read_envelopes(input@, *old(pos) as int, 3) == Ok::<
                (Seq<syntax::Envelope>, int),
                VideoError,
            >((seq![y.model(), u.model(), v.model()], *final(pos) as int)),
            Err(e) => syntax::read_envelopes(input@, *old(pos) as int, 3) == Err::<
                (Seq<syntax::Envelope>, int),
                VideoError,
            >(e),
        },
{
    proof {
        reveal_with_fuel(syntax::read_envelopes, 4);
    }
    let y: PlaneEnvelope = match read_envelope(input, pos) {
        Ok(y) => y,
        Err(e) => {
            return Err(e);
        },
    };
    let u: PlaneEnvelope = match read_envelope(input, pos) {
        Ok(u) => u,
        Err(e) => {
            return Err(e);
        },
    };
    let v: PlaneEnvelope = match read_envelope(input, pos) {
        Ok(v) => v,
        Err(e) => {
            return Err(e);
        },
    };
    assert(seq![y.model()] + (seq![u.model()] + (seq![v.model()] + Seq::empty())) =~= seq![
        y.model(),
        u.model(),
        v.model(),
    ]);
    Ok((y, u, v))
}

/// Plane `p` of a frame.
pub fn plane(frame: &Frame420, p: usize) -> (r: &[u8])
    ensures
        r@ == frame.picture().plane(p as int),
{
    if p == 0 {
        frame.y()
    } else if p == 1 {
        frame.u()
    } else {
        frame.v()
    }
}

/// What frames show.
pub open spec fn pictures(frames: Seq<&Frame420>) -> Seq<syntax::Picture> {
    Seq::new(frames.len(), |i: int| frames[i].picture())
}

/// What numbered frames show.
pub open spec fn numbered(frames: Seq<(u64, &Frame420)>) -> Seq<(u64, syntax::Picture)> {
    Seq::new(frames.len(), |i: int| (frames[i].0, frames[i].1.picture()))
}

/// The same plane of several frames.
pub fn planes<'a>(frames: &Vec<&'a Frame420>, p: usize) -> (r: Vec<&'a [u8]>)
    ensures
        blocks::views(r@) == syntax::planes_of(pictures(frames@), p as int),
        r@.len() == frames@.len(),
        forall|i: int| 0 <= i < r@.len() ==> #[trigger] r@[i]@ == frames@[i].picture().plane(p as int),
{
    let mut r: Vec<&'a [u8]> = Vec::new();
    let mut i: usize = 0;
    while i < frames.len()
        invariant
            i <= frames@.len(),
            r@.len() == i,
            forall|j: int|
                0 <= j < i ==> #[trigger] r@[j]@ == frames@[j].picture().plane(p as int),
        decreases frames@.len() - i,
    {
        r.push(plane(frames[i], p));
        i = i + 1;
    }
    assert(blocks::views(r@) =~= syntax::planes_of(pictures(frames@), p as int));
    r
}

/// A plane of a picture with even dimensions has the size that its own dimensions ask for.
pub proof fn lemma_chroma_size(w: int, h: int)
    requires
        syntax::dimensions_ok(w, h),
    ensures
        (w / 2) * (h / 2) == w * h / 4,
        0 < w / 2 <= 4096,
        0 < h / 2 <= 4096,
{
    let (a, b) = (w / 2, h / 2);
    assert(w == 2 * a && h == 2 * b);
    assert((2 * a) * (2 * b) == 4 * (a * b)) by (nonlinear_arith);
}

/// Decodes plane `p` from its envelope.
fn decode_one_plane_into(
    p: usize,
    envelope: &PlaneEnvelope<'_>,
    refs: &Vec<&Frame420>,
    w: u32,
    h: u32,
    q: u16,
    scratch: &mut PlaneEntropyScratch,
    kernels: KernelSet,
    max_entropy_bytes: usize,
    recon: &mut [u8],
) -> (r: Result<(), VideoError>)
    requires
        syntax::dimensions_ok(w as int, h as int),
        old(recon)@.len() == syntax::plane_len(w as int, p as int) * syntax::plane_len(
            h as int,
            p as int,
        ),
        forall|i: int|
            0 <= i < refs@.len() ==> {
                &&& (#[trigger] refs@[i]).picture().sized()
                &&& refs@[i].width == w
                &&& refs@[i].height == h
            },
    ensures
        final(recon)@.len() == old(recon)@.len(),
        match r {
            Ok(()) => syntax::decoded_envelope(
                envelope.model(),
                pictures(refs@),
                p as int,
                w as int,
                h as int,
                q as int,
                max_entropy_bytes as nat,
            ) == Ok::<Seq<u8>, VideoError>(final(recon)@),
            Err(e) => syntax::decoded_envelope(
                envelope.model(),
                pictures(refs@),
                p as int,
                w as int,
                h as int,
                q as int,
                max_entropy_bytes as nat,
            ) == Err::<Seq<u8>, VideoError>(e),
        },
{
    proof {
        lemma_chroma_size(w as int, h as int);
        reveal(syntax::decoded_envelope);
        prediction::lemma_plane_size(
            syntax::plane_len(w as int, p as int),
            syntax::plane_len(h as int, p as int),
        );
    }
    let (pw, ph): (usize, usize) = if p == 0 {
        (w as usize, h as usize)
    } else {
        (w as usize / 2, h as usize / 2)
    };
    let rplanes: Vec<&[u8]> = planes(refs, p);
    assert forall|i: int| 0 <= i < rplanes@.len() implies #[trigger] rplanes@[i]@.len() == pw * ph by {
        assert(refs@[i].picture().sized());
    }
    match envelope {
        PlaneEnvelope::Single(first) => {
            match entropy_decompress_with_scratch(
                first,
                max_entropy_bytes,
                &mut scratch.control_or_single,
            ) {
                Err(e) => Err(VideoError::Bitstream(e)),
                Ok(tokens) => decode_plane_single_into(
                    tokens,
                    rplanes.as_slice(),
                    pw,
                    ph,
                    q as i32,
                    kernels,
                    recon,
                ),
            }
        },
        PlaneEnvelope::Split(first, second) => {
            match entropy_decompress_with_scratch(
                first,
                max_entropy_bytes,
                &mut scratch.control_or_single,
            ) {
                Err(e) => Err(VideoError::Bitstream(e)),
                Ok(control) => match entropy_decompress_with_scratch(
                    second,
                    max_entropy_bytes,
                    &mut scratch.data,
                ) {
                    Err(e) => Err(VideoError::Bitstream(e)),
                    Ok(data) => decode_plane_into(
                        control,
                        data,
                        rplanes.as_slice(),
                        pw,
                        ph,
                        q as i32,
                        kernels,
                        recon,
                    ),
                },
            }
        },
    }
}

/// Looks a frame up by its id.
fn find_frame<'a>(references: &[(u64, &'a Frame420)], id: u64) -> (r: Option<&'a Frame420>)
    ensures
        match r {
            Some(frame) => {
                &&& syntax::find_reference(numbered(references@), id, 0) == Some(frame.picture())
                &&& exists|i: int| 0 <= i < references@.len() && #[trigger] references@[i].1 == frame
            },
            None => syntax::find_reference(numbered(references@), id, 0) is None,
        },
{
    let mut i: usize = 0;
    while i < references.len()
        invariant
            i <= references@.len(),
            syntax::find_reference(numbered(references@), id, 0) == syntax::find_reference(
                numbered(references@),
                id,
                i as int,
            ),
        decreases references@.len() - i,
    {
        let entry: (u64, &'a Frame420) = references[i];
        if entry.0 == id {
            assert(references@[i as int].1 == entry.1);
            return Some(entry.1);
        }
        i = i + 1;
    }
    None
}

/// Whether `ids` holds `id`.
pub fn holds(ids: &Vec<u64>, id: u64) -> (r: bool)
    ensures
        r == ids@.contains(id),
{
    let mut i: usize = 0;
    while i < ids.len()
        invariant
            i <= ids@.len(),
            forall|j: int| 0 <= j < i ==> #[trigger] ids@[j] != id,
        decreases ids@.len() - i,
    {
        if ids[i] == id {
            return true;
        }
        i = i + 1;
    }
    false
}

/// Reads the reference ids of a frame and looks the frames up.
fn read_references<'a>(
    input: &[u8],
    count: usize,
    frame_id: u64,
    w: u32,
    h: u32,
    references: &[(u64, &'a Frame420)],
) -> (r: Result<(Vec<u64>, Vec<&'a Frame420>, usize), VideoError>)
    requires
        20 <= input@.len(),
        count <= 4,
        forall|i: int|
            0 <= i < references@.len() ==> (#[trigger] references@[i]).1.picture().sized(),
    ensures
        match r {
            Ok((ids, frames, pos)) => {
                &&& syntax::read_references(
                    input@,
                    20,
                    count as nat,
                    frame_id,
                    w as int,
                    h as int,
                    numbered(references@),
                    Seq::empty(),
                    Seq::empty(),
                ) == Ok::<(Seq<u64>, Seq<syntax::Picture>, int), VideoError>(
                    (ids@, pictures(frames@), pos as int),
                )
                &&& pos <= input@.len()
                &&& forall|i: int|
                    0 <= i < frames@.len() ==> {
                        &&& (#[trigger] frames@[i]).picture().sized()
                        &&& frames@[i].width == w
                        &&& frames@[i].height == h
                    }
            },
            Err(e) => syntax::read_references(
                input@,
                20,
                count as nat,
                frame_id,
                w as int,
                h as int,
                numbered(references@),
                Seq::empty(),
                Seq::empty(),
            ) == Err::<(Seq<u64>, Seq<syntax::Picture>, int), VideoError>(e),
        },
{
    let mut ids: Vec<u64> = Vec::new();
    let mut frames: Vec<&'a Frame420> = Vec::new();
    let mut pos: usize = 20;
    let mut done: usize = 0;
    let ghost goal = syntax::read_references(
        input@,
        20,
        count as nat,
        frame_id,
        w as int,
        h as int,
        numbered(references@),
        Seq::empty(),
        Seq::empty(),
    );
    assert(pictures(frames@) =~= Seq::empty());
    while done < count
        invariant
            done <= count,
            20 <= pos <= input@.len(),
            forall|i: int|
                0 <= i < references@.len() ==> (#[trigger] references@[i]).1.picture().sized(),
            forall|i: int|
                0 <= i < frames@.len() ==> {
                    &&& (#[trigger] frames@[i]).picture().sized()
                    &&& frames@[i].width == w
                    &&& frames@[i].height == h
                },
            goal == syntax::read_references(
                input@,
                20,
                count as nat,
                frame_id,
                w as int,
                h as int,
                numbered(references@),
                Seq::empty(),
                Seq::empty(),
            ),
            goal == syntax::read_references(
                input@,
                pos as int,
                (count - done) as nat,
                frame_id,
                w as int,
                h as int,
                numbered(references@),
                ids@,
                pictures(frames@),
            ),
        decreases count - done,
    {
        if input.len() - pos < 8 {
            return Err(VideoError::UnexpectedEof);
        }
        let id: u64 = bytes::get_u64_le(input, pos);
        pos = pos + 8;
        if holds(&ids, id) || id == frame_id {
            return Err(VideoError::BadHeader);
        }
        let frame: &'a Frame420 = match find_frame(references, id) {
            Some(frame) => frame,
            None => {
                return Err(VideoError::ReferenceMissing(id));
            },
        };
        if frame.width != w || frame.height != h {
            return Err(VideoError::ReferenceShape);
        }
        let ghost before = pictures(frames@);
        ids.push(id);
        frames.push(frame);
        assert(pictures(frames@) =~= before.push(frame.picture()));
        done = done + 1;
    }
    Ok((ids, frames, pos))
}

/// A pooled frame that can be reused for this size.
pub open spec fn fits(frame: Frame420, w: u32, h: u32) -> bool {
    frame.width == w && frame.height == h && frame.picture().valid()
}

/// The number of the first pooled frame from `i` on that fits, or the number of frames.
pub open spec fn first_fit(pool: Seq<Frame420>, w: u32, h: u32, i: int) -> int
    decreases pool.len() - i,
{
    if i < 0 || i >= pool.len() {
        pool.len() as int
    } else if fits(pool[i], w, h) {
        i
    } else {
        first_fit(pool, w, h, i + 1)
    }
}

/// The pool once a frame of this size was taken out: the last frame fills the gap.
pub open spec fn pool_after(pool: Seq<Frame420>, w: u32, h: u32) -> Seq<Frame420> {
    let i = first_fit(pool, w, h, 0);
    if i < pool.len() {
        pool.update(i, pool.last()).drop_last()
    } else {
        pool
    }
}

proof fn lemma_first_fit(pool: Seq<Frame420>, w: u32, h: u32, i: int)
    requires
        0 <= i <= pool.len(),
    ensures
        i <= first_fit(pool, w, h, i) <= pool.len(),
    decreases pool.len() - i,
{
    if i < pool.len() {
        lemma_first_fit(pool, w, h, i + 1);
    }
}

/// At most one frame leaves the pool.
pub proof fn lemma_pool_after(pool: Seq<Frame420>)
    ensures
        forall|w: u32, h: u32|
            (#[trigger] pool_after(pool, w, h)).len() <= pool.len() <= pool_after(pool, w, h).len()
                + 1,
{
    assert forall|w: u32, h: u32|
        (#[trigger] pool_after(pool, w, h)).len() <= pool.len() <= pool_after(pool, w, h).len() + 1 by {
        lemma_first_fit(pool, w, h, 0);
    }
}

/// A frame of this size to decode into: one from the pool, or a new one.
pub fn obtain_frame(pool: &mut Vec<Frame420>, w: u32, h: u32) -> (r: Result<Frame420, VideoError>)
    ensures
        match r {
            Ok(frame) => fits(frame, w, h),
            Err(e) => !syntax::dimensions_ok(w as int, h as int) && e == VideoError::BadDimensions,
        },
        final(pool)@ == pool_after(old(pool)@, w, h),
{
    let mut i: usize = 0;
    while i < pool.len()
        invariant
            i <= pool@.len(),
            pool@ == old(pool)@,
            first_fit(pool@, w, h, 0) == first_fit(pool@, w, h, i as int),
        decreases pool@.len() - i,
    {
        if pool[i].width == w && pool[i].height == h && pool[i].validate().is_ok() {
            return Ok(pool.swap_remove(i));
        }
        i = i + 1;
    }
    Frame420::new(w, h)
}

/// What limits a decoder with these settings.
pub open spec fn bounds(
    max_frame_pixels: u64,
    max_entropy_bytes: usize,
    expected: Option<(u32, u32)>,
) -> syntax::Bounds {
    syntax::Bounds {
        max_pixels: max_frame_pixels as int,
        max_entropy: max_entropy_bytes as nat,
        expected,
    }
}

/// The result of decoding a packet is what the format says.
pub open spec fn frame_result(
    spec: Result<(u64, syntax::Picture, Seq<u64>), VideoError>,
    r: Result<(u64, Frame420, Vec<u64>), VideoError>,
) -> bool {
    match r {
        Ok((id, frame, ids)) => spec == Ok::<(u64, syntax::Picture, Seq<u64>), VideoError>(
            (id, frame.picture(), ids@),
        ),
        Err(e) => spec == Err::<(u64, syntax::Picture, Seq<u64>), VideoError>(e),
    }
}

/// Whether a packet starts with the codec magic.
pub(crate) fn has_magic(input: &[u8]) -> (r: bool)
    requires
        input@.len() >= 4,
    ensures
        r == (input@.take(4) == syntax::magic()),
{
    let r: bool = input[0] == 65 && input[1] == 76 && input[2] == 86 && input[3] == 49;
    proof {
        if r {
            assert(input@.take(4) =~= syntax::magic());
        } else {
            let (a, b) = (input@.take(4), syntax::magic());
            assert(a[0] != b[0] || a[1] != b[1] || a[2] != b[2] || a[3] != b[3]);
        }
    }
    r
}

/// Decodes one packet with explicit limits, into a pooled frame where one fits.
pub fn decode_with_limits(
    input: &[u8],
    references: &[(u64, &Frame420)],
    scratch: &mut PlaneEntropyScratch,
    kernels: KernelSet,
    pool: &mut Vec<Frame420>,
    max_frame_pixels: u64,
    max_entropy_bytes: usize,
    expected_dimensions: Option<(u32, u32)>,
) -> (r: Result<(u64, Frame420, Vec<u64>), VideoError>)
    requires
        forall|i: int|
            0 <= i < references@.len() ==> (#[trigger] references@[i]).1.picture().sized(),
    ensures
        frame_result(
            syntax::decoded_frame(
                input@,
                numbered(references@),
                bounds(max_frame_pixels, max_entropy_bytes, expected_dimensions),
            ),
            r,
        ),
        r matches Ok((id, frame, ids)) ==> frame.picture().valid() && final(pool)@ == pool_after(
            old(pool)@,
            frame.width,
            frame.height,
        ),
        r is Err ==> final(pool)@ == old(pool)@ || exists|w: u32, h: u32|
            final(pool)@ == #[trigger] pool_after(old(pool)@, w, h),
{
    if input.len() < 20 {
        return Err(VideoError::UnexpectedEof);
    }
    if !has_magic(input) {
        return Err(VideoError::BadHeader);
    }
    let frame_id: u64 = bytes::get_u64_le(input, 4);
    let w: u32 = bytes::get_u16_le(input, 12) as u32;
    let h: u32 = bytes::get_u16_le(input, 14) as u32;
    let q: u16 = bytes::get_u16_le(input, 16);
    if q == 0 {
        return Err(VideoError::BadQuantizer);
    }
    match sizes(w, h) {
        Ok(_) => {},
        Err(e) => {
            return Err(e);
        },
    }
    match expected_dimensions {
        Some((ew, eh)) => {
            if ew != w || eh != h {
                return Err(VideoError::BadDimensions);
            }
        },
        None => {},
    }
    proof {
        prediction::lemma_plane_size(w as int, h as int);
        lemma_chroma_size(w as int, h as int);
    }
    if w as u64 * h as u64 > max_frame_pixels {
        return Err(VideoError::OutputTooLarge);
    }
    let count: usize = input[18] as usize;
    if count > 4 || input[19] != 1 {
        return Err(VideoError::BadHeader);
    }
    let (ids, refs, after): (Vec<u64>, Vec<&Frame420>, usize) = match read_references(
        input,
        count,
        frame_id,
        w,
        h,
        references,
    ) {
        Ok(found) => found,
        Err(e) => {
            return Err(e);
        },
    };
    let mut pos: usize = after;
    let (y, u, v): (PlaneEnvelope, PlaneEnvelope, PlaneEnvelope) = match parse_plane_envelopes(
        input,
        &mut pos,
    ) {
        Ok(envelopes) => envelopes,
        Err(e) => {
            return Err(e);
        },
    };
    if pos != input.len() {
        return Err(VideoError::TrailingData);
    }
    let mut frame: Frame420 = match obtain_frame(pool, w, h) {
        Ok(frame) => frame,
        Err(e) => {
            return Err(e);
        },
    };
    match decode_one_plane_into(
        0,
        &y,
        &refs,
        w,
        h,
        q,
        scratch,
        kernels,
        max_entropy_bytes,
        frame.y_mut(),
    ) {
        Ok(()) => {},
        Err(e) => {
            return Err(e);
        },
    }
    match decode_one_plane_into(
        1,
        &u,
        &refs,
        w,
        h,
        q,
        scratch,
        kernels,
        max_entropy_bytes,
        frame.u_mut(),
    ) {
        Ok(()) => {},
        Err(e) => {
            return Err(e);
        },
    }
    match decode_one_plane_into(
        2,
        &v,
        &refs,
        w,
        h,
        q,
        scratch,
        kernels,
        max_entropy_bytes,
        frame.v_mut(),
    ) {
        Ok(()) => {},
        Err(e) => {
            return Err(e);
        },
    }
    Ok((frame_id, frame, ids))
}

/// Decodes one ALV1 frame packet using the supplied immutable reference pictures.
pub fn decode(input: &[u8], references: &[(u64, &Frame420)]) -> (r: Result<
    (u64, Frame420, Vec<u64>),
    VideoError,
>)
    requires
        forall|i: int|
            0 <= i < references@.len() ==> (#[trigger] references@[i]).1.picture().sized(),
    ensures
        frame_result(
            syntax::decoded_frame(
                input@,
                numbered(references@),
                bounds(67_108_864, 8_388_608, None),
            ),
            r,
        ),
        r matches Ok((id, frame, ids)) ==> frame.picture().valid(),
{
    let limits: Limits = Limits::default();
    let mut scratch: PlaneEntropyScratch = PlaneEntropyScratch::new();
    let mut pool: Vec<Frame420> = Vec::new();
    decode_with_limits(
        input,
        references,
        &mut scratch,
        KernelSet::auto(),
        &mut pool,
        limits.max_frame_pixels,
        limits.max_entropy_bytes,
        None,
    )
}

} // verus!
