//! What is refused, and why; and that nothing else is.
use crate::bitstream::syntax as numbers;
use crate::container::v1::layout_laws;
use crate::reference::planes;
use crate::reference::video_encoder;
use crate::video::v1::history;
use crate::video::v1::packets;
use crate::video::v1::syntax;
use crate::video::v1::{EncodeOptions, VideoError};
use vstd::prelude::*;

verus! {

// ---------------------------------------------------------------------------------------------
// Blocks

/// A coefficient is taken if its place is behind the one before and among the 64 of a block, and its
/// size is at most a million.
pub proof fn law_coefficients_taken(
    data: Seq<u8>,
    pos: int,
    left: nat,
    last: int,
    coeff: Seq<int>,
    place: u64,
    value: i32,
)
    requires
        left > 0,
        numbers::read_uvarint(data, pos) == Ok::<u64, crate::bitstream::v1::BitstreamError>(place),
        numbers::read_svarint(data, numbers::uvarint_end(data, pos)) == Ok::<
            i32,
            crate::bitstream::v1::BitstreamError,
        >(value),
    ensures
        syntax::read_coefficients(data, pos, left, last, coeff) == if last < place < 64 && -1_000_000
            <= value <= 1_000_000 {
            syntax::read_coefficients(
                data,
                numbers::uvarint_end(data, numbers::uvarint_end(data, pos)),
                (left - 1) as nat,
                place as int,
                coeff.update(place as int, value as int),
            )
        } else {
            Err(VideoError::BadCoefficient)
        },
{
}

/// A block has at most 64 coefficients.
pub proof fn law_coefficient_count(data: Seq<u8>, pos: int, mode: u8, n: u64)
    requires
        mode < 3,
        numbers::read_uvarint(data, pos) == Ok::<u64, crate::bitstream::v1::BitstreamError>(n),
    ensures
        n > 64 ==> syntax::read_block(data, pos, mode, 0, 64) == Err::<(syntax::Block, int), VideoError>(
            VideoError::BadCoefficient,
        ),
        n <= 64 ==> match syntax::read_coefficients(
            data,
            numbers::uvarint_end(data, pos),
            n as nat,
            -1,
            Seq::new(64, |i: int| 0int),
        ) {
            Ok((coeff, end)) => syntax::read_block(data, pos, mode, 0, 64) == Ok::<
                (syntax::Block, int),
                VideoError,
            >((syntax::Block::Residual { mode, reference: 0, dx: 0, dy: 0, coeff }, end)),
            Err(e) => syntax::read_block(data, pos, mode, 0, 64) == Err::<
                (syntax::Block, int),
                VideoError,
            >(e),
        },
{
    assert(syntax::no_coefficients() =~= Seq::new(64, |i: int| 0int));
}

/// Modes above four are refused; a block of mode three names one of the references and a motion of at
/// most 64 half samples either way.
pub proof fn law_modes_taken(
    data: Seq<u8>,
    pos: int,
    mode: u8,
    refs: nat,
    count: int,
    dx: i32,
    dy: i32,
)
    requires
        0 <= pos < data.len(),
        numbers::read_svarint(data, pos + 1) == Ok::<i32, crate::bitstream::v1::BitstreamError>(dx),
        numbers::read_svarint(data, numbers::uvarint_end(data, pos + 1)) == Ok::<
            i32,
            crate::bitstream::v1::BitstreamError,
        >(dy),
    ensures
        mode > 4 ==> syntax::read_block(data, pos, mode, refs, count) == Err::<
            (syntax::Block, int),
            VideoError,
        >(VideoError::BadMode),
        mode == 3 && (data[pos] >= refs || dx < -64 || dx > 64 || dy < -64 || dy > 64)
            ==> syntax::read_block(data, pos, mode, refs, count) == Err::<(syntax::Block, int), VideoError>(
            VideoError::BadMode,
        ),
        mode == 3 && data[pos] < refs && -64 <= dx <= 64 && -64 <= dy <= 64 ==> {
            let at = numbers::uvarint_end(data, numbers::uvarint_end(data, pos + 1));
            match (
                syntax::read_block(data, pos, mode, refs, count),
                syntax::read_block(data, at, 0, refs, count),
            ) {
                (Err(e), Err(other)) => e == other,
                (
                    Ok((syntax::Block::Residual { mode: m, reference, dx: x, dy: y, coeff }, end)),
                    Ok((syntax::Block::Residual { mode: n, reference: r, dx: a, dy: b, coeff: c }, stop)),
                ) => m == 3 && reference == data[pos] && x == dx && y == dy && coeff == c && end == stop,
                _ => false,
            }
        },
{
}

/// A palette has one to four colors and tells the number of samples of its block.
pub proof fn law_palettes_taken(data: Seq<u8>, pos: int, refs: nat, count: int)
    requires
        0 <= pos,
        1 <= count <= 64,
    ensures
        pos >= data.len() ==> syntax::read_block(data, pos, 4, refs, count) == Err::<
            (syntax::Block, int),
            VideoError,
        >(VideoError::UnexpectedEof),
        pos < data.len() && (data[pos] == 0 || data[pos] > 4) ==> syntax::read_block(
            data,
            pos,
            4,
            refs,
            count,
        ) == Err::<(syntax::Block, int), VideoError>(VideoError::BadPalette),
        pos < data.len() && 1 <= data[pos] <= 4 && pos + 1 + data[pos] < data.len() && data[pos + 1
            + data[pos]] != count ==> syntax::read_block(data, pos, 4, refs, count) == Err::<
            (syntax::Block, int),
            VideoError,
        >(VideoError::BadPalette),
        pos < data.len() && 1 <= data[pos] <= 4 && pos + 1 + data[pos] < data.len() && data[pos + 1
            + data[pos]] == count && data.len() < pos + 2 + data[pos] + (count + 3) / 4
            ==> syntax::read_block(data, pos, 4, refs, count) == Err::<(syntax::Block, int), VideoError>(
            VideoError::UnexpectedEof,
        ),
        pos < data.len() && data[pos] == 4 && pos + 5 < data.len() && data[pos + 5] == count
            && data.len() >= pos + 6 + (count + 3) / 4 ==> syntax::read_block(
            data,
            pos,
            4,
            refs,
            count,
        ) is Ok,
{
    if pos < data.len() && data[pos] == 4 && pos + 5 < data.len() && data[pos + 5] == count
        && data.len() >= pos + 6 + (count + 3) / 4 {
        let packed = data.subrange(pos + 6, pos + 6 + (count + 3) / 4);
        let index = Seq::new(count as nat, |k: int| syntax::packed_index(packed, k));
        assert forall|k: int| 0 <= k < count implies #[trigger] index[k] < 4 by {}
    }
}

/// A block whose coefficients times the quantizer step stay within 33 554 431 is taken, any other is
/// not.
pub proof fn law_scales_taken(
    lanes: syntax::Lanes,
    k: int,
    pos: int,
    refs: nat,
    w: int,
    h: int,
    q: int,
    mode: u8,
    at: int,
    coeff: Seq<int>,
    end: int,
    block: syntax::Block,
)
    requires
        syntax::read_mode(lanes, k, pos) == Ok::<(u8, int), VideoError>((mode, at)),
        syntax::read_block(
            syntax::data_lane(lanes),
            at,
            mode,
            refs,
            syntax::cut(w, syntax::block_x(w, k)) * syntax::cut(h, syntax::block_y(w, k)),
        ) == Ok::<(syntax::Block, int), VideoError>((block, end)),
        block matches syntax::Block::Residual { mode: m, reference, dx, dy, coeff: c } && c == coeff,
    ensures
        syntax::next_block(lanes, k, pos, refs, w, h, q) == if forall|i: int|
            0 <= i < 64 ==> -33_554_431 <= #[trigger] coeff[i] * q <= 33_554_431 {
            Ok::<(syntax::Block, int), VideoError>((block, end))
        } else {
            Err(VideoError::BadCoefficient)
        },
{
    let s = syntax::scaled(coeff, q);
    if forall|i: int| 0 <= i < 64 ==> -33_554_431 <= #[trigger] coeff[i] * q <= 33_554_431 {
        assert forall|i: int| 0 <= i < 64 implies -33_554_431 <= #[trigger] s[i] <= 33_554_431 by {
            assert(-33_554_431 <= coeff[i] * q <= 33_554_431);
        }
    } else {
        let i = choose|i: int|
            0 <= i < 64 && !(-33_554_431 <= #[trigger] (coeff[i] * q) <= 33_554_431);
        assert(s[i] == coeff[i] * q);
    }
}

// ---------------------------------------------------------------------------------------------
// Frames

/// Both sides even, not zero and at most 8192.
pub open spec fn allowed(w: int, h: int) -> bool {
    2 <= w <= 8192 && 2 <= h <= 8192 && w % 2 == 0 && h % 2 == 0
}

/// The head of a frame packet: each fault has its error, and they are looked for in this order.
pub proof fn law_frame_head(
    input: Seq<u8>,
    references: Seq<(u64, syntax::Picture)>,
    bounds: syntax::Bounds,
)
    ensures
        ({
            let told = syntax::decoded_frame(input, references, bounds);
            let (w, h) = (layout_laws::two(input, 12), layout_laws::two(input, 14));
            let long = input.len() >= 20;
            let starts = long && input[0] == 65 && input[1] == 76 && input[2] == 86 && input[3] == 49;
            let steps = starts && layout_laws::two(input, 16) != 0;
            let shaped = steps && allowed(w, h);
            let wanted = shaped && (bounds.expected matches Some((a, b)) ==> a == w && b == h);
            let fits = wanted && w * h <= bounds.max_pixels;
            &&& !long ==> told == Err::<(u64, syntax::Picture, Seq<u64>), VideoError>(
                VideoError::UnexpectedEof,
            )
            &&& long && !starts ==> told == Err::<(u64, syntax::Picture, Seq<u64>), VideoError>(
                VideoError::BadHeader,
            )
            &&& starts && !steps ==> told == Err::<(u64, syntax::Picture, Seq<u64>), VideoError>(
                VideoError::BadQuantizer,
            )
            &&& steps && !wanted ==> told == Err::<(u64, syntax::Picture, Seq<u64>), VideoError>(
                VideoError::BadDimensions,
            )
            &&& wanted && !fits ==> told == Err::<(u64, syntax::Picture, Seq<u64>), VideoError>(
                VideoError::OutputTooLarge,
            )
            &&& fits && (input[18] > 4 || input[19] != 1) ==> told == Err::<
                (u64, syntax::Picture, Seq<u64>),
                VideoError,
            >(VideoError::BadHeader)
            &&& fits && input[18] == 0 && input[19] == 1 ==> match syntax::read_envelopes(input, 20, 3) {
                Err(e) => told == Err::<(u64, syntax::Picture, Seq<u64>), VideoError>(e),
                Ok((parts, end)) => if end != input.len() {
                    told == Err::<(u64, syntax::Picture, Seq<u64>), VideoError>(VideoError::TrailingData)
                } else {
                    match syntax::decoded_planes(
                        parts,
                        Seq::empty(),
                        w,
                        h,
                        layout_laws::two(input, 16),
                        bounds.max_entropy,
                    ) {
                        Err(e) => told == Err::<(u64, syntax::Picture, Seq<u64>), VideoError>(e),
                        Ok(picture) => told == Ok::<(u64, syntax::Picture, Seq<u64>), VideoError>(
                            (layout_laws::eight(input, 4) as u64, picture, Seq::empty()),
                        ),
                    }
                },
            }
        }),
{
    if input.len() >= 20 {
        layout_laws::law_numbers(input, 4);
        layout_laws::law_numbers(input, 12);
        layout_laws::law_numbers(input, 14);
        layout_laws::law_numbers(input, 16);
        let head = input.take(4);
        assert(head[0] == input[0] && head[1] == input[1] && head[2] == input[2] && head[3] == input[3]);
        if input[0] == 65 && input[1] == 76 && input[2] == 86 && input[3] == 49 {
            assert(head =~= syntax::magic());
        }
    }
}

/// A reference is taken if it is there, not named before, not the frame itself, known, and of the size
/// of the frame.
pub proof fn law_references_taken(
    input: Seq<u8>,
    pos: int,
    left: nat,
    frame_id: u64,
    w: int,
    h: int,
    references: Seq<(u64, syntax::Picture)>,
    ids: Seq<u64>,
    pictures: Seq<syntax::Picture>,
)
    requires
        0 <= pos,
        left > 0,
    ensures
        ({
            let told = syntax::read_references(
                input,
                pos,
                left,
                frame_id,
                w,
                h,
                references,
                ids,
                pictures,
            );
            let id = layout_laws::eight(input, pos) as u64;
            if input.len() < pos + 8 {
                told == Err::<(Seq<u64>, Seq<syntax::Picture>, int), VideoError>(
                    VideoError::UnexpectedEof,
                )
            } else if ids.contains(id) || id == frame_id {
                told == Err::<(Seq<u64>, Seq<syntax::Picture>, int), VideoError>(VideoError::BadHeader)
            } else {
                match syntax::find_reference(references, id, 0) {
                    None => told == Err::<(Seq<u64>, Seq<syntax::Picture>, int), VideoError>(
                        VideoError::ReferenceMissing(id),
                    ),
                    Some(p) => if p.width == w && p.height == h {
                        told == syntax::read_references(
                            input,
                            pos + 8,
                            (left - 1) as nat,
                            frame_id,
                            w,
                            h,
                            references,
                            ids.push(id),
                            pictures.push(p),
                        )
                    } else {
                        told == Err::<(Seq<u64>, Seq<syntax::Picture>, int), VideoError>(
                            VideoError::ReferenceShape,
                        )
                    },
                }
            }
        }),
{
    layout_laws::law_numbers(input, pos);
}

/// A reference is found by its id, the first of those that have it.
pub proof fn law_reference_found(references: Seq<(u64, syntax::Picture)>, id: u64, k: int, i: int)
    requires
        0 <= i <= k <= references.len(),
        forall|j: int| i <= j < k ==> (#[trigger] references[j]).0 != id,
        k < references.len() ==> references[k].0 == id,
    ensures
        syntax::find_reference(references, id, i) == if k < references.len() {
            Some(references[k].1)
        } else {
            None::<syntax::Picture>
        },
    decreases k - i,
{
    if i < k {
        assert(references[i].0 != id);
        law_reference_found(references, id, k, i + 1);
    }
}

/// An envelope starts with a zero or a one.
pub proof fn law_envelopes_taken(input: Seq<u8>, pos: int)
    requires
        0 <= pos,
    ensures
        ({
            let n = layout_laws::four(input, pos + 1);
            let m = layout_laws::four(input, pos + 5 + n);
            let told = syntax::read_envelope(input, pos);
            &&& input.len() < pos + 5 || input.len() < pos + 5 + n ==> told == Err::<
                (syntax::Envelope, int),
                VideoError,
            >(VideoError::UnexpectedEof)
            &&& input.len() >= pos + 5 && input.len() >= pos + 5 + n && input[pos] == 0 ==> told is Ok
            &&& input.len() >= pos + 5 && input.len() >= pos + 5 + n && input[pos] > 1 ==> told == Err::<
                (syntax::Envelope, int),
                VideoError,
            >(VideoError::BadHeader)
            &&& input.len() >= pos + 5 && input.len() >= pos + 5 + n && input[pos] == 1 ==> {
                &&& input.len() < pos + 9 + n || input.len() < pos + 9 + n + m ==> told == Err::<
                    (syntax::Envelope, int),
                    VideoError,
                >(VideoError::UnexpectedEof)
                &&& input.len() >= pos + 9 + n && input.len() >= pos + 9 + n + m ==> told is Ok
            }
        }),
{
    layout_laws::law_numbers(input, pos + 1);
    if input.len() >= pos + 5 {
        let n = layout_laws::four(input, pos + 1);
        layout_laws::law_numbers(input, pos + 5 + n);
    }
}

// ---------------------------------------------------------------------------------------------
// Encoders

/// The samples of the three planes are as many as the dimensions ask for.
pub open spec fn whole(p: syntax::Picture) -> bool {
    p.y.len() == p.width * p.height && p.u.len() == p.width * p.height / 4 && p.v.len() == p.width
        * p.height / 4
}

/// A frame without references is coded if its dimensions are allowed, its planes are whole, the
/// quantizer step is not zero and motion is searched for within 32 samples.
pub proof fn law_frame_taken(id: u64, p: syntax::Picture, opt: EncodeOptions)
    ensures
        packets::encode_error(id, p, Seq::empty(), opt) == if !allowed(p.width, p.height) {
            Some(VideoError::BadDimensions)
        } else if !whole(p) {
            Some(VideoError::PlaneLength)
        } else if opt.qstep == 0 {
            Some(VideoError::BadQuantizer)
        } else if opt.motion_radius > 32 {
            Some(VideoError::BadHeader)
        } else {
            None
        },
{
    assert(packets::considered(Seq::empty(), opt).len() == 0);
}

/// With references it is coded if these are all of its size and whole, have ids of their own, and none
/// has that of the frame.
pub proof fn law_references_coded(
    refs: Seq<(u64, syntax::Picture)>,
    i: int,
    id: u64,
    w: int,
    h: int,
)
    requires
        0 <= i,
        allowed(w, h),
    ensures
        packets::reference_error(refs, i, id, w, h) is None <==> forall|k: int|
            i <= k < refs.len() ==> {
                let (other, p) = #[trigger] refs[k];
                other != id && !packets::seen_before(refs, k, other) && p.width == w && p.height == h
                    && whole(p)
            },
    decreases refs.len() - i,
{
    if i < refs.len() {
        law_references_coded(refs, i + 1, id, w, h);
        let (other, p) = refs[i];
        if packets::reference_error(refs, i, id, w, h) is None {
            assert forall|k: int| i <= k < refs.len() implies {
                let (other, p) = #[trigger] refs[k];
                other != id && !packets::seen_before(refs, k, other) && p.width == w && p.height == h
                    && whole(p)
            } by {}
        }
    }
}

/// A stateful encoder refuses pictures of more pixels than it is allowed, and otherwise what coding
/// them with its newest pictures refuses.
pub proof fn law_next_taken(
    id: u64,
    p: syntax::Picture,
    list: Seq<(u64, syntax::Picture)>,
    opt: EncodeOptions,
    most: int,
)
    ensures
        history::refused_next(id, p, list, opt, most) == if allowed(p.width, p.height) && whole(p)
            && p.width * p.height > most {
            Some(VideoError::OutputTooLarge)
        } else {
            packets::encode_error(id, p, list.reverse(), opt)
        },
{
}

/// The reference encoder codes frames of at most 67 108 864 pixels with any sides that are even.
pub proof fn law_reference_frame_taken(p: syntax::Picture, opt: planes::EncodeOptions)
    ensures
        video_encoder::encode_error(p, Seq::empty(), opt) == if p.width <= 0 || p.height <= 0 || p.width
            % 2 != 0 || p.height % 2 != 0 || p.width * p.height > 67_108_864 {
            Some(VideoError::BadDimensions)
        } else if !whole(p) {
            Some(VideoError::PlaneLength)
        } else if opt.qstep == 0 {
            Some(VideoError::BadQuantizer)
        } else {
            None
        },
{
    assert(video_encoder::considered(Seq::empty(), opt).len() == 0);
}

} // verus!
