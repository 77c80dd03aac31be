//! The ALV1 bitstream: what the bytes of a frame packet mean.
use crate::bitstream::syntax;
use crate::bytes;
use crate::kernels::scalar;
use crate::video::v1::VideoError;
use vstd::prelude::*;

verus! {

// ---------------------------------------------------------------------------------------------
// Blocks

/// A plane is coded in blocks of 8x8 samples, cut off at its right and lower edge.
pub open spec fn cut(len: int, at: int) -> int {
    if len - at < 8 {
        len - at
    } else {
        8
    }
}

pub open spec fn block_columns(w: int) -> int {
    (w + 7) / 8
}

/// How many blocks a plane has.
pub open spec fn block_count(w: int, h: int) -> int {
    block_columns(w) * block_columns(h)
}

/// The left edge of block `k`, counted row by row.
pub open spec fn block_x(w: int, k: int) -> int {
    8 * (k % block_columns(w))
}

/// The upper edge of block `k`.
pub open spec fn block_y(w: int, k: int) -> int {
    8 * (k / block_columns(w))
}

/// What is coded for one block.
pub enum Block {
    /// Up to four colors, and for each sample of the block which one it has.
    Palette { colors: Seq<u8>, index: Seq<u8> },
    /// A prediction and the quantized coefficients of what it misses.
    Residual { mode: u8, reference: int, dx: int, dy: int, coeff: Seq<int> },
}

pub open spec fn no_coefficients() -> Seq<int> {
    Seq::new(64, |i: int| 0int)
}

/// Reads `left` coefficients, each with its position, in ascending order of position.
pub open spec fn read_coefficients(
    data: Seq<u8>,
    pos: int,
    left: nat,
    last: int,
    coeff: Seq<int>,
) -> Result<(Seq<int>, int), VideoError>
    decreases left,
{
    if left == 0 {
        Ok((coeff, pos))
    } else {
        match syntax::read_uvarint(data, pos) {
            Err(e) => Err(VideoError::Bitstream(e)),
            Ok(i) => if i >= 64 || i <= last {
                Err(VideoError::BadCoefficient)
            } else {
                let at = syntax::uvarint_end(data, pos);
                match syntax::read_svarint(data, at) {
                    Err(e) => Err(VideoError::Bitstream(e)),
                    Ok(v) => if v > 1_000_000 || v < -1_000_000 {
                        Err(VideoError::BadCoefficient)
                    } else {
                        read_coefficients(
                            data,
                            syntax::uvarint_end(data, at),
                            (left - 1) as nat,
                            i as int,
                            coeff.update(i as int, v as int),
                        )
                    },
                }
            },
        }
    }
}

/// Two bits of a packed index list.
pub open spec fn packed_index(packed: Seq<u8>, k: int) -> u8 {
    let b = packed[k / 4] as int;
    (if k % 4 == 0 {
        b % 4
    } else if k % 4 == 1 {
        b / 4 % 4
    } else if k % 4 == 2 {
        b / 16 % 4
    } else {
        b / 64
    }) as u8
}

/// Reads the palette of a block of `count` samples.
pub open spec fn read_palette(data: Seq<u8>, pos: int, count: int) -> Result<
    (Block, int),
    VideoError,
> {
    if pos >= data.len() {
        Err(VideoError::UnexpectedEof)
    } else {
        let n = data[pos] as int;
        if n == 0 || n > 4 || data.len() < pos + 1 + n + 1 {
            Err(VideoError::BadPalette)
        } else if data[pos + 1 + n] != count {
            Err(VideoError::BadPalette)
        } else {
            let start = pos + 1 + n + 1;
            let end = start + (count + 3) / 4;
            if data.len() < end {
                Err(VideoError::UnexpectedEof)
            } else {
                let colors = data.subrange(pos + 1, pos + 1 + n);
                let packed = data.subrange(start, end);
                let index = Seq::new(count as nat, |k: int| packed_index(packed, k));
                if forall|k: int| 0 <= k < count ==> #[trigger] index[k] < n {
                    Ok((Block::Palette { colors, index }, end))
                } else {
                    Err(VideoError::BadPalette)
                }
            }
        }
    }
}

/// Reads the number of coefficients and the coefficients.
pub open spec fn read_residual(
    data: Seq<u8>,
    pos: int,
    mode: u8,
    reference: int,
    dx: int,
    dy: int,
) -> Result<(Block, int), VideoError> {
    match syntax::read_uvarint(data, pos) {
        Err(e) => Err(VideoError::Bitstream(e)),
        Ok(n) => if n > 64 {
            Err(VideoError::BadCoefficient)
        } else {
            match read_coefficients(
                data,
                syntax::uvarint_end(data, pos),
                n as nat,
                -1,
                no_coefficients(),
            ) {
                Err(e) => Err(e),
                Ok((coeff, end)) => Ok(
                    (Block::Residual { mode, reference, dx, dy, coeff }, end),
                ),
            }
        },
    }
}

/// Reads what the data lane holds at `pos` for a block of `count` samples coded in `mode`.
pub open spec fn read_block(data: Seq<u8>, pos: int, mode: u8, refs: nat, count: int) -> Result<
    (Block, int),
    VideoError,
> {
    if mode == 4 {
        read_palette(data, pos, count)
    } else if mode > 3 {
        Err(VideoError::BadMode)
    } else if mode < 3 {
        read_residual(data, pos, mode, 0, 0, 0)
    } else if pos >= data.len() {
        Err(VideoError::UnexpectedEof)
    } else if data[pos] >= refs {
        Err(VideoError::BadMode)
    } else {
        match syntax::read_svarint(data, pos + 1) {
            Err(e) => Err(VideoError::Bitstream(e)),
            Ok(dx) => {
                let at = syntax::uvarint_end(data, pos + 1);
                match syntax::read_svarint(data, at) {
                    Err(e) => Err(VideoError::Bitstream(e)),
                    Ok(dy) => if dx > 64 || dx < -64 || dy > 64 || dy < -64 {
                        Err(VideoError::BadMode)
                    } else {
                        read_residual(
                            data,
                            syntax::uvarint_end(data, at),
                            mode,
                            data[pos] as int,
                            dx as int,
                            dy as int,
                        )
                    },
                }
            },
        }
    }
}

// ---------------------------------------------------------------------------------------------
// Prediction

pub open spec fn clamp(v: int, low: int, high: int) -> int {
    if v < low {
        low
    } else if v > high {
        high
    } else {
        v
    }
}

/// The nearest sample value.
pub open spec fn clip(v: int) -> u8 {
    clamp(v, 0, 255) as u8
}

/// The sample at (`x`, `y`); outside the plane the nearest one at its edge.
pub open spec fn edge_sample(plane: Seq<u8>, w: int, h: int, x: int, y: int) -> int {
    plane[clamp(y, 0, h - 1) * w + clamp(x, 0, w - 1)] as int
}

/// The sample at half-sample coordinates: the mean of the one, two or four samples around it,
/// rounded up at halves.
pub open spec fn half_sample(plane: Seq<u8>, w: int, h: int, x2: int, y2: int) -> u8 {
    let (x, y) = (x2 / 2, y2 / 2);
    let a = edge_sample(plane, w, h, x, y);
    let b = edge_sample(plane, w, h, x + 1, y);
    let c = edge_sample(plane, w, h, x, y + 1);
    let d = edge_sample(plane, w, h, x + 1, y + 1);
    (if x2 % 2 == 0 && y2 % 2 == 0 {
        a
    } else if y2 % 2 == 0 {
        (a + b + 1) / 2
    } else if x2 % 2 == 0 {
        (a + c + 1) / 2
    } else {
        (a + b + c + d + 2) / 4
    }) as u8
}

/// The sum of the first `n` samples above a block.
pub open spec fn sum_above(plane: Seq<u8>, w: int, bx: int, by: int, n: int) -> nat
    decreases n,
{
    if n <= 0 {
        0
    } else {
        sum_above(plane, w, bx, by, n - 1) + plane[(by - 1) * w + bx + n - 1] as nat
    }
}

/// The sum of the first `n` samples left of a block.
pub open spec fn sum_left(plane: Seq<u8>, w: int, bx: int, by: int, n: int) -> nat
    decreases n,
{
    if n <= 0 {
        0
    } else {
        sum_left(plane, w, bx, by, n - 1) + plane[(by + n - 1) * w + bx - 1] as nat
    }
}

/// The rounded mean of the samples above and left of a block; 128 where there are none.
pub open spec fn mean_around(plane: Seq<u8>, w: int, h: int, bx: int, by: int) -> u8 {
    let above = if by > 0 {
        sum_above(plane, w, bx, by, cut(w, bx))
    } else {
        0
    };
    let left = if bx > 0 {
        sum_left(plane, w, bx, by, cut(h, by))
    } else {
        0
    };
    let n = (if by > 0 {
        cut(w, bx)
    } else {
        0
    }) + (if bx > 0 {
        cut(h, by)
    } else {
        0
    });
    if n == 0 {
        128
    } else {
        ((above + left + n / 2) / n) as u8
    }
}

/// Prediction from the samples around the block: 1 continues the column on its left, 2 the row
/// above, anything else the mean of both.
pub open spec fn intra_predicted(
    plane: Seq<u8>,
    w: int,
    h: int,
    bx: int,
    by: int,
    x: int,
    y: int,
    mode: u8,
) -> u8 {
    if mode == 1 {
        if bx > 0 {
            plane[(by + y) * w + bx - 1]
        } else {
            128
        }
    } else if mode == 2 {
        if by > 0 {
            plane[(by - 1) * w + bx + x]
        } else {
            128
        }
    } else {
        mean_around(plane, w, h, bx, by)
    }
}

/// Prediction of sample (`x`, `y`) of the block at (`bx`, `by`).
pub open spec fn predicted(
    plane: Seq<u8>,
    refs: Seq<Seq<u8>>,
    w: int,
    h: int,
    bx: int,
    by: int,
    x: int,
    y: int,
    mode: u8,
    reference: int,
    dx: int,
    dy: int,
) -> u8 {
    if mode == 3 {
        half_sample(refs[reference], w, h, 2 * (bx + x) + dx, 2 * (by + y) + dy)
    } else {
        intra_predicted(plane, w, h, bx, by, x, y, mode)
    }
}

// ---------------------------------------------------------------------------------------------
// Reconstruction

/// The coefficients times the quantizer step.
pub open spec fn scaled(coeff: Seq<int>, q: int) -> Seq<int> {
    Seq::new(64, |i: int| coeff[i] * q)
}

/// The scaled coefficients stay within what the inverse transform can take.
pub open spec fn scale_fits(coeff: Seq<int>, q: int) -> bool {
    forall|i: int| 0 <= i < 64 ==> -33_554_431 <= #[trigger] scaled(coeff, q)[i] <= 33_554_431
}

/// Sample (`x`, `y`) of a block as a decoder reconstructs it.
pub open spec fn block_sample(
    plane: Seq<u8>,
    refs: Seq<Seq<u8>>,
    w: int,
    h: int,
    bx: int,
    by: int,
    q: int,
    block: Block,
    x: int,
    y: int,
) -> u8 {
    match block {
        Block::Palette { colors, index } => colors[index[y * cut(w, bx) + x] as int],
        Block::Residual { mode, reference, dx, dy, coeff } => clip(
            predicted(plane, refs, w, h, bx, by, x, y, mode, reference, dx, dy) + scalar::inverse_wht(
                scaled(coeff, q),
            )[8 * y + x],
        ),
    }
}

/// The plane with the block at (`bx`, `by`) replaced; `f` gives its samples.
pub open spec fn stored(plane: Seq<u8>, w: int, bx: int, by: int, f: spec_fn(int, int) -> u8) -> Seq<u8> {
    Seq::new(
        plane.len(),
        |i: int|
            if bx <= i % w < bx + 8 && by <= i / w < by + 8 {
                f(i % w - bx, i / w - by)
            } else {
                plane[i]
            },
    )
}

/// The plane with one block reconstructed.
pub open spec fn with_block(
    plane: Seq<u8>,
    refs: Seq<Seq<u8>>,
    w: int,
    h: int,
    bx: int,
    by: int,
    q: int,
    block: Block,
) -> Seq<u8> {
    stored(
        plane,
        w,
        bx,
        by,
        |x: int, y: int| block_sample(plane, refs, w, h, bx, by, q, block, x, y),
    )
}

/// A plane before any block is decoded.
pub open spec fn gray(w: int, h: int) -> Seq<u8> {
    Seq::new((w * h) as nat, |i: int| 128u8)
}

/// The tokens of a plane: modes and data in one lane, or the modes in a lane of their own.
pub enum Lanes {
    Single(Seq<u8>),
    Split(Seq<u8>, Seq<u8>),
}

pub open spec fn data_lane(lanes: Lanes) -> Seq<u8> {
    match lanes {
        Lanes::Single(tokens) => tokens,
        Lanes::Split(control, data) => data,
    }
}

/// The mode of block `k`, where the data lane is read up to `pos`; and where its data starts.
pub open spec fn read_mode(lanes: Lanes, k: int, pos: int) -> Result<(u8, int), VideoError> {
    match lanes {
        Lanes::Single(tokens) => if pos < tokens.len() {
            Ok((tokens[pos], pos + 1))
        } else {
            Err(VideoError::UnexpectedEof)
        },
        Lanes::Split(control, data) => if k < control.len() {
            Ok((control[k], pos))
        } else {
            Err(VideoError::UnexpectedEof)
        },
    }
}

/// Block `k`, and the position behind it in the data lane.
pub open spec fn next_block(lanes: Lanes, k: int, pos: int, refs: nat, w: int, h: int, q: int) -> Result<
    (Block, int),
    VideoError,
> {
    match read_mode(lanes, k, pos) {
        Err(e) => Err(e),
        Ok((mode, at)) => match read_block(
            data_lane(lanes),
            at,
            mode,
            refs,
            cut(w, block_x(w, k)) * cut(h, block_y(w, k)),
        ) {
            Err(e) => Err(e),
            Ok((block, end)) => match block {
                Block::Palette { colors, index } => Ok((block, end)),
                Block::Residual { mode, reference, dx, dy, coeff } => if scale_fits(coeff, q) {
                    Ok((block, end))
                } else {
                    Err(VideoError::BadCoefficient)
                },
            },
        },
    }
}

/// Nothing is left over in the lanes once block `k` is reached.
pub open spec fn lanes_done(lanes: Lanes, k: int, pos: int) -> bool {
    match lanes {
        Lanes::Single(tokens) => pos == tokens.len(),
        Lanes::Split(control, data) => k == control.len() && pos == data.len(),
    }
}

/// Decodes the blocks from `k` on into `plane`.
pub open spec fn decoded_from(
    lanes: Lanes,
    k: int,
    pos: int,
    refs: Seq<Seq<u8>>,
    w: int,
    h: int,
    q: int,
    plane: Seq<u8>,
) -> Result<Seq<u8>, VideoError>
    decreases block_count(w, h) - k,
{
    if k >= block_count(w, h) {
        if lanes_done(lanes, k, pos) {
            Ok(plane)
        } else {
            Err(VideoError::TrailingData)
        }
    } else {
        match next_block(lanes, k, pos, refs.len(), w, h, q) {
            Err(e) => Err(e),
            Ok((block, end)) => decoded_from(
                lanes,
                k + 1,
                end,
                refs,
                w,
                h,
                q,
                with_block(plane, refs, w, h, block_x(w, k), block_y(w, k), q, block),
            ),
        }
    }
}

/// The plane that the tokens describe, or why they are refused.
pub open spec fn decoded_plane(lanes: Lanes, refs: Seq<Seq<u8>>, w: int, h: int, q: int) -> Result<
    Seq<u8>,
    VideoError,
> {
    decoded_from(lanes, 0, 0, refs, w, h, q, gray(w, h))
}

// ---------------------------------------------------------------------------------------------
// Frames

/// A planar 4:2:0 picture.
pub struct Picture {
    pub width: int,
    pub height: int,
    pub y: Seq<u8>,
    pub u: Seq<u8>,
    pub v: Seq<u8>,
}

impl Picture {
    pub open spec fn plane(self, p: int) -> Seq<u8> {
        if p == 0 {
            self.y
        } else if p == 1 {
            self.u
        } else {
            self.v
        }
    }

    /// The planes have the sizes that the dimensions ask for.
    pub open spec fn sized(self) -> bool {
        &&& self.y.len() == self.width * self.height
        &&& self.u.len() == self.width * self.height / 4
        &&& self.v.len() == self.width * self.height / 4
    }

    /// A picture that can be coded.
    pub open spec fn valid(self) -> bool {
        dimensions_ok(self.width, self.height) && self.sized()
    }
}

/// Even, not zero and at most 8192.
pub open spec fn dimensions_ok(w: int, h: int) -> bool {
    0 < w <= 8192 && 0 < h <= 8192 && w % 2 == 0 && h % 2 == 0
}

/// The width of plane `p` of a picture of width `w`; heights go the same way.
pub open spec fn plane_len(w: int, p: int) -> int {
    if p == 0 {
        w
    } else {
        w / 2
    }
}

/// The compressed tokens of one plane.
pub enum Envelope {
    Single(Seq<u8>),
    Split(Seq<u8>, Seq<u8>),
}

/// A length of four bytes and as many bytes as it says.
pub open spec fn read_chunk(input: Seq<u8>, pos: int) -> Result<(Seq<u8>, int), VideoError> {
    if input.len() < pos + 4 {
        Err(VideoError::UnexpectedEof)
    } else {
        let end = pos + 4 + bytes::le_value(input.subrange(pos, pos + 4));
        if input.len() < end {
            Err(VideoError::UnexpectedEof)
        } else {
            Ok((input.subrange(pos + 4, end), end))
        }
    }
}

pub open spec fn read_envelope(input: Seq<u8>, pos: int) -> Result<(Envelope, int), VideoError> {
    if pos >= input.len() {
        Err(VideoError::UnexpectedEof)
    } else {
        match read_chunk(input, pos + 1) {
            Err(e) => Err(e),
            Ok((first, at)) => if input[pos] == 0 {
                Ok((Envelope::Single(first), at))
            } else if input[pos] == 1 {
                match read_chunk(input, at) {
                    Err(e) => Err(e),
                    Ok((second, end)) => Ok((Envelope::Split(first, second), end)),
                }
            } else {
                Err(VideoError::BadHeader)
            },
        }
    }
}

/// Reads `n` envelopes.
pub open spec fn read_envelopes(input: Seq<u8>, pos: int, n: nat) -> Result<
    (Seq<Envelope>, int),
    VideoError,
>
    decreases n,
{
    if n == 0 {
        Ok((Seq::empty(), pos))
    } else {
        match read_envelope(input, pos) {
            Err(e) => Err(e),
            Ok((first, at)) => match read_envelopes(input, at, (n - 1) as nat) {
                Err(e) => Err(e),
                Ok((rest, end)) => Ok((seq![first] + rest, end)),
            },
        }
    }
}

/// The tokens of an envelope; lanes of more than `max` bytes are refused.
pub open spec fn opened(envelope: Envelope, max: nat) -> Result<Lanes, VideoError> {
    match envelope {
        Envelope::Single(first) => match syntax::decompressed(first, max, false) {
            Err(e) => Err(VideoError::Bitstream(e)),
            Ok(tokens) => Ok(Lanes::Single(tokens)),
        },
        Envelope::Split(first, second) => match syntax::decompressed(first, max, false) {
            Err(e) => Err(VideoError::Bitstream(e)),
            Ok(control) => match syntax::decompressed(second, max, false) {
                Err(e) => Err(VideoError::Bitstream(e)),
                Ok(data) => Ok(Lanes::Split(control, data)),
            },
        },
    }
}

/// Plane `p` of a picture of size `w` x `h`, from its envelope.
#[verifier::opaque]
pub open spec fn decoded_envelope(
    envelope: Envelope,
    refs: Seq<Picture>,
    p: int,
    w: int,
    h: int,
    q: int,
    max: nat,
) -> Result<Seq<u8>, VideoError> {
    match opened(envelope, max) {
        Err(e) => Err(e),
        Ok(lanes) => decoded_plane(lanes, planes_of(refs, p), plane_len(w, p), plane_len(h, p), q),
    }
}

/// Plane `p` of each picture.
pub open spec fn planes_of(refs: Seq<Picture>, p: int) -> Seq<Seq<u8>> {
    Seq::new(refs.len(), |i: int| refs[i].plane(p))
}

/// The first picture from `i` on that has this id.
pub open spec fn find_reference(references: Seq<(u64, Picture)>, id: u64, i: int) -> Option<Picture>
    decreases references.len() - i,
{
    if i < 0 || i >= references.len() {
        None
    } else if references[i].0 == id {
        Some(references[i].1)
    } else {
        find_reference(references, id, i + 1)
    }
}

/// Reads `left` reference ids and looks the pictures up. None may be named twice, nor the frame
/// itself.
pub open spec fn read_references(
    input: Seq<u8>,
    pos: int,
    left: nat,
    frame_id: u64,
    w: int,
    h: int,
    references: Seq<(u64, Picture)>,
    ids: Seq<u64>,
    pictures: Seq<Picture>,
) -> Result<(Seq<u64>, Seq<Picture>, int), VideoError>
    decreases left,
{
    if left == 0 {
        Ok((ids, pictures, pos))
    } else if input.len() < pos + 8 {
        Err(VideoError::UnexpectedEof)
    } else {
        let id = bytes::le_value(input.subrange(pos, pos + 8)) as u64;
        if ids.contains(id) || id == frame_id {
            Err(VideoError::BadHeader)
        } else {
            match find_reference(references, id, 0) {
                None => Err(VideoError::ReferenceMissing(id)),
                Some(picture) => if picture.width != w || picture.height != h {
                    Err(VideoError::ReferenceShape)
                } else {
                    read_references(
                        input,
                        pos + 8,
                        (left - 1) as nat,
                        frame_id,
                        w,
                        h,
                        references,
                        ids.push(id),
                        pictures.push(picture),
                    )
                },
            }
        }
    }
}

/// What limits a decoder.
pub struct Bounds {
    pub max_pixels: int,
    pub max_entropy: nat,
    pub expected: Option<(u32, u32)>,
}

/// The four bytes that a frame packet starts with: `ALV1`.
pub open spec fn magic() -> Seq<u8> {
    seq![65u8, 76u8, 86u8, 49u8]
}

/// The three planes from their envelopes, in the order of the planes.
pub open spec fn decoded_planes(
    envelopes: Seq<Envelope>,
    refs: Seq<Picture>,
    w: int,
    h: int,
    q: int,
    max: nat,
) -> Result<Picture, VideoError> {
    match decoded_envelope(envelopes[0], refs, 0, w, h, q, max) {
        Err(e) => Err(e),
        Ok(y) => match decoded_envelope(envelopes[1], refs, 1, w, h, q, max) {
            Err(e) => Err(e),
            Ok(u) => match decoded_envelope(envelopes[2], refs, 2, w, h, q, max) {
                Err(e) => Err(e),
                Ok(v) => Ok(Picture { width: w, height: h, y, u, v }),
            },
        },
    }
}

/// The frame that a packet holds: its id, the picture and the ids of the pictures it was
/// predicted from; or why the packet is refused.
pub open spec fn decoded_frame(
    input: Seq<u8>,
    references: Seq<(u64, Picture)>,
    bounds: Bounds,
) -> Result<(u64, Picture, Seq<u64>), VideoError> {
    if input.len() < 20 {
        Err(VideoError::UnexpectedEof)
    } else if input.take(4) != magic() {
        Err(VideoError::BadHeader)
    } else {
        let frame_id = bytes::le_value(input.subrange(4, 12)) as u64;
        let w = bytes::le_value(input.subrange(12, 14)) as int;
        let h = bytes::le_value(input.subrange(14, 16)) as int;
        let q = bytes::le_value(input.subrange(16, 18)) as int;
        let count = input[18] as nat;
        if q == 0 {
            Err(VideoError::BadQuantizer)
        } else if !dimensions_ok(w, h) {
            Err(VideoError::BadDimensions)
        } else if bounds.expected matches Some((ew, eh)) && (ew != w || eh != h) {
            Err(VideoError::BadDimensions)
        } else if w * h > bounds.max_pixels {
            Err(VideoError::OutputTooLarge)
        } else if count > 4 || input[19] != 1 {
            Err(VideoError::BadHeader)
        } else {
            match read_references(
                input,
                20,
                count,
                frame_id,
                w,
                h,
                references,
                Seq::empty(),
                Seq::empty(),
            ) {
                Err(e) => Err(e),
                Ok((ids, pictures, at)) => match read_envelopes(input, at, 3) {
                    Err(e) => Err(e),
                    Ok((envelopes, end)) => if end != input.len() {
                        Err(VideoError::TrailingData)
                    } else {
                        match decoded_planes(envelopes, pictures, w, h, q, bounds.max_entropy) {
                            Err(e) => Err(e),
                            Ok(picture) => Ok((frame_id, picture, ids)),
                        }
                    },
                },
            }
        }
    }
}

// ---------------------------------------------------------------------------------------------
// Geometry

/// Samples are stored row by row.
pub proof fn lemma_index(w: int, h: int, x: int, y: int)
    requires
        0 <= x < w,
        0 <= y < h,
    ensures
        0 <= y * w + x < w * h,
        (y * w + x) % w == x,
        (y * w + x) / w == y,
{
    assert(y * w + x < w * h) by (nonlinear_arith)
        requires
            0 <= x < w,
            0 <= y < h,
    ;
    assert(0 <= y * w) by (nonlinear_arith)
        requires
            0 <= y,
            0 <= w,
    ;
    vstd::arithmetic::div_mod::lemma_fundamental_div_mod_converse(y * w + x, w, y, x);
}

pub proof fn lemma_index_inverse(w: int, h: int, i: int)
    requires
        0 < w,
        0 <= i < w * h,
    ensures
        0 <= i % w < w,
        0 <= i / w < h,
        i == (i / w) * w + i % w,
{
    vstd::arithmetic::div_mod::lemma_fundamental_div_mod(i, w);
    vstd::arithmetic::div_mod::lemma_mod_bound(i, w);
    let q = i / w;
    assert(w * q == q * w) by (nonlinear_arith);
    assert(q < h) by (nonlinear_arith)
        requires
            q * w <= i,
            i < w * h,
            w > 0,
    ;
    assert(q >= 0) by (nonlinear_arith)
        requires
            i == q * w + i % w,
            0 <= i,
            i % w < w,
            w > 0,
    ;
}

pub proof fn lemma_block_place(w: int, h: int, k: int)
    requires
        0 < w,
        0 < h,
        0 <= k < block_count(w, h),
    ensures
        0 <= block_x(w, k) < w,
        0 <= block_y(w, k) < h,
        block_x(w, k) % 8 == 0,
        block_y(w, k) % 8 == 0,
{
    lemma_index_inverse(block_columns(w), block_columns(h), k);
}

pub proof fn lemma_next_place(w: int, h: int, k: int)
    requires
        0 < w,
        0 < h,
        0 <= k < block_count(w, h),
    ensures
        block_x(w, k) + 8 < w ==> block_x(w, k + 1) == block_x(w, k) + 8 && block_y(w, k + 1)
            == block_y(w, k),
        block_x(w, k) + 8 >= w ==> block_x(w, k + 1) == 0 && block_y(w, k + 1) == block_y(w, k) + 8,
        block_y(w, k + 1) < h <==> k + 1 < block_count(w, h),
{
    let c = block_columns(w);
    let r = block_columns(h);
    lemma_index_inverse(c, r, k);
    let (x, y) = (k % c, k / c);
    if x + 1 < c {
        vstd::arithmetic::div_mod::lemma_fundamental_div_mod_converse(k + 1, c, y, x + 1);
    } else {
        assert((y + 1) * c == y * c + c) by (nonlinear_arith);
        vstd::arithmetic::div_mod::lemma_fundamental_div_mod_converse(k + 1, c, y + 1, 0);
    }
    let (x1, y1) = ((k + 1) % c, (k + 1) / c);
    assert(k + 1 == y1 * c + x1 && 0 <= x1 < c);
    if y1 < r {
        assert(y1 * c + x1 < c * r) by (nonlinear_arith)
            requires
                y1 + 1 <= r,
                0 <= x1 < c,
        ;
    } else {
        assert(y1 * c >= c * r) by (nonlinear_arith)
            requires
                y1 >= r,
                c > 0,
        ;
    }
}

pub proof fn lemma_block_count(w: int, h: int)
    requires
        0 < w,
        0 < h,
    ensures
        block_count(w, h) > 0,
        block_x(w, 0) == 0,
        block_y(w, 0) == 0,
        w <= 8192 && h <= 8192 ==> block_count(w, h) <= 1048576,
        block_count(w, h) <= w * h,
{
    let c = block_columns(w);
    let r = block_columns(h);
    assert(c * r > 0) by (nonlinear_arith)
        requires
            c > 0,
            r > 0,
    ;
    if w <= 8192 && h <= 8192 {
        assert(c * r <= 1048576) by (nonlinear_arith)
            requires
                0 < c <= 1024,
                0 < r <= 1024,
        ;
    }
    assert(c * r <= w * h) by (nonlinear_arith)
        requires
            0 < c <= w,
            0 < r <= h,
    ;
    vstd::arithmetic::div_mod::lemma_fundamental_div_mod_converse(0, c, 0, 0);
}

/// Two ways to fill a block give the same plane if they agree within the plane.
pub proof fn lemma_stored_agree(
    plane: Seq<u8>,
    w: int,
    h: int,
    bx: int,
    by: int,
    f: spec_fn(int, int) -> u8,
    g: spec_fn(int, int) -> u8,
)
    requires
        0 < w,
        0 < h,
        plane.len() == w * h,
        forall|x: int, y: int|
            0 <= x < cut(w, bx) && 0 <= y < cut(h, by) ==> #[trigger] f(x, y) == g(x, y),
    ensures
        stored(plane, w, bx, by, f) == stored(plane, w, bx, by, g),
{
    let (a, b) = (stored(plane, w, bx, by, f), stored(plane, w, bx, by, g));
    assert forall|i: int| 0 <= i < plane.len() implies a[i] == b[i] by {
        lemma_index_inverse(w, h, i);
        if bx <= i % w < bx + 8 && by <= i / w < by + 8 {
            assert(f(i % w - bx, i / w - by) == g(i % w - bx, i / w - by));
        }
    }
    assert(a =~= b);
}

} // verus!
