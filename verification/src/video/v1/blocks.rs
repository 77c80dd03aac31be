//! Coded blocks: reading them from token lanes and reconstructing their samples.
use crate::bitstream;
use crate::bitstream::v1::{get_svarint_i32, get_uvarint};
use crate::kernels::scalar;
use crate::kernels::KernelSet;
use crate::video::v1::prediction;
use crate::video::v1::syntax;
use crate::video::v1::VideoError;
use vstd::prelude::*;

verus! {

/// One coded block.
#[derive(Debug)]
pub enum BlockRec {
    Residual { mode: u8, ref_idx: usize, dx2: i32, dy2: i32, qcoeff: [i32; 64] },
    Palette { colors: Vec<u8>, idx: Vec<u8> },
}

impl BlockRec {
    /// What the block says.
    pub open spec fn model(&self) -> syntax::Block {
        match self {
            BlockRec::Residual { mode, ref_idx, dx2, dy2, qcoeff } => syntax::Block::Residual {
                mode: *mode,
                reference: *ref_idx as int,
                dx: *dx2 as int,
                dy: *dy2 as int,
                coeff: scalar::ints(qcoeff@),
            },
            BlockRec::Palette { colors, idx } => syntax::Block::Palette {
                colors: colors@,
                index: idx@,
            },
        }
    }
}

/// The planes behind a slice of slices.
pub open spec fn views(refs: Seq<&[u8]>) -> Seq<Seq<u8>> {
    Seq::new(refs.len(), |i: int| refs[i]@)
}

/// Reads `left` coefficients with their positions.
fn read_coefficients(data: &[u8], pos: &mut usize, left: usize) -> (r: Result<[i32; 64], VideoError>)
    ensures
        match r {
            Ok(coeff) => syntax::read_coefficients(
                data@,
                *old(pos) as int,
                left as nat,
                -1,
                syntax::no_coefficients(),
            ) == Ok::<(Seq<int>, int), VideoError>((scalar::ints(coeff@), *final(pos) as int)),
            Err(e) => syntax::read_coefficients(
                data@,
                *old(pos) as int,
                left as nat,
                -1,
                syntax::no_coefficients(),
            ) == Err::<(Seq<int>, int), VideoError>(e),
        },
{
    let ghost goal = syntax::read_coefficients(
        data@,
        *pos as int,
        left as nat,
        -1,
        syntax::no_coefficients(),
    );
    let mut coeff: [i32; 64] = [0; 64];
    let mut next: u64 = 0;
    let mut done: usize = 0;
    assert(scalar::ints(coeff@) =~= syntax::no_coefficients());
    while done < left
        invariant
            done <= left,
            next <= 64,
            goal == syntax::read_coefficients(
                data@,
                *old(pos) as int,
                left as nat,
                -1,
                syntax::no_coefficients(),
            ),
            goal == syntax::read_coefficients(
                data@,
                *pos as int,
                (left - done) as nat,
                next - 1,
                scalar::ints(coeff@),
            ),
        decreases left - done,
    {
        let i: u64 = match get_uvarint(data, pos) {
            Ok(i) => i,
            Err(e) => {
                return Err(VideoError::Bitstream(e));
            },
        };
        if i >= 64 || i < next {
            return Err(VideoError::BadCoefficient);
        }
        let v: i32 = match get_svarint_i32(data, pos) {
            Ok(v) => v,
            Err(e) => {
                return Err(VideoError::Bitstream(e));
            },
        };
        if v > 1_000_000 || v < -1_000_000 {
            return Err(VideoError::BadCoefficient);
        }
        let ghost before = scalar::ints(coeff@);
        coeff[i as usize] = v;
        assert(scalar::ints(coeff@) =~= before.update(i as int, v as int));
        next = i + 1;
        done = done + 1;
    }
    Ok(coeff)
}

/// Two bits of a packed index list.
fn unpack_index(packed: &[u8], k: usize) -> (r: u8)
    requires
        k / 4 < packed@.len(),
    ensures
        r == syntax::packed_index(packed@, k as int),
        r < 4,
{
    let b: u8 = packed[k / 4];
    if k % 4 == 0 {
        b % 4
    } else if k % 4 == 1 {
        b / 4 % 4
    } else if k % 4 == 2 {
        b / 16 % 4
    } else {
        b / 64
    }
}

/// Reads the palette of a block of `count` samples.
#[verifier::loop_isolation(false)]
fn read_palette(data: &[u8], pos: &mut usize, count: usize) -> (r: Result<BlockRec, VideoError>)
    requires
        count <= 64,
    ensures
        match r {
            Ok(block) => syntax::read_palette(data@, *old(pos) as int, count as int) == Ok::<
                (syntax::Block, int),
                VideoError,
            >((block.model(), *final(pos) as int)),
            Err(e) => syntax::read_palette(data@, *old(pos) as int, count as int) == Err::<
                (syntax::Block, int),
                VideoError,
            >(e),
        },
{
    if *pos >= data.len() {
        return Err(VideoError::UnexpectedEof);
    }
    let n: usize = data[*pos] as usize;
    if n == 0 || n > 4 || data.len() - *pos < n + 2 {
        return Err(VideoError::BadPalette);
    }
    let colors_at: usize = *pos + 1;
    let count_at: usize = colors_at + n;
    if data[count_at] as usize != count {
        return Err(VideoError::BadPalette);
    }
    let packed_at: usize = count_at + 1;
    let bytes: usize = (count + 3) / 4;
    if data.len() - packed_at < bytes {
        return Err(VideoError::UnexpectedEof);
    }
    let packed: &[u8] = &data[packed_at..packed_at + bytes];
    let mut colors: Vec<u8> = Vec::new();
    colors.extend_from_slice(&data[colors_at..count_at]);
    assert(colors@ =~= data@.subrange(colors_at as int, count_at as int));
    let mut idx: Vec<u8> = Vec::new();
    let ghost index = Seq::new(count as nat, |k: int| syntax::packed_index(packed@, k));
    let mut k: usize = 0;
    while k < count
        invariant
            k <= count <= 64,
            packed@.len() == (count + 3) / 4,
            index == Seq::new(count as nat, |k: int| syntax::packed_index(packed@, k)),
            idx@.len() == k,
            forall|j: int| 0 <= j < k ==> #[trigger] idx@[j] == index[j] && idx@[j] < n,
        decreases count - k,
    {
        let ci: u8 = unpack_index(packed, k);
        if ci as usize >= n {
            proof {
                assert(index[k as int] >= n);
            }
            return Err(VideoError::BadPalette);
        }
        idx.push(ci);
        k = k + 1;
    }
    assert(idx@ =~= index);
    *pos = packed_at + bytes;
    Ok(BlockRec::Palette { colors, idx })
}

/// Reads one block of `count` samples coded in `mode` from the data lane.
pub fn read_block(data: &[u8], pos: &mut usize, mode: u8, refs: usize, count: usize) -> (r: Result<
    BlockRec,
    VideoError,
>)
    requires
        count <= 64,
    ensures
        match r {
            Ok(block) => syntax::read_block(
                data@,
                *old(pos) as int,
                mode,
                refs as nat,
                count as int,
            ) == Ok::<(syntax::Block, int), VideoError>((block.model(), *final(pos) as int)),
            Err(e) => syntax::read_block(data@, *old(pos) as int, mode, refs as nat, count as int)
                == Err::<(syntax::Block, int), VideoError>(e),
        },
{
    if mode == 4 {
        return read_palette(data, pos, count);
    }
    if mode > 3 {
        return Err(VideoError::BadMode);
    }
    let mut ref_idx: usize = 0;
    let mut dx2: i32 = 0;
    let mut dy2: i32 = 0;
    if mode == 3 {
        if *pos >= data.len() {
            return Err(VideoError::UnexpectedEof);
        }
        ref_idx = data[*pos] as usize;
        *pos = *pos + 1;
        if ref_idx >= refs {
            return Err(VideoError::BadMode);
        }
        dx2 = match get_svarint_i32(data, pos) {
            Ok(v) => v,
            Err(e) => {
                return Err(VideoError::Bitstream(e));
            },
        };
        dy2 = match get_svarint_i32(data, pos) {
            Ok(v) => v,
            Err(e) => {
                return Err(VideoError::Bitstream(e));
            },
        };
        if dx2 > 64 || dx2 < -64 || dy2 > 64 || dy2 < -64 {
            return Err(VideoError::BadMode);
        }
    }
    let nz: u64 = match get_uvarint(data, pos) {
        Ok(n) => n,
        Err(e) => {
            return Err(VideoError::Bitstream(e));
        },
    };
    if nz > 64 {
        return Err(VideoError::BadCoefficient);
    }
    match read_coefficients(data, pos, nz as usize) {
        Ok(qcoeff) => Ok(BlockRec::Residual { mode, ref_idx, dx2, dy2, qcoeff }),
        Err(e) => Err(e),
    }
}

/// Scales coefficients by the quantizer step; `None` where one leaves the range that the inverse
/// transform can take.
pub fn dequantize(qcoeff: &[i32; 64], q: i32) -> (r: Option<[i32; 64]>)
    ensures
        match r {
            Some(deq) => syntax::scale_fits(scalar::ints(qcoeff@), q as int) && scalar::ints(deq@)
                == syntax::scaled(scalar::ints(qcoeff@), q as int),
            None => !syntax::scale_fits(scalar::ints(qcoeff@), q as int),
        },
{
    let ghost goal = syntax::scaled(scalar::ints(qcoeff@), q as int);
    let mut deq: [i32; 64] = [0; 64];
    let mut i: usize = 0;
    while i < 64
        invariant
            i <= 64,
            goal == syntax::scaled(scalar::ints(qcoeff@), q as int),
            forall|j: int|
                0 <= j < i ==> #[trigger] deq@[j] == goal[j] && -33_554_431 <= deq@[j] <= 33_554_431,
        decreases 64 - i,
    {
        assert(goal[i as int] == qcoeff@[i as int] * q as int);
        proof {
            let c = qcoeff@[i as int] as int;
            assert(-0x4000_0000_0000_0000 <= c * q <= 0x4000_0000_0000_0000) by (nonlinear_arith)
                requires
                    -0x8000_0000 <= c <= 0x8000_0000,
                    -0x8000_0000 <= q <= 0x8000_0000,
            ;
        }
        let v: i64 = qcoeff[i] as i64 * q as i64;
        if v > 33_554_431 || v < -33_554_431 {
            return None;
        }
        deq[i] = v as i32;
        i = i + 1;
    }
    assert(scalar::ints(deq@) =~= goal);
    Some(deq)
}

/// Whether any coefficient is not zero.
pub fn any_coefficient(qcoeff: &[i32; 64]) -> (r: bool)
    ensures
        !r ==> scalar::ints(qcoeff@) == syntax::no_coefficients(),
{
    let mut i: usize = 0;
    while i < 64
        invariant
            i <= 64,
            forall|j: int| 0 <= j < i ==> #[trigger] qcoeff@[j] == 0,
        decreases 64 - i,
    {
        if qcoeff[i] != 0 {
            return true;
        }
        i = i + 1;
    }
    assert(scalar::ints(qcoeff@) =~= syntax::no_coefficients());
    false
}

/// Without coefficients a block is what was predicted.
pub proof fn lemma_no_residual(q: int, i: int)
    requires
        0 <= i < 64,
    ensures
        scalar::inverse_wht(syntax::scaled(syntax::no_coefficients(), q))[i] == 0,
        syntax::scale_fits(syntax::no_coefficients(), q),
{
    let m = syntax::scaled(syntax::no_coefficients(), q);
    assert forall|j: int| 0 <= j < 64 implies #[trigger] m[j] == 0 by {
        assert(m[j] == 0int * q);
    }
    scalar::lemma_wht_bound(m, 0);
    reveal(scalar::inverse_wht);
}

/// Adds a residual to a prediction.
pub fn add_residual(pred: &[u8; 64], deq: [i32; 64], kernels: KernelSet) -> (out: [u8; 64])
    requires
        forall|i: int| 0 <= i < 64 ==> -33_554_431 <= #[trigger] deq@[i] <= 33_554_431,
    ensures
        forall|i: int|
            0 <= i < 64 ==> #[trigger] out@[i] == syntax::clip(
                pred@[i] + scalar::inverse_wht(scalar::ints(deq@))[i],
            ),
{
    proof {
        assert forall|i: int| 0 <= i < 64 implies -33_554_431 <= #[trigger] scalar::ints(deq@)[i]
            <= 33_554_431 by {
            assert(scalar::ints(deq@)[i] == deq@[i]);
        }
        scalar::lemma_wht_bound(scalar::ints(deq@), 33_554_431);
    }
    let rr: [i32; 64] = kernels.inverse_wht8x8(deq);
    let mut out: [u8; 64] = [0; 64];
    let ghost m = scalar::inverse_wht(scalar::ints(deq@));
    proof {
        assert forall|i: int| 0 <= i < 64 implies -33_554_431 <= #[trigger] rr@[i] <= 33_554_431 by {
            assert(scalar::ints(rr@)[i] == rr@[i]);
            assert(-64 * 33_554_431 <= scalar::wht(scalar::ints(deq@))[i] <= 64 * 33_554_431);
            reveal(scalar::inverse_wht);
        }
    }
    let mut i: usize = 0;
    while i < 64
        invariant
            i <= 64,
            scalar::ints(rr@) == m,
            forall|j: int| 0 <= j < 64 ==> -33_554_431 <= #[trigger] rr@[j] <= 33_554_431,
            forall|j: int| 0 <= j < i ==> #[trigger] out@[j] == syntax::clip(pred@[j] + m[j]),
        decreases 64 - i,
    {
        assert(scalar::ints(rr@)[i as int] == rr@[i as int]);
        out[i] = prediction::clip8(pred[i] as i32 + rr[i]);
        i = i + 1;
    }
    out
}

/// Replaces one block of a plane.
pub fn store_block(
    recon: &mut [u8],
    w: usize,
    h: usize,
    bx: usize,
    by: usize,
    samples: &[u8; 64],
)
    requires
        prediction::placed(old(recon)@.len(), w, h, bx, by),
    ensures
        final(recon)@ == syntax::stored(
            old(recon)@,
            w as int,
            bx as int,
            by as int,
            |x: int, y: int| samples@[8 * y + x],
        ),
{
    let bw: usize = prediction::cut_len(w, bx);
    let bh: usize = prediction::cut_len(h, by);
    let ghost before = recon@;
    let ghost goal = syntax::stored(
        before,
        w as int,
        bx as int,
        by as int,
        |x: int, y: int| samples@[8 * y + x],
    );
    proof {
        prediction::lemma_fits(w as int, h as int);
    }
    let mut y: usize = 0;
    while y < bh
        invariant
            prediction::placed(before.len(), w, h, bx, by),
            before.len() <= 0x400_0000,
            recon@.len() == before.len(),
            bw == syntax::cut(w as int, bx as int) <= 8,
            bh == syntax::cut(h as int, by as int) <= 8,
            y <= bh,
            goal == syntax::stored(
                before,
                w as int,
                bx as int,
                by as int,
                |x: int, y: int| samples@[8 * y + x],
            ),
            forall|i: int|
                0 <= i < before.len() ==> #[trigger] recon@[i] == if i / w as int >= by + y {
                    before[i]
                } else {
                    goal[i]
                },
        decreases bh - y,
    {
        proof {
            prediction::lemma_row(w as int, h as int, by + y);
        }
        let row: usize = (by + y) * w + bx;
        let mut x: usize = 0;
        while x < bw
            invariant
                prediction::placed(before.len(), w, h, bx, by),
                before.len() <= 0x400_0000,
                recon@.len() == before.len(),
                bw == syntax::cut(w as int, bx as int) <= 8,
                bh == syntax::cut(h as int, by as int) <= 8,
                y < bh,
                x <= bw,
                row == (by + y) * w + bx,
                row + bw <= before.len(),
                goal == syntax::stored(
                    before,
                    w as int,
                    bx as int,
                    by as int,
                    |x: int, y: int| samples@[8 * y + x],
                ),
                forall|i: int|
                    0 <= i < before.len() ==> #[trigger] recon@[i] == if i / w as int > by + y || (i
                        / w as int == by + y && i % w as int >= bx + x) {
                        before[i]
                    } else {
                        goal[i]
                    },
            decreases bw - x,
        {
            proof {
                syntax::lemma_index(w as int, h as int, bx + x, by + y);
            }
            let ghost prior = recon@;
            recon[row + x] = samples[8 * y + x];
            proof {
                assert forall|i: int| 0 <= i < before.len() implies #[trigger] recon@[i] == if i
                    / w as int > by + y || (i / w as int == by + y && i % w as int >= bx + x + 1) {
                    before[i]
                } else {
                    goal[i]
                } by {
                    if i != row + x {
                        assert(recon@[i] == prior[i]);
                        syntax::lemma_index_inverse(w as int, h as int, i);
                    }
                }
            }
            x = x + 1;
        }
        proof {
            assert forall|i: int| 0 <= i < before.len() implies #[trigger] recon@[i] == if i
                / w as int >= by + y + 1 {
                before[i]
            } else {
                goal[i]
            } by {
                syntax::lemma_index_inverse(w as int, h as int, i);
            }
        }
        y = y + 1;
    }
    proof {
        assert forall|i: int| 0 <= i < before.len() implies #[trigger] recon@[i] == goal[i] by {
            syntax::lemma_index_inverse(w as int, h as int, i);
        }
        assert(recon@ =~= goal);
    }
}

/// The block fits `count` samples and this many references.
pub open spec fn block_shaped(block: syntax::Block, refs: nat, count: int) -> bool {
    match block {
        syntax::Block::Palette { colors, index } => {
            &&& 1 <= colors.len() <= 4
            &&& index.len() == count
            &&& forall|k: int| 0 <= k < count ==> #[trigger] index[k] < colors.len()
        },
        syntax::Block::Residual { mode, reference, dx, dy, coeff } => {
            &&& mode <= 3
            &&& mode == 3 ==> 0 <= reference < refs
            &&& -64 <= dx <= 64
            &&& -64 <= dy <= 64
            &&& coeff.len() == 64
        },
    }
}

/// The coefficients of the block, if it has any, can be scaled by `q`.
pub open spec fn block_scales(block: syntax::Block, q: int) -> bool {
    match block {
        syntax::Block::Palette { colors, index } => true,
        syntax::Block::Residual { mode, reference, dx, dy, coeff } => syntax::scale_fits(coeff, q),
    }
}

/// Whatever a lane gives can be reconstructed.
pub proof fn lemma_read_block_shaped(data: Seq<u8>, at: int, mode: u8, refs: nat, count: int)
    requires
        0 <= at,
        0 <= count,
    ensures
        syntax::read_block(data, at, mode, refs, count) matches Ok((block, end)) ==> block_shaped(
            block,
            refs,
            count,
        ),
{
    if mode < 3 {
        lemma_residual_len(data, at, mode, 0, 0, 0);
    } else if mode == 3 && at < data.len() {
        if let Ok(dx) = bitstream::syntax::read_svarint(data, at + 1) {
            let at2 = bitstream::syntax::uvarint_end(data, at + 1);
            if let Ok(dy) = bitstream::syntax::read_svarint(data, at2) {
                lemma_residual_len(
                    data,
                    bitstream::syntax::uvarint_end(data, at2),
                    mode,
                    data[at] as int,
                    dx as int,
                    dy as int,
                );
            }
        }
    }
}

proof fn lemma_residual_len(data: Seq<u8>, pos: int, mode: u8, reference: int, dx: int, dy: int)
    ensures
        syntax::read_residual(data, pos, mode, reference, dx, dy) matches Ok((block, end)) ==> {
            &&& block matches syntax::Block::Residual { mode: m, reference: r, dx: x, dy: y, coeff }
            &&& m == mode && r == reference && x == dx && y == dy && coeff.len() == 64
        },
{
    if let Ok(n) = bitstream::syntax::read_uvarint(data, pos) {
        lemma_coefficients_len(
            data,
            bitstream::syntax::uvarint_end(data, pos),
            n as nat,
            -1,
            syntax::no_coefficients(),
        );
    }
}

proof fn lemma_coefficients_len(data: Seq<u8>, pos: int, left: nat, last: int, coeff: Seq<int>)
    requires
        coeff.len() == 64,
    ensures
        syntax::read_coefficients(data, pos, left, last, coeff) matches Ok((c, end)) ==> c.len()
            == 64,
    decreases left,
{
    if left > 0 {
        if let Ok(i) = bitstream::syntax::read_uvarint(data, pos) {
            let at = bitstream::syntax::uvarint_end(data, pos);
            let v = bitstream::syntax::read_svarint(data, at);
            if v is Ok && i < 64 {
                let v = v->Ok_0;
                lemma_coefficients_len(
                    data,
                    bitstream::syntax::uvarint_end(data, at),
                    (left - 1) as nat,
                    i as int,
                    coeff.update(i as int, v as int),
                );
            }
        }
    }
}

/// Predicts the samples of a block.
pub fn predict_block(
    recon: &[u8],
    refs: &[&[u8]],
    w: usize,
    h: usize,
    bx: usize,
    by: usize,
    mode: u8,
    ref_idx: usize,
    dx2: i32,
    dy2: i32,
    kernels: KernelSet,
) -> (out: [u8; 64])
    requires
        prediction::placed(recon@.len(), w, h, bx, by),
        mode == 3 ==> ref_idx < refs@.len() && refs@[ref_idx as int]@.len() == w * h,
        -100_000 <= dx2 <= 100_000,
        -100_000 <= dy2 <= 100_000,
    ensures
        forall|x: int, y: int|
            0 <= x < syntax::cut(w as int, bx as int) && 0 <= y < syntax::cut(h as int, by as int)
                ==> #[trigger] out@[8 * y + x] == syntax::predicted(
                recon@,
                views(refs@),
                w as int,
                h as int,
                bx as int,
                by as int,
                x,
                y,
                mode,
                ref_idx as int,
                dx2 as int,
                dy2 as int,
            ),
{
    if mode == 3 {
        prediction::inter_prediction_block(refs[ref_idx], w, h, bx, by, dx2, dy2, kernels)
    } else {
        prediction::intra_prediction_block(recon, w, h, bx, by, mode)
    }
}

/// Reconstructs one block in place; `false` where its coefficients are out of range.
pub fn reconstruct_block(
    recon: &mut [u8],
    refs: &[&[u8]],
    w: usize,
    h: usize,
    bx: usize,
    by: usize,
    q: i32,
    block: &BlockRec,
    kernels: KernelSet,
) -> (r: bool)
    requires
        prediction::placed(old(recon)@.len(), w, h, bx, by),
        forall|i: int| 0 <= i < refs@.len() ==> #[trigger] refs@[i]@.len() == w * h,
        block_shaped(
            block.model(),
            refs@.len(),
            syntax::cut(w as int, bx as int) * syntax::cut(h as int, by as int),
        ),
    ensures
        final(recon)@.len() == old(recon)@.len(),
        r == block_scales(block.model(), q as int),
        r ==> final(recon)@ == syntax::with_block(
            old(recon)@,
            views(refs@),
            w as int,
            h as int,
            bx as int,
            by as int,
            q as int,
            block.model(),
        ),
{
    let ghost before = recon@;
    let ghost f = |x: int, y: int|
        syntax::block_sample(
            before,
            views(refs@),
            w as int,
            h as int,
            bx as int,
            by as int,
            q as int,
            block.model(),
            x,
            y,
        );
    match block {
        BlockRec::Palette { colors, idx } => {
            let samples: [u8; 64] = palette_samples(
                colors,
                idx,
                prediction::cut_len(w, bx),
                prediction::cut_len(h, by),
            );
            store_block(recon, w, h, bx, by, &samples);
            proof {
                let g = |x: int, y: int| samples@[8 * y + x];
                assert forall|x: int, y: int|
                    0 <= x < syntax::cut(w as int, bx as int) && 0 <= y < syntax::cut(
                        h as int,
                        by as int,
                    ) implies #[trigger] g(x, y) == f(x, y) by {
                    assert(samples@[8 * y + x] == colors@[idx@[y * syntax::cut(w as int, bx as int)
                        + x] as int]);
                }
                syntax::lemma_stored_agree(before, w as int, h as int, bx as int, by as int, g, f);
            }
            true
        },
        BlockRec::Residual { mode, ref_idx, dx2, dy2, qcoeff } => {
            let pred: [u8; 64] = predict_block(
                recon,
                refs,
                w,
                h,
                bx,
                by,
                *mode,
                *ref_idx,
                *dx2,
                *dy2,
                kernels,
            );
            if !any_coefficient(qcoeff) {
                store_block(recon, w, h, bx, by, &pred);
                proof {
                    let g = |x: int, y: int| pred@[8 * y + x];
                    lemma_no_residual(q as int, 0);
                    assert forall|x: int, y: int|
                        0 <= x < syntax::cut(w as int, bx as int) && 0 <= y < syntax::cut(
                            h as int,
                            by as int,
                        ) implies #[trigger] g(x, y) == f(x, y) by {
                        lemma_no_residual(q as int, 8 * y + x);
                        assert(pred@[8 * y + x] == syntax::predicted(
                            before,
                            views(refs@),
                            w as int,
                            h as int,
                            bx as int,
                            by as int,
                            x,
                            y,
                            *mode,
                            *ref_idx as int,
                            *dx2 as int,
                            *dy2 as int,
                        ));
                    }
                    syntax::lemma_stored_agree(
                        before,
                        w as int,
                        h as int,
                        bx as int,
                        by as int,
                        g,
                        f,
                    );
                }
                return true;
            }
            match dequantize(qcoeff, q) {
                None => false,
                Some(deq) => {
                    proof {
                        let s = syntax::scaled(scalar::ints(qcoeff@), q as int);
                        assert forall|i: int| 0 <= i < 64 implies -33_554_431 <= #[trigger] deq@[i]
                            <= 33_554_431 by {
                            assert(scalar::ints(deq@)[i] == deq@[i]);
                            assert(-33_554_431 <= s[i] <= 33_554_431);
                        }
                    }
                    let samples: [u8; 64] = add_residual(&pred, deq, kernels);
                    store_block(recon, w, h, bx, by, &samples);
                    proof {
                        let g = |x: int, y: int| samples@[8 * y + x];
                        assert forall|x: int, y: int|
                            0 <= x < syntax::cut(w as int, bx as int) && 0 <= y < syntax::cut(
                                h as int,
                                by as int,
                            ) implies #[trigger] g(x, y) == f(x, y) by {
                            assert(pred@[8 * y + x] == syntax::predicted(
                                before,
                                views(refs@),
                                w as int,
                                h as int,
                                bx as int,
                                by as int,
                                x,
                                y,
                                *mode,
                                *ref_idx as int,
                                *dx2 as int,
                                *dy2 as int,
                            ));
                            assert(samples@[8 * y + x] == syntax::clip(
                                pred@[8 * y + x] + scalar::inverse_wht(scalar::ints(deq@))[8 * y
                                    + x],
                            ));
                        }
                        syntax::lemma_stored_agree(
                            before,
                            w as int,
                            h as int,
                            bx as int,
                            by as int,
                            g,
                            f,
                        );
                    }
                    true
                },
            }
        },
    }
}

/// Spreads a palette block out over eight columns.
pub fn palette_samples(colors: &Vec<u8>, idx: &Vec<u8>, bw: usize, bh: usize) -> (out: [u8; 64])
    requires
        bw <= 8,
        bh <= 8,
        idx@.len() == bw * bh,
        forall|k: int| 0 <= k < idx@.len() ==> #[trigger] idx@[k] < colors@.len(),
    ensures
        forall|x: int, y: int|
            0 <= x < bw && 0 <= y < bh ==> #[trigger] out@[8 * y + x] == colors@[idx@[y * bw
                + x] as int],
{
    let mut out: [u8; 64] = [128; 64];
    let mut y: usize = 0;
    let mut k: usize = 0;
    while y < bh
        invariant
            bw <= 8,
            bh <= 8,
            idx@.len() == bw * bh,
            forall|k: int| 0 <= k < idx@.len() ==> #[trigger] idx@[k] < colors@.len(),
            y <= bh,
            k == y * bw,
            forall|x: int, r: int|
                0 <= x < bw && 0 <= r < y ==> #[trigger] out@[8 * r + x] == colors@[idx@[r * bw
                    + x] as int],
        decreases bh - y,
    {
        let mut x: usize = 0;
        while x < bw
            invariant
                bw <= 8,
                bh <= 8,
                idx@.len() == bw * bh,
                forall|k: int| 0 <= k < idx@.len() ==> #[trigger] idx@[k] < colors@.len(),
                y < bh,
                x <= bw,
                k == y * bw + x,
                forall|c: int, r: int|
                    0 <= c < bw && 0 <= r < 8 && (r < y || r == y && c < x) ==> #[trigger] out@[8
                        * r + c] == colors@[idx@[r * bw + c] as int],
            decreases bw - x,
        {
            proof {
                syntax::lemma_index(bw as int, bh as int, x as int, y as int);
                assert(idx.len() == idx@.len());
            }
            out[8 * y + x] = colors[idx[k] as usize];
            k = k + 1;
            x = x + 1;
        }
        proof {
            assert((y + 1) * bw == y * bw + bw) by (nonlinear_arith);
        }
        y = y + 1;
    }
    out
}

} // verus!
