//! Prediction of blocks from their surroundings and from other frames.
use crate::kernels::scalar;
use crate::kernels::KernelSet;
use crate::video::v1::syntax;
use vstd::prelude::*;

verus! {

/// A block at (`bx`, `by`) of a plane of `len` samples.
pub open spec fn placed(len: nat, w: usize, h: usize, bx: usize, by: usize) -> bool {
    plane_fits(w as int, h as int) && bx < w && by < h && len == w * h
}

/// A plane that is not empty and has no more than 67 108 864 samples.
pub open spec fn plane_fits(w: int, h: int) -> bool {
    0 < w && 0 < h && w * h <= 0x400_0000
}

/// No side of a plane is longer than the plane has samples.
pub proof fn lemma_fits(w: int, h: int)
    requires
        plane_fits(w, h),
    ensures
        w <= 0x400_0000,
        h <= 0x400_0000,
        0 < w * h <= 0x400_0000,
{
    assert(w <= w * h && h <= w * h) by (nonlinear_arith)
        requires
            0 < w,
            0 < h,
    ;
}

pub proof fn lemma_plane_size(w: int, h: int)
    requires
        0 < w <= 8192,
        0 < h <= 8192,
    ensures
        0 < w * h <= 0x400_0000,
{
    assert(0 < w * h <= 0x400_0000) by (nonlinear_arith)
        requires
            0 < w <= 8192,
            0 < h <= 8192,
    ;
}

pub proof fn lemma_row(w: int, h: int, y: int)
    requires
        0 < w,
        0 <= y < h,
    ensures
        0 <= y * w <= w * h - w,
{
    assert(0 <= y * w <= w * h - w) by (nonlinear_arith)
        requires
            0 < w,
            0 <= y < h,
    ;
}

/// The nearest 8-bit sample value.
pub fn clip8(v: i32) -> (r: u8)
    ensures
        r == syntax::clip(v as int),
{
    if v < 0 {
        0
    } else if v > 255 {
        255
    } else {
        v as u8
    }
}

/// The smaller of 8 and what is left of a plane edge.
pub fn cut_len(len: usize, at: usize) -> (r: usize)
    requires
        at <= len,
    ensures
        r == syntax::cut(len as int, at as int),
{
    if len - at < 8 {
        len - at
    } else {
        8
    }
}

/// The rounded mean of the samples above and left of a block.
fn mean_sample(recon: &[u8], w: usize, h: usize, bx: usize, by: usize) -> (r: u8)
    requires
        placed(recon@.len(), w, h, bx, by),
    ensures
        r == syntax::mean_around(recon@, w as int, h as int, bx as int, by as int),
{
    let bw: usize = cut_len(w, bx);
    let bh: usize = cut_len(h, by);
    let mut above: u32 = 0;
    let mut left: u32 = 0;
    let mut n: u32 = 0;
    proof {
        lemma_fits(w as int, h as int);
    }
    if by > 0 {
        proof {
            lemma_row(w as int, h as int, by - 1);
        }
        let row: usize = (by - 1) * w + bx;
        let mut x: usize = 0;
        while x < bw
            invariant
                placed(recon@.len(), w, h, bx, by),
                by > 0,
                bw == syntax::cut(w as int, bx as int),
                row == (by - 1) * w + bx,
                row + bw <= recon@.len() <= 0x400_0000,
                x <= bw <= 8,
                above == syntax::sum_above(recon@, w as int, bx as int, by as int, x as int),
                above <= 255 * x,
            decreases bw - x,
        {
            above = above + recon[row + x] as u32;
            x = x + 1;
        }
        n = n + bw as u32;
    }
    if bx > 0 {
        let mut y: usize = 0;
        while y < bh
            invariant
                placed(recon@.len(), w, h, bx, by),
                recon@.len() <= 0x400_0000,
                bx > 0,
                bh == syntax::cut(h as int, by as int),
                y <= bh <= 8,
                left == syntax::sum_left(recon@, w as int, bx as int, by as int, y as int),
                left <= 255 * y,
            decreases bh - y,
        {
            proof {
                lemma_row(w as int, h as int, by + y);
            }
            left = left + recon[(by + y) * w + bx - 1] as u32;
            y = y + 1;
        }
        n = n + bh as u32;
    }
    if n == 0 {
        128
    } else {
        let mean: u32 = (above + left + n / 2) / n;
        proof {
            assert(mean <= 255) by (nonlinear_arith)
                requires
                    mean == (above + left + n / 2) / n as int,
                    above + left <= 255 * n,
                    n > 0,
            ;
        }
        mean as u8
    }
}

/// Predicts a block from its surroundings.
pub fn intra_prediction_block(
    recon: &[u8],
    w: usize,
    h: usize,
    bx: usize,
    by: usize,
    mode: u8,
) -> (out: [u8; 64])
    requires
        placed(recon@.len(), w, h, bx, by),
    ensures
        forall|x: int, y: int|
            0 <= x < syntax::cut(w as int, bx as int) && 0 <= y < syntax::cut(h as int, by as int)
                ==> #[trigger] out@[8 * y + x] == syntax::intra_predicted(
                recon@,
                w as int,
                h as int,
                bx as int,
                by as int,
                x,
                y,
                mode,
            ),
{
    let bw: usize = cut_len(w, bx);
    let bh: usize = cut_len(h, by);
    let mean: u8 = if mode == 1 || mode == 2 {
        128
    } else {
        mean_sample(recon, w, h, bx, by)
    };
    let mut out: [u8; 64] = [128; 64];
    let mut y: usize = 0;
    proof {
        lemma_fits(w as int, h as int);
    }
    while y < bh
        invariant
            placed(recon@.len(), w, h, bx, by),
            recon@.len() <= 0x400_0000,
            bw == syntax::cut(w as int, bx as int) <= 8,
            bh == syntax::cut(h as int, by as int) <= 8,
            mode != 1 && mode != 2 ==> mean == syntax::mean_around(
                recon@,
                w as int,
                h as int,
                bx as int,
                by as int,
            ),
            y <= bh,
            forall|x: int, r: int|
                0 <= x < bw && 0 <= r < y ==> #[trigger] out@[8 * r + x] == syntax::intra_predicted(
                    recon@,
                    w as int,
                    h as int,
                    bx as int,
                    by as int,
                    x,
                    r,
                    mode,
                ),
        decreases bh - y,
    {
        let mut x: usize = 0;
        while x < bw
            invariant
                placed(recon@.len(), w, h, bx, by),
                recon@.len() <= 0x400_0000,
                bw == syntax::cut(w as int, bx as int) <= 8,
                bh == syntax::cut(h as int, by as int) <= 8,
                mode != 1 && mode != 2 ==> mean == syntax::mean_around(
                    recon@,
                    w as int,
                    h as int,
                    bx as int,
                    by as int,
                ),
                y < bh,
                x <= bw,
                forall|c: int, r: int|
                    0 <= c < bw && 0 <= r < 8 && (r < y || r == y && c < x) ==> #[trigger] out@[8
                        * r + c] == syntax::intra_predicted(
                        recon@,
                        w as int,
                        h as int,
                        bx as int,
                        by as int,
                        c,
                        r,
                        mode,
                    ),
            decreases bw - x,
        {
            proof {
                lemma_row(w as int, h as int, by + y);
                if by > 0 {
                    lemma_row(w as int, h as int, by - 1);
                }
            }
            let v: u8 = if mode == 1 {
                if bx > 0 {
                    recon[(by + y) * w + bx - 1]
                } else {
                    128
                }
            } else if mode == 2 {
                if by > 0 {
                    recon[(by - 1) * w + bx + x]
                } else {
                    128
                }
            } else {
                mean
            };
            out[8 * y + x] = v;
            x = x + 1;
        }
        y = y + 1;
    }
    out
}

/// Rounds half of `v` down.
pub fn floor_div2(v: i32) -> (r: i32)
    requires
        v > i32::MIN + 1,
    ensures
        r == v as int / 2,
{
    if v >= 0 {
        v / 2
    } else {
        -((1 - v) / 2)
    }
}

/// The sample at (`x`, `y`), or the nearest one at the edge of the plane.
fn edge_at(src: &[u8], w: usize, h: usize, x: i32, y: i32) -> (r: u32)
    requires
        plane_fits(w as int, h as int),
        src@.len() == w * h,
    ensures
        r == syntax::edge_sample(src@, w as int, h as int, x as int, y as int),
        r <= 255,
{
    let xx: usize = if x < 0 {
        0
    } else if x as usize > w - 1 {
        w - 1
    } else {
        x as usize
    };
    let yy: usize = if y < 0 {
        0
    } else if y as usize > h - 1 {
        h - 1
    } else {
        y as usize
    };
    proof {
        lemma_fits(w as int, h as int);
        syntax::lemma_index(w as int, h as int, xx as int, yy as int);
        lemma_row(w as int, h as int, yy as int);
    }
    src[yy * w + xx] as u32
}

/// The sample at half-sample coordinates.
pub fn sample_half(src: &[u8], w: usize, h: usize, x2: i32, y2: i32) -> (r: u8)
    requires
        plane_fits(w as int, h as int),
        src@.len() == w * h,
        -200_000_000 <= x2 <= 200_000_000,
        -200_000_000 <= y2 <= 200_000_000,
    ensures
        r == syntax::half_sample(src@, w as int, h as int, x2 as int, y2 as int),
{
    let x: i32 = floor_div2(x2);
    let y: i32 = floor_div2(y2);
    let fx: bool = x2 != 2 * x;
    let fy: bool = y2 != 2 * y;
    let a: u32 = edge_at(src, w, h, x, y);
    let v: u32 = if !fx && !fy {
        a
    } else if !fy {
        (a + edge_at(src, w, h, x + 1, y) + 1) / 2
    } else if !fx {
        (a + edge_at(src, w, h, x, y + 1) + 1) / 2
    } else {
        (a + edge_at(src, w, h, x + 1, y) + edge_at(src, w, h, x, y + 1) + edge_at(
            src,
            w,
            h,
            x + 1,
            y + 1,
        ) + 2) / 4
    };
    v as u8
}

/// Where a block that moves by whole samples comes from, if all of it lies within the plane.
pub fn integer_motion_origin(
    w: usize,
    h: usize,
    bx: usize,
    by: usize,
    dx2: i32,
    dy2: i32,
) -> (r: Option<(usize, usize)>)
    requires
        plane_fits(w as int, h as int),
        bx < w,
        by < h,
        -100_000 <= dx2 <= 100_000,
        -100_000 <= dy2 <= 100_000,
    ensures
        match r {
            Some((sx, sy)) => {
                &&& dx2 as int % 2 == 0 && dy2 as int % 2 == 0
                &&& sx == bx + dx2 as int / 2 && sy == by + dy2 as int / 2
                &&& sx + syntax::cut(w as int, bx as int) <= w
                &&& sy + syntax::cut(h as int, by as int) <= h
            },
            None => dx2 as int % 2 != 0 || dy2 as int % 2 != 0 || bx + dx2 as int / 2 < 0 || by
                + dy2 as int / 2 < 0 || bx + dx2 as int / 2 + syntax::cut(w as int, bx as int) > w
                || by + dy2 as int / 2 + syntax::cut(h as int, by as int) > h,
        },
{
    let hx: i32 = floor_div2(dx2);
    let hy: i32 = floor_div2(dy2);
    if dx2 != 2 * hx || dy2 != 2 * hy {
        return None;
    }
    proof {
        lemma_fits(w as int, h as int);
    }
    let sx: i32 = bx as i32 + hx;
    let sy: i32 = by as i32 + hy;
    let bw: i32 = cut_len(w, bx) as i32;
    let bh: i32 = cut_len(h, by) as i32;
    if sx < 0 || sy < 0 || sx + bw > w as i32 || sy + bh > h as i32 {
        None
    } else {
        Some((sx as usize, sy as usize))
    }
}

/// Where a full block that moves by half samples comes from, and the two phases, if all that it
/// reads lies within the plane.
pub fn halfpel_interior_origin(
    w: usize,
    h: usize,
    bx: usize,
    by: usize,
    dx2: i32,
    dy2: i32,
) -> (r: Option<(usize, usize, u8, u8)>)
    requires
        plane_fits(w as int, h as int),
        bx < w,
        by < h,
        -100_000 <= dx2 <= 100_000,
        -100_000 <= dy2 <= 100_000,
    ensures
        match r {
            Some((sx, sy, fx, fy)) => {
                &&& bx + 8 <= w && by + 8 <= h
                &&& fx == (2 * bx + dx2) % 2 && fy == (2 * by + dy2) % 2
                &&& sx == (2 * bx + dx2) / 2 && sy == (2 * by + dy2) / 2
                &&& sx + 8 + fx <= w
                &&& sy + 8 + fy <= h
            },
            None => {
                ||| bx + 8 > w || by + 8 > h
                ||| (2 * bx + dx2) / 2 < 0 || (2 * by + dy2) / 2 < 0
                ||| (2 * bx + dx2) / 2 + 8 + (2 * bx + dx2) % 2 > w
                ||| (2 * by + dy2) / 2 + 8 + (2 * by + dy2) % 2 > h
            },
        },
{
    proof {
        lemma_fits(w as int, h as int);
    }
    if bx + 8 > w || by + 8 > h {
        return None;
    }
    let x2: i32 = 2 * (bx as i32) + dx2;
    let y2: i32 = 2 * (by as i32) + dy2;
    let x0: i32 = floor_div2(x2);
    let y0: i32 = floor_div2(y2);
    let fx: u8 = if x2 != 2 * x0 {
        1
    } else {
        0
    };
    let fy: u8 = if y2 != 2 * y0 {
        1
    } else {
        0
    };
    if x0 < 0 || y0 < 0 {
        return None;
    }
    if x0 as usize + 8 + fx as usize > w || y0 as usize + 8 + fy as usize > h {
        return None;
    }
    Some((x0 as usize, y0 as usize, fx, fy))
}

/// The fast prediction of an interior block agrees with the sample-by-sample rule.
proof fn lemma_halfpel_agrees(
    r: Seq<u8>,
    src: Seq<u8>,
    w: int,
    h: int,
    bx: int,
    by: int,
    dx2: int,
    dy2: int,
    x: int,
    y: int,
)
    requires
        plane_fits(w as int, h as int),
        r.len() == w * h,
        0 <= bx,
        0 <= by,
        ({
            let (sx, sy) = ((2 * bx + dx2) / 2, (2 * by + dy2) / 2);
            let (fx, fy) = ((2 * bx + dx2) % 2, (2 * by + dy2) % 2);
            &&& sx >= 0 && sy >= 0
            &&& sx + 8 + fx <= w && sy + 8 + fy <= h
            &&& src == r.subrange(sy * w + sx, w * h)
        }),
        0 <= x < 8,
        0 <= y < 8,
    ensures
        scalar::halfpel_sample(src, w, (2 * bx + dx2) % 2, (2 * by + dy2) % 2, x, y)
            == syntax::half_sample(r, w, h, 2 * (bx + x) + dx2, 2 * (by + y) + dy2),
{
    let (sx, sy) = ((2 * bx + dx2) / 2, (2 * by + dy2) / 2);
    let (fx, fy) = ((2 * bx + dx2) % 2, (2 * by + dy2) % 2);
    let (x2, y2) = (2 * (bx + x) + dx2, 2 * (by + y) + dy2);
    assert(x2 / 2 == sx + x && x2 % 2 == fx);
    assert(y2 / 2 == sy + y && y2 % 2 == fy);
    assert forall|c: int, d: int|
        0 <= c < 8 + fx && 0 <= d < 8 + fy implies #[trigger] src[d * w + c] == r[(sy + d) * w + sx
        + c] by {
        syntax::lemma_index(w, h, sx + c, sy + d);
        syntax::lemma_index(w, h, sx, sy);
        assert((sy + d) * w == sy * w + d * w) by (nonlinear_arith);
        assert(d * w >= 0) by (nonlinear_arith)
            requires
                d >= 0,
                w >= 0,
        ;
    }
    assert(src[y * w + x] == r[(sy + y) * w + sx + x]);
    if fx == 1 {
        assert(src[y * w + (x + 1)] == r[(sy + y) * w + sx + (x + 1)]);
    }
    if fy == 1 {
        assert(src[(y + 1) * w + x] == r[(sy + (y + 1)) * w + sx + x]);
        if fx == 1 {
            assert(src[(y + 1) * w + (x + 1)] == r[(sy + (y + 1)) * w + sx + (x + 1)]);
        }
    }
}

/// Predicts a full block by half samples where all that it reads lies within the plane.
pub fn halfpel_prediction_block(
    reference: &[u8],
    w: usize,
    h: usize,
    bx: usize,
    by: usize,
    dx2: i32,
    dy2: i32,
    kernels: KernelSet,
) -> (r: Option<[u8; 64]>)
    requires
        placed(reference@.len(), w, h, bx, by),
        -100_000 <= dx2 <= 100_000,
        -100_000 <= dy2 <= 100_000,
    ensures
        r matches Some(block) ==> {
            &&& bx + 8 <= w && by + 8 <= h
            &&& forall|x: int, y: int|
                0 <= x < 8 && 0 <= y < 8 ==> #[trigger] block@[8 * y + x] == syntax::half_sample(
                    reference@,
                    w as int,
                    h as int,
                    2 * (bx + x) + dx2,
                    2 * (by + y) + dy2,
                )
        },
{
    match halfpel_interior_origin(w, h, bx, by, dx2, dy2) {
        None => None,
        Some((sx, sy, fx, fy)) => {
            proof {
                lemma_fits(w as int, h as int);
                lemma_row(w as int, h as int, sy as int);
                syntax::lemma_index(w as int, h as int, sx as int, sy as int);
            }
            let src: &[u8] = &reference[sy * w + sx..reference.len()];
            let r: Option<[u8; 64]> = kernels.halfpel_predict_8x8(src, w, fx, fy);
            proof {
                if let Some(block) = r {
                    assert forall|x: int, y: int|
                        0 <= x < 8 && 0 <= y < 8 implies #[trigger] block@[8 * y + x]
                        == syntax::half_sample(
                        reference@,
                        w as int,
                        h as int,
                        2 * (bx + x) + dx2,
                        2 * (by + y) + dy2,
                    ) by {
                        lemma_halfpel_agrees(
                            reference@,
                            src@,
                            w as int,
                            h as int,
                            bx as int,
                            by as int,
                            dx2 as int,
                            dy2 as int,
                            x,
                            y,
                        );
                        assert((8 * y + x) % 8 == x && (8 * y + x) / 8 == y);
                    }
                }
            }
            r
        },
    }
}

/// Predicts a block from another frame: by a plain copy or the half-sample kernel where that is
/// possible, sample by sample where it is not.
pub fn inter_prediction_block(
    reference: &[u8],
    w: usize,
    h: usize,
    bx: usize,
    by: usize,
    dx2: i32,
    dy2: i32,
    kernels: KernelSet,
) -> (out: [u8; 64])
    requires
        placed(reference@.len(), w, h, bx, by),
        -100_000 <= dx2 <= 100_000,
        -100_000 <= dy2 <= 100_000,
    ensures
        forall|x: int, y: int|
            0 <= x < syntax::cut(w as int, bx as int) && 0 <= y < syntax::cut(h as int, by as int)
                ==> #[trigger] out@[8 * y + x] == syntax::half_sample(
                reference@,
                w as int,
                h as int,
                2 * (bx + x) + dx2,
                2 * (by + y) + dy2,
            ),
{
    let origin: Option<(usize, usize)> = integer_motion_origin(w, h, bx, by, dx2, dy2);
    if origin.is_none() {
        match halfpel_prediction_block(reference, w, h, bx, by, dx2, dy2, kernels) {
            Some(block) => {
                return block;
            },
            None => {},
        }
    }
    let bw: usize = cut_len(w, bx);
    let bh: usize = cut_len(h, by);
    let mut out: [u8; 64] = [128; 64];
    let mut y: usize = 0;
    while y < bh
        invariant
            placed(reference@.len(), w, h, bx, by),
            -100_000 <= dx2 <= 100_000,
            -100_000 <= dy2 <= 100_000,
            origin matches Some((sx, sy)) ==> {
                &&& dx2 as int % 2 == 0 && dy2 as int % 2 == 0
                &&& sx == bx + dx2 as int / 2 && sy == by + dy2 as int / 2
                &&& sx + bw <= w
                &&& sy + bh <= h
            },
            bw == syntax::cut(w as int, bx as int) <= 8,
            bh == syntax::cut(h as int, by as int) <= 8,
            y <= bh,
            forall|x: int, r: int|
                0 <= x < bw && 0 <= r < y ==> #[trigger] out@[8 * r + x] == syntax::half_sample(
                    reference@,
                    w as int,
                    h as int,
                    2 * (bx + x) + dx2,
                    2 * (by + r) + dy2,
                ),
        decreases bh - y,
    {
        let mut x: usize = 0;
        while x < bw
            invariant
                placed(reference@.len(), w, h, bx, by),
                -100_000 <= dx2 <= 100_000,
                -100_000 <= dy2 <= 100_000,
                origin matches Some((sx, sy)) ==> {
                    &&& dx2 as int % 2 == 0 && dy2 as int % 2 == 0
                    &&& sx == bx + dx2 as int / 2 && sy == by + dy2 as int / 2
                    &&& sx + bw <= w
                    &&& sy + bh <= h
                },
                bw == syntax::cut(w as int, bx as int) <= 8,
                bh == syntax::cut(h as int, by as int) <= 8,
                y < bh,
                x <= bw,
                forall|c: int, r: int|
                    0 <= c < bw && 0 <= r < 8 && (r < y || r == y && c < x) ==> #[trigger] out@[8
                        * r + c] == syntax::half_sample(
                        reference@,
                        w as int,
                        h as int,
                        2 * (bx + c) + dx2,
                        2 * (by + r) + dy2,
                    ),
            decreases bw - x,
        {
            proof {
                lemma_fits(w as int, h as int);
            }
            let v: u8 = match origin {
                Some((sx, sy)) => {
                    proof {
                        syntax::lemma_index(w as int, h as int, sx + x, sy + y);
                        lemma_row(w as int, h as int, sy + y);
                        assert((2 * (bx + x) + dx2) / 2 == sx + x);
                        assert((2 * (by + y) + dy2) / 2 == sy + y);
                    }
                    reference[(sy + y) * w + sx + x]
                },
                None => sample_half(
                    reference,
                    w,
                    h,
                    2 * ((bx + x) as i32) + dx2,
                    2 * ((by + y) as i32) + dy2,
                ),
            };
            out[8 * y + x] = v;
            x = x + 1;
        }
        y = y + 1;
    }
    out
}

} // verus!
