//! What an encoder decides.
use crate::reference::planes;
use crate::reference::video_encoder;
use crate::video::v1::choice;
use crate::video::v1::encoder;
use crate::video::v1::history;
use crate::video::v1::packets;
use crate::video::v1::search;
use crate::video::v1::syntax;
use crate::video::v1::writing;
use crate::video::v1::{EncodeOptions, EncoderPreset};
use vstd::prelude::*;

verus! {

// ---------------------------------------------------------------------------------------------
// Errors

/// How far apart two samples are.
pub open spec fn gap(a: u8, b: u8) -> int {
    if a > b {
        a - b
    } else {
        b - a
    }
}

/// The width and the height of the block at (`bx`, `by`): eight, or as far as the plane goes.
pub open spec fn extent(w: int, h: int, bx: int, by: int) -> (int, int) {
    (
        if w - bx >= 8 {
            8
        } else {
            w - bx
        },
        if h - by >= 8 {
            8
        } else {
            h - by
        },
    )
}

proof fn lemma_row_total(g: spec_fn(int, int) -> nat, y: int, n: int, low: int, high: int)
    requires
        0 <= n,
        forall|x: int| 0 <= x < n ==> low <= #[trigger] g(x, y) <= high,
    ensures
        n * low <= search::row_total(g, y, n) <= n * high,
    decreases n,
{
    if n > 0 {
        lemma_row_total(g, y, n - 1, low, high);
        assert(low <= g(n - 1, y) <= high);
        assert(n * low == (n - 1) * low + low) by (nonlinear_arith);
        assert(n * high == (n - 1) * high + high) by (nonlinear_arith);
    }
}

proof fn lemma_block_total(g: spec_fn(int, int) -> nat, w: int, n: int, low: int, high: int)
    requires
        0 <= w,
        0 <= n,
        forall|x: int, y: int| 0 <= x < w && 0 <= y < n ==> low <= #[trigger] g(x, y) <= high,
    ensures
        w * n * low <= search::block_total(g, w, n) <= w * n * high,
    decreases n,
{
    if n > 0 {
        lemma_block_total(g, w, n - 1, low, high);
        lemma_row_total(g, n - 1, w, low, high);
        assert(w * n * low == w * (n - 1) * low + w * low) by (nonlinear_arith);
        assert(w * n * high == w * (n - 1) * high + w * high) by (nonlinear_arith);
    } else {
        assert(w * 0 * low == 0) by (nonlinear_arith);
        assert(w * 0 * high == 0) by (nonlinear_arith);
    }
}

/// Where every sample of a block is between `low` and `high` away from its prediction, the error is
/// between as much for each sample of the block; the squared error goes by the squares.
pub proof fn law_block_error(
    src: Seq<u8>,
    w: int,
    h: int,
    bx: int,
    by: int,
    f: spec_fn(int, int) -> u8,
    low: int,
    high: int,
)
    requires
        0 <= bx < w,
        0 <= by < h,
        0 <= low,
        forall|x: int, y: int|
            0 <= x < extent(w, h, bx, by).0 && 0 <= y < extent(w, h, bx, by).1 ==> low <= gap(
                src[(by + y) * w + bx + x],
                #[trigger] f(x, y),
            ) <= high,
    ensures
        ({
            let n = extent(w, h, bx, by).0 * extent(w, h, bx, by).1;
            &&& n * low <= search::prediction_error(src, w, h, bx, by, f) <= n * high
            &&& n * (low * low) <= search::squared_error(src, w, h, bx, by, f) <= n * (high * high)
        }),
{
    let (bw, bh) = extent(w, h, bx, by);
    let g = |x: int, y: int| search::sample_error(src, w, bx, by, x, y, f(x, y));
    assert forall|x: int, y: int| 0 <= x < bw && 0 <= y < bh implies low <= #[trigger] g(x, y)
        <= high by {
        assert(low <= gap(src[(by + y) * w + bx + x], f(x, y)) <= high);
    }
    lemma_block_total(g, bw, bh, low, high);
    let s = |x: int, y: int| search::squared(search::sample_error(src, w, bx, by, x, y, f(x, y)));
    assert forall|x: int, y: int| 0 <= x < bw && 0 <= y < bh implies low * low <= #[trigger] s(x, y)
        <= high * high by {
        let e = gap(src[(by + y) * w + bx + x], f(x, y));
        assert(low <= e <= high);
        assert(low * low <= e * e <= high * high) by (nonlinear_arith)
            requires
                0 <= low <= e <= high,
        ;
    }
    lemma_block_total(s, bw, bh, low * low, high * high);
}

// ---------------------------------------------------------------------------------------------
// Predictions

/// The error that a prediction is known with.
pub open spec fn error_of(site: choice::Site, c: choice::Candidate) -> nat {
    if c.mode == 3 {
        search::inter_error(
            site.src,
            site.refs[c.reference],
            site.w,
            site.h,
            site.bx,
            site.by,
            c.dx,
            c.dy,
        )
    } else {
        search::intra_error(site.src, site.recon, site.w, site.h, site.bx, site.by, c.mode)
    }
}

proof fn lemma_fast_cost(cost: spec_fn(int, int) -> nat, radius: int, step: int, best: (nat, int, int))
    requires
        best.0 == cost(2 * best.1, 2 * best.2),
    ensures
        ({
            let m = search::settled(cost, radius, step, best);
            m.0 == cost(2 * m.1, 2 * m.2) && m.0 <= best.0
        }),
    decreases best.0,
{
    let next = search::sweep(cost, (best.1, best.2), radius, step, best, 0);
    lemma_sweep_cost(cost, (best.1, best.2), radius, step, best, 0);
    if !(next.0 == 0 || next.0 >= best.0) {
        lemma_fast_cost(cost, radius, step, next);
    }
}

proof fn lemma_sweep_cost(
    cost: spec_fn(int, int) -> nat,
    center: (int, int),
    radius: int,
    step: int,
    best: (nat, int, int),
    i: int,
)
    requires
        best.0 == cost(2 * best.1, 2 * best.2),
    ensures
        ({
            let m = search::sweep(cost, center, radius, step, best, i);
            m.0 == cost(2 * m.1, 2 * m.2) && m.0 <= best.0
        }),
    decreases 8 - i,
{
    if i < 8 && best.0 != 0 {
        let next = search::considered(
            cost,
            best,
            radius,
            center.0 + search::neighbor(i, step).0,
            center.1 + search::neighbor(i, step).1,
        );
        lemma_sweep_cost(cost, center, radius, step, next, i + 1);
    }
}

proof fn lemma_refined_cost(
    cost: spec_fn(int, int) -> nat,
    dx: int,
    dy: int,
    best: (nat, int, int),
    i: int,
)
    requires
        best.0 == cost(best.1, best.2),
    ensures
        ({
            let m = search::refined(cost, dx, dy, best, i);
            m.0 == cost(m.1, m.2) && m.0 <= best.0
        }),
    decreases 9 - i,
{
    if i < 9 {
        let (dx2, dy2) = (2 * dx + i % 3 - 1, 2 * dy + i / 3 - 1);
        let next = if -64 <= dx2 <= 64 && -64 <= dy2 <= 64 && cost(dx2, dy2) < best.0 {
            (cost(dx2, dy2), dx2, dy2)
        } else {
            best
        };
        lemma_refined_cost(cost, dx, dy, next, i + 1);
    }
}

/// A fast search too reports the error of the motion that it finds, and never one that is worse than
/// no motion.
pub proof fn law_fast_motion(cost: spec_fn(int, int) -> nat, radius: int)
    ensures
        ({
            let m = search::best_motion(cost, radius, EncoderPreset::Fast);
            m.0 == cost(m.1, m.2) && m.0 <= cost(0, 0)
        }),
{
    if !(cost(0, 0) == 0 || radius == 0) {
        let start = (cost(0, 0), 0int, 0int);
        lemma_fast_cost(cost, radius, 2, start);
        lemma_fast_cost(cost, radius, 1, search::settled(cost, radius, 2, start));
        lemma_fast_cost(cost, radius, 1, start);
        let whole = search::local_search(cost, radius);
        lemma_refined_cost(cost, whole.1, whole.2, (whole.0, 2 * whole.1, 2 * whole.2), 0);
    }
}

/// A fast search ends where none of the eight motions one sample further is better.
pub proof fn law_fast_settled(cost: spec_fn(int, int) -> nat, radius: int, best: (nat, int, int), i: int)
    requires
        best.0 == cost(2 * best.1, 2 * best.2),
        0 <= i < 8,
    ensures
        ({
            let m = search::settled(cost, radius, 1, best);
            let (dx, dy) = (
                m.1 + if i == 0 || i == 3 || i == 5 {
                    -1int
                } else if i == 1 || i == 6 {
                    0
                } else {
                    1
                },
                m.2 + if i < 3 {
                    -1int
                } else if i < 5 {
                    0
                } else {
                    1
                },
            );
            -radius <= dx <= radius && -radius <= dy <= radius ==> m.0 <= cost(2 * dx, 2 * dy)
        }),
    decreases best.0,
{
    let center = (best.1, best.2);
    let next = search::sweep(cost, center, radius, 1, best, 0);
    lemma_sweep_cost(cost, center, radius, 1, best, 0);
    if next.0 == 0 {
    } else if next.0 >= best.0 {
        lemma_sweep_best(cost, center, radius, 1, best, 0);
        let place = if i == 0 {
            4int
        } else if i == 1 {
            2
        } else if i == 2 {
            5
        } else if i == 3 {
            0
        } else if i == 4 {
            1
        } else if i == 5 {
            6
        } else if i == 6 {
            3
        } else {
            7
        };
        assert(within_less(cost, center, radius, next.0, search::neighbor(place, 1)));
        lemma_sweep_still(cost, center, radius, 1, best, 0);
    } else {
        law_fast_settled(cost, radius, next, i);
    }
}

/// A motion within the radius costs no less.
spec fn within_less(
    cost: spec_fn(int, int) -> nat,
    center: (int, int),
    radius: int,
    least: nat,
    by: (int, int),
) -> bool {
    let (dx, dy) = (center.0 + by.0, center.1 + by.1);
    -radius <= dx <= radius && -radius <= dy <= radius ==> least <= cost(2 * dx, 2 * dy)
}

proof fn lemma_sweep_best(
    cost: spec_fn(int, int) -> nat,
    center: (int, int),
    radius: int,
    step: int,
    best: (nat, int, int),
    i: int,
)
    requires
        best.0 == cost(2 * best.1, 2 * best.2),
        0 <= i,
    ensures
        forall|j: int|
            i <= j < 8 ==> within_less(
                cost,
                center,
                radius,
                search::sweep(cost, center, radius, step, best, i).0,
                #[trigger] search::neighbor(j, step),
            ),
    decreases 8 - i,
{
    if i < 8 && best.0 != 0 {
        let next = search::considered(
            cost,
            best,
            radius,
            center.0 + search::neighbor(i, step).0,
            center.1 + search::neighbor(i, step).1,
        );
        lemma_sweep_best(cost, center, radius, step, next, i + 1);
        lemma_sweep_cost(cost, center, radius, step, next, i + 1);
    }
}

proof fn lemma_sweep_still(
    cost: spec_fn(int, int) -> nat,
    center: (int, int),
    radius: int,
    step: int,
    best: (nat, int, int),
    i: int,
)
    requires
        best.0 == cost(2 * best.1, 2 * best.2),
        search::sweep(cost, center, radius, step, best, i).0 >= best.0,
    ensures
        search::sweep(cost, center, radius, step, best, i) == best,
    decreases 8 - i,
{
    if i < 8 && best.0 != 0 {
        let next = search::considered(
            cost,
            best,
            radius,
            center.0 + search::neighbor(i, step).0,
            center.1 + search::neighbor(i, step).1,
        );
        lemma_sweep_cost(cost, center, radius, step, next, i + 1);
        lemma_sweep_still(cost, center, radius, step, next, i + 1);
    }
}

/// A fast search with a radius of two or more is no worse than any motion that leads two samples along
/// one or both directions.
pub proof fn law_fast_reach(cost: spec_fn(int, int) -> nat, radius: int, a: int, b: int)
    requires
        radius >= 2,
        a == -2 || a == 0 || a == 2,
        b == -2 || b == 0 || b == 2,
    ensures
        search::local_search(cost, radius).0 <= cost(2 * a, 2 * b),
        search::best_motion(cost, radius, EncoderPreset::Fast).0 <= cost(2 * a, 2 * b),
{
    let start = (cost(0, 0), 0int, 0int);
    let next = search::sweep(cost, (0, 0), radius, 2, start, 0);
    lemma_sweep_cost(cost, (0, 0), radius, 2, start, 0);
    lemma_sweep_best(cost, (0, 0), radius, 2, start, 0);
    let i = if b == 0 {
        if a < 0 {
            0int
        } else {
            1
        }
    } else if a == 0 {
        if b < 0 {
            2
        } else {
            3
        }
    } else if b < 0 {
        if a < 0 {
            4
        } else {
            5
        }
    } else if a < 0 {
        6
    } else {
        7
    };
    assert(within_less(cost, (0, 0), radius, next.0, search::neighbor(i, 2)));
    if next.0 != 0 && next.0 < start.0 {
        lemma_fast_cost(cost, radius, 2, next);
    }
    let coarse = search::settled(cost, radius, 2, start);
    lemma_fast_cost(cost, radius, 2, start);
    lemma_fast_cost(cost, radius, 1, coarse);
    let whole = search::local_search(cost, radius);
    lemma_refined_cost(cost, whole.1, whole.2, (whole.0, 2 * whole.1, 2 * whole.2), 0);
}

proof fn lemma_full_cost(cost: spec_fn(int, int) -> nat, radius: int, n: int)
    ensures
        ({
            let m = search::full_search(cost, radius, n);
            m.0 == cost(2 * m.1, 2 * m.2)
        }),
    decreases n,
{
    if n > 0 {
        lemma_full_cost(cost, radius, n - 1);
    }
}

/// A motion by whole samples within the radius that is better than all others there.
pub open spec fn clear(cost: spec_fn(int, int) -> nat, radius: int, dx: int, dy: int) -> bool {
    &&& -radius <= dx <= radius && -radius <= dy <= radius
    &&& forall|x: int, y: int|
        -radius <= x <= radius && -radius <= y <= radius && (x != dx || y != dy) ==> cost(2 * dx, 2 * dy)
            < #[trigger] cost(2 * x, 2 * y)
}

proof fn lemma_refined_best(
    cost: spec_fn(int, int) -> nat,
    dx: int,
    dy: int,
    best: (nat, int, int),
    i: int,
    k: int,
)
    requires
        best.0 == cost(best.1, best.2),
        0 <= i <= k < 9,
        -64 <= 2 * dx + k % 3 - 1 <= 64,
        -64 <= 2 * dy + k / 3 - 1 <= 64,
    ensures
        search::refined(cost, dx, dy, best, i).0 <= cost(2 * dx + k % 3 - 1, 2 * dy + k / 3 - 1),
    decreases 9 - i,
{
    let (dx2, dy2) = (2 * dx + i % 3 - 1, 2 * dy + i / 3 - 1);
    let next = if -64 <= dx2 <= 64 && -64 <= dy2 <= 64 && cost(dx2, dy2) < best.0 {
        (cost(dx2, dy2), dx2, dy2)
    } else {
        best
    };
    if i < k {
        lemma_refined_best(cost, dx, dy, next, i + 1, k);
    } else {
        lemma_refined_cost(cost, dx, dy, next, i + 1);
    }
}

proof fn lemma_whole(cost: spec_fn(int, int) -> nat, radius: int, dx: int, dy: int)
    requires
        0 <= radius,
        clear(cost, radius, dx, dy),
    ensures
        search::full_search(cost, radius, (2 * radius + 1) * (2 * radius + 1)) == (
            cost(2 * dx, 2 * dy),
            dx,
            dy,
        ),
{
    let n = (2 * radius + 1) * (2 * radius + 1);
    assert(n >= 0) by (nonlinear_arith)
        requires
            n == (2 * radius + 1) * (2 * radius + 1),
            radius >= 0,
    ;
    let m = search::full_search(cost, radius, n);
    lemma_full_cost(cost, radius, n);
    search::lemma_full_search(cost, radius, n);
    lemma_full_least(cost, radius, n, dx, dy);
    if m.1 != dx || m.2 != dy {
        assert(cost(2 * dx, 2 * dy) < cost(2 * m.1, 2 * m.2));
    }
}

proof fn lemma_full_least(cost: spec_fn(int, int) -> nat, radius: int, n: int, dx: int, dy: int)
    requires
        0 <= radius,
        n == (2 * radius + 1) * (2 * radius + 1),
        -radius <= dx <= radius,
        -radius <= dy <= radius,
    ensures
        search::full_search(cost, radius, n).0 <= cost(2 * dx, 2 * dy),
{
    let side = 2 * radius + 1;
    let k = (dy + radius) * side + dx + radius;
    syntax::lemma_index(side, side, dx + radius, dy + radius);
    lemma_full_upto(cost, radius, n, k);
}

proof fn lemma_full_upto(cost: spec_fn(int, int) -> nat, radius: int, n: int, k: int)
    requires
        0 <= k < n,
    ensures
        search::full_search(cost, radius, n).0 <= cost(
            2 * (k % (2 * radius + 1) - radius),
            2 * (k / (2 * radius + 1) - radius),
        ),
    decreases n,
{
    if k < n - 1 {
        lemma_full_upto(cost, radius, n - 1, k);
    }
}

/// The motion that is found is no worse than any of the eight that lie half a sample around the best one
/// by whole samples.
pub proof fn law_half_samples(
    cost: spec_fn(int, int) -> nat,
    radius: int,
    preset: EncoderPreset,
    dx: int,
    dy: int,
    a: int,
    b: int,
)
    requires
        1 <= radius <= 32,
        preset != EncoderPreset::Fast,
        clear(cost, radius, dx, dy),
        -1 <= a <= 1,
        -1 <= b <= 1,
        -64 <= 2 * dx + a <= 64,
        -64 <= 2 * dy + b <= 64,
    ensures
        search::best_motion(cost, radius, preset).0 <= cost(2 * dx + a, 2 * dy + b),
{
    lemma_whole(cost, radius, dx, dy);
    let k = 3 * (b + 1) + a + 1;
    assert(k % 3 == a + 1 && k / 3 == b + 1);
    lemma_refined_best(cost, dx, dy, (cost(2 * dx, 2 * dy), 2 * dx, 2 * dy), 0, k);
}

/// The same of the reference encoder, which has no such range.
pub proof fn law_reference_half_samples(
    cost: spec_fn(int, int) -> nat,
    radius: int,
    dx: int,
    dy: int,
    a: int,
    b: int,
)
    requires
        0 <= radius,
        clear(cost, radius, dx, dy),
        -1 <= a <= 1,
        -1 <= b <= 1,
    ensures
        planes::best_motion(cost, radius).0 <= cost(2 * dx + a, 2 * dy + b),
{
    lemma_whole(cost, radius, dx, dy);
    let k = 3 * (b + 1) + a + 1;
    assert(k % 3 == a + 1 && k / 3 == b + 1);
    lemma_reference_refined(cost, dx, dy, (cost(2 * dx, 2 * dy), 2 * dx, 2 * dy), 0, k);
}

proof fn lemma_reference_refined(
    cost: spec_fn(int, int) -> nat,
    dx: int,
    dy: int,
    best: (nat, int, int),
    i: int,
    k: int,
)
    requires
        0 <= i,
        k < 9,
    ensures
        planes::refined(cost, dx, dy, best, i).0 <= best.0,
        i <= k ==> planes::refined(cost, dx, dy, best, i).0 <= cost(
            2 * dx + k % 3 - 1,
            2 * dy + k / 3 - 1,
        ),
    decreases 9 - i,
{
    if i < 9 {
        let (dx2, dy2) = (2 * dx + i % 3 - 1, 2 * dy + i / 3 - 1);
        let next = if cost(dx2, dy2) < best.0 {
            (cost(dx2, dy2), dx2, dy2)
        } else {
            best
        };
        lemma_reference_refined(cost, dx, dy, next, i + 1, k);
    }
}

proof fn lemma_best_inter(site: choice::Site, opt: EncodeOptions, n: int)
    requires
        0 <= n <= site.refs.len(),
        opt.motion_radius <= 32,
    ensures
        n > 0 ==> site.best_inter(opt, n) is Some,
        n <= 0 ==> site.best_inter(opt, n) is None,
        site.best_inter(opt, n) matches Some((least, c)) ==> {
            &&& c.mode == 3
            &&& 0 <= c.reference < n
            &&& least == error_of(site, c)
            &&& forall|i: int| 0 <= i < n ==> least <= (#[trigger] site.motion(i, opt)).0
        },
    decreases n,
{
    if n > 0 {
        lemma_best_inter(site, opt, n - 1);
        let cost = search::motion_cost(
            site.src,
            site.refs[n - 1],
            site.w,
            site.h,
            site.bx,
            site.by,
        );
        if opt.preset == EncoderPreset::Fast {
            law_fast_motion(cost, opt.motion_radius as int);
        } else {
            search::law_best_motion(cost, opt.motion_radius as int, opt.preset, 0, 0);
        }
    }
}

/// The prediction that is tried first has the error it is known with; no prediction from the
/// surroundings is better, nor what the search finds in any of the references, nor no motion in it, nor,
/// unless the search is fast, any motion by whole samples within the radius. A prediction from another
/// picture is taken only where it is better than all from the surroundings.
pub proof fn law_primary(
    site: choice::Site,
    opt: EncodeOptions,
    mode: u8,
    i: int,
    dx: int,
    dy: int,
)
    requires
        opt.motion_radius <= 32,
        mode <= 2,
        -opt.motion_radius <= dx <= opt.motion_radius,
        -opt.motion_radius <= dy <= opt.motion_radius,
    ensures
        ({
            let (error, c) = site.primary(opt);
            let at = choice::Candidate { mode: 3, reference: i, dx: 2 * dx, dy: 2 * dy };
            &&& error == error_of(site, c)
            &&& error <= error_of(
                site,
                choice::Candidate { mode, reference: 0, dx: 0, dy: 0 },
            )
            &&& c.mode == 3 ==> error < error_of(
                site,
                choice::Candidate { mode, reference: 0, dx: 0, dy: 0 },
            ) && 0 <= c.reference < site.refs.len()
            &&& c.mode != 3 ==> c.mode <= 2 && c.reference == 0 && c.dx == 0 && c.dy == 0
            &&& 0 <= i < site.refs.len() && (opt.preset != EncoderPreset::Fast || dx == 0 && dy == 0)
                ==> error <= error_of(site, at)
        }),
{
    lemma_best_inter(site, opt, site.refs.len() as int);
    assert(mode == 0 || mode == 1 || mode == 2);
    if 0 <= i < site.refs.len() {
        let cost = search::motion_cost(site.src, site.refs[i], site.w, site.h, site.bx, site.by);
        let at = choice::Candidate { mode: 3, reference: i, dx: 2 * dx, dy: 2 * dy };
        assert(cost(2 * dx, 2 * dy) == error_of(site, at));
        if opt.preset != EncoderPreset::Fast {
            search::law_best_motion(cost, opt.motion_radius as int, opt.preset, dx, dy);
            assert(site.motion(i, opt).0 <= error_of(site, at));
        } else {
            law_fast_motion(cost, opt.motion_radius as int);
            if dx == 0 && dy == 0 {
                assert(site.motion(i, opt).0 <= error_of(site, at));
            }
        }
    }
}

/// Among predictions with the same error the first counts: of those from the surroundings the one with
/// the lowest mode, of those from other pictures the one from the first of them.
pub proof fn law_first_of_equals(site: choice::Site, opt: EncodeOptions, mode: u8, i: int)
    requires
        opt.motion_radius <= 32,
    ensures
        ({
            let (error, c) = site.primary(opt);
            &&& mode < c.mode <= 2 ==> error < error_of(
                site,
                choice::Candidate { mode, reference: 0, dx: 0, dy: 0 },
            )
            &&& c.mode == 3 && 0 <= i < c.reference ==> error < site.motion(i, opt).0
        }),
{
    lemma_best_inter(site, opt, site.refs.len() as int);
    lemma_first_reference(site, opt, site.refs.len() as int, i);
    assert(mode < 2 ==> mode == 0 || mode == 1);
}

proof fn lemma_first_reference(site: choice::Site, opt: EncodeOptions, n: int, i: int)
    requires
        0 <= n <= site.refs.len(),
        opt.motion_radius <= 32,
    ensures
        site.best_inter(opt, n) matches Some((least, c)) ==> 0 <= i < c.reference ==> least < site.motion(
            i,
            opt,
        ).0,
    decreases n,
{
    if n > 0 {
        lemma_first_reference(site, opt, n - 1, i);
        lemma_best_inter(site, opt, n - 1);
    }
}

/// Among motions by whole samples with the same error the search keeps to no motion, and otherwise finds
/// the first, row by row from the upper left.
pub proof fn law_first_motion(cost: spec_fn(int, int) -> nat, radius: int, dx: int, dy: int)
    requires
        0 <= radius,
        -radius <= dx <= radius,
        -radius <= dy <= radius,
    ensures
        ({
            let m = search::full_search(cost, radius, (2 * radius + 1) * (2 * radius + 1));
            &&& m.0 == cost(2 * m.1, 2 * m.2)
            &&& m.0 <= cost(2 * dx, 2 * dy)
            &&& m.1 != 0 || m.2 != 0 ==> {
                &&& m.0 < cost(0, 0)
                &&& dy < m.2 || dy == m.2 && dx < m.1 ==> m.0 < cost(2 * dx, 2 * dy)
            }
        }),
{
    let side = 2 * radius + 1;
    let n = side * side;
    assert(n >= 0) by (nonlinear_arith)
        requires
            n == side * side,
            side >= 0,
    ;
    let m = search::full_search(cost, radius, n);
    let j = search::lemma_full_place(cost, radius, n);
    lemma_full_cost(cost, radius, n);
    lemma_full_least(cost, radius, n, dx, dy);
    if m.1 != 0 || m.2 != 0 {
        syntax::lemma_index_inverse(side, side, j);
        let (x, y) = (m.1 + radius, m.2 + radius);
        assert(x == j % side && y == j / side);
        let k = (dy + radius) * side + dx + radius;
        syntax::lemma_index(side, side, dx + radius, dy + radius);
        if dy < m.2 {
            assert((dy + radius) * side + side <= y * side) by (nonlinear_arith)
                requires
                    dy + radius + 1 <= y,
                    side > 0,
            ;
            assert(k < j);
            assert(search::motion_at(k, radius) == (dx, dy));
        } else if dy == m.2 && dx < m.1 {
            assert(k < j);
            assert(search::motion_at(k, radius) == (dx, dy));
        }
    }
}

proof fn lemma_refined_strict(
    cost: spec_fn(int, int) -> nat,
    dx: int,
    dy: int,
    best: (nat, int, int),
    i: int,
)
    ensures
        ({
            let m = search::refined(cost, dx, dy, best, i);
            m == best || m.0 < best.0
        }),
    decreases 9 - i,
{
    if i < 9 {
        let (dx2, dy2) = (2 * dx + i % 3 - 1, 2 * dy + i / 3 - 1);
        let next = if -64 <= dx2 <= 64 && -64 <= dy2 <= 64 && cost(dx2, dy2) < best.0 {
            (cost(dx2, dy2), dx2, dy2)
        } else {
            best
        };
        lemma_refined_strict(cost, dx, dy, next, i + 1);
    }
}

/// A motion by half samples is found only where it is better than the one by whole samples that the
/// search of the whole radius finds, and no more than half a sample away from that.
pub proof fn law_half_strict(cost: spec_fn(int, int) -> nat, radius: int, preset: EncoderPreset)
    requires
        1 <= radius <= 32,
        preset != EncoderPreset::Fast,
    ensures
        ({
            let whole = search::full_search(cost, radius, (2 * radius + 1) * (2 * radius + 1));
            let m = search::best_motion(cost, radius, preset);
            &&& cost(0, 0) == 0 ==> m == (0nat, 0int, 0int)
            &&& cost(0, 0) > 0 ==> m == (whole.0, 2 * whole.1, 2 * whole.2) || m.0 < whole.0
            &&& cost(0, 0) > 0 ==> -1 <= m.1 - 2 * whole.1 <= 1 && -1 <= m.2 - 2 * whole.2 <= 1
        }),
{
    let whole = search::full_search(cost, radius, (2 * radius + 1) * (2 * radius + 1));
    let start = (whole.0, 2 * whole.1, 2 * whole.2);
    lemma_refined_strict(cost, whole.1, whole.2, start, 0);
    lemma_refined_near(cost, whole.1, whole.2, start, 0);
}

proof fn lemma_refined_near(
    cost: spec_fn(int, int) -> nat,
    dx: int,
    dy: int,
    best: (nat, int, int),
    i: int,
)
    requires
        0 <= i,
        -1 <= best.1 - 2 * dx <= 1,
        -1 <= best.2 - 2 * dy <= 1,
    ensures
        ({
            let m = search::refined(cost, dx, dy, best, i);
            -1 <= m.1 - 2 * dx <= 1 && -1 <= m.2 - 2 * dy <= 1
        }),
    decreases 9 - i,
{
    if i < 9 {
        let (dx2, dy2) = (2 * dx + i % 3 - 1, 2 * dy + i / 3 - 1);
        let next = if -64 <= dx2 <= 64 && -64 <= dy2 <= 64 && cost(dx2, dy2) < best.0 {
            (cost(dx2, dy2), dx2, dy2)
        } else {
            best
        };
        lemma_refined_near(cost, dx, dy, next, i + 1);
    }
}

/// The prediction that is weighed against the first is the best of the other sort.
pub proof fn law_alternate(site: choice::Site, opt: EncodeOptions, mode: u8)
    requires
        opt.motion_radius <= 32,
        mode <= 2,
    ensures
        site.refs.len() == 0 <==> site.alternate(opt) is None,
        site.alternate(opt) matches Some((error, c)) ==> {
            &&& error == error_of(site, c)
            &&& (c.mode == 3) != (site.primary(opt).1.mode == 3)
            &&& c.mode != 3 ==> error <= error_of(
                site,
                choice::Candidate { mode, reference: 0, dx: 0, dy: 0 },
            )
            &&& c.mode == 3 ==> forall|i: int|
                0 <= i < site.refs.len() ==> error <= (#[trigger] site.motion(i, opt)).0
        },
{
    lemma_best_inter(site, opt, site.refs.len() as int);
}

/// What is coded on top of a prediction: by how much each sample of the block is above it, and nothing
/// outside the plane.
pub proof fn law_residual(site: choice::Site, c: choice::Candidate, x: int, y: int)
    requires
        0 <= x < 8,
        0 <= y < 8,
    ensures
        ({
            let m = site.residual(c);
            let (w, h) = extent(site.w, site.h, site.bx, site.by);
            &&& m.len() == 64
            &&& x < w && y < h ==> m[8 * y + x] == site.src[(site.by + y) * site.w + site.bx + x]
                - site.predicted(c, x, y)
            &&& x >= w || y >= h ==> m[8 * y + x] == 0
        }),
{
    let i = 8 * y + x;
    assert(i % 8 == x && i / 8 == y);
}

// ---------------------------------------------------------------------------------------------
// Costs

/// What a byte weighs: as many times 512 as fit the square of the quantizer step, and one at least.
pub open spec fn weighs(weight: int, q: int) -> bool {
    &&& weight >= 1
    &&& q * q < 512 * (weight + 1)
    &&& weight > 1 ==> 512 * weight <= q * q
}

/// What coding a prediction costs: the squared error, and for each byte its weight; the bytes are the
/// mode, the data of the block, and eight where the reference is new.
pub proof fn law_cost(site: choice::Site, c: choice::Candidate, used: Seq<bool>, weight: int)
    requires
        weighs(weight, site.q),
    ensures
        ({
            let block = site.residual_block(c);
            let fresh = c.mode == 3 && !used[c.reference];
            site.score(c, used) == search::squared_error(
                site.src,
                site.w,
                site.h,
                site.bx,
                site.by,
                site.shown(block),
            ) + weight * (1 + writing::payload_bytes(block).len() + if fresh {
                8int
            } else {
                0
            })
        }),
{
    assert(choice::lambda(site.q) == weight);
}

/// The fast preset codes the prediction with the least error. The others weigh it against the best of
/// the other sort and take that where it costs less: the quality preset always, and so at a quantizer
/// step of one; otherwise where its error is at most two quantizer steps higher.
pub proof fn law_chosen(site: choice::Site, opt: EncodeOptions, used: Seq<bool>)
    requires
        opt.motion_radius <= 32,
    ensures
        ({
            let (error, p) = site.primary(opt);
            let c = site.chosen(opt, used);
            &&& opt.preset == EncoderPreset::Fast || site.refs.len() == 0 ==> c == p
            &&& opt.preset != EncoderPreset::Fast ==> {
                &&& site.score(c, used) <= site.score(p, used)
                &&& site.alternate(opt) matches Some((other, a)) ==> {
                    &&& c == p || c == a
                    &&& opt.preset == EncoderPreset::Quality || site.q == 1 || other - error <= 2
                        * site.q ==> site.score(c, used) <= site.score(a, used)
                    &&& opt.preset == EncoderPreset::Balanced && site.q != 1 && other - error > 2
                        * site.q ==> c == p
                    &&& c != p ==> site.score(a, used) < site.score(p, used)
                }
            }
        }),
{
    lemma_best_inter(site, opt, site.refs.len() as int);
}

/// A palette is coded only where options allow it and the block has one. The fast preset codes it where
/// the least error is more than four for each sample, the others where its bytes cost less than the
/// prediction does.
pub proof fn law_decided(site: choice::Site, opt: EncodeOptions, used: Seq<bool>, weight: int)
    requires
        weighs(weight, site.q),
    ensures
        ({
            let palette = choice::palette_of(
                choice::block_samples(site.src, site.w, site.h, site.bx, site.by),
            );
            let c = site.chosen(opt, used);
            let n = extent(site.w, site.h, site.bx, site.by).0 * extent(
                site.w,
                site.h,
                site.bx,
                site.by,
            ).1;
            site.decided(opt, used) == if opt.allow_palette && palette is Some && (if opt.preset
                == EncoderPreset::Fast {
                site.primary(opt).0 > 4 * n
            } else {
                weight * (1 + writing::payload_bytes(palette->0).len()) < site.score(c, used)
            }) {
                palette->0
            } else {
                site.residual_block(c)
            }
        }),
{
    assert(choice::lambda(site.q) == weight);
}

proof fn lemma_reference_motion(cost: spec_fn(int, int) -> nat, radius: int, dx: int, dy: int)
    requires
        0 <= radius,
        -radius <= dx <= radius,
        -radius <= dy <= radius,
    ensures
        ({
            let m = planes::best_motion(cost, radius);
            m.0 == cost(m.1, m.2) && m.0 <= cost(2 * dx, 2 * dy)
        }),
{
    let n = (2 * radius + 1) * (2 * radius + 1);
    let whole = search::full_search(cost, radius, n);
    lemma_full_cost(cost, radius, n);
    lemma_full_least(cost, radius, n, dx, dy);
    lemma_reference_cost(cost, whole.1, whole.2, (whole.0, 2 * whole.1, 2 * whole.2), 0);
}

proof fn lemma_reference_cost(
    cost: spec_fn(int, int) -> nat,
    dx: int,
    dy: int,
    best: (nat, int, int),
    i: int,
)
    requires
        best.0 == cost(best.1, best.2),
    ensures
        ({
            let m = planes::refined(cost, dx, dy, best, i);
            m.0 == cost(m.1, m.2) && m.0 <= best.0
        }),
    decreases 9 - i,
{
    if i < 9 {
        let (dx2, dy2) = (2 * dx + i % 3 - 1, 2 * dy + i / 3 - 1);
        let next = if cost(dx2, dy2) < best.0 {
            (cost(dx2, dy2), dx2, dy2)
        } else {
            best
        };
        lemma_reference_cost(cost, dx, dy, next, i + 1);
    }
}

proof fn lemma_reference_inter(site: choice::Site, radius: int, n: int)
    requires
        0 <= n <= site.refs.len(),
        0 <= radius,
    ensures
        n > 0 ==> planes::best_inter(site, radius, n) is Some,
        n <= 0 ==> planes::best_inter(site, radius, n) is None,
        planes::best_inter(site, radius, n) matches Some((least, c)) ==> {
            &&& c.mode == 3
            &&& 0 <= c.reference < n
            &&& least == error_of(site, c)
            &&& forall|i: int| 0 <= i < n ==> least <= (#[trigger] planes::motion(site, i, radius)).0
            &&& forall|i: int|
                0 <= i < c.reference ==> least < (#[trigger] planes::motion(site, i, radius)).0
        },
    decreases n,
{
    if n > 0 {
        lemma_reference_inter(site, radius, n - 1);
        let cost = search::motion_cost(
            site.src,
            site.refs[n - 1],
            site.w,
            site.h,
            site.bx,
            site.by,
        );
        lemma_reference_motion(cost, radius, 0, 0);
    }
}

/// The reference encoder takes the prediction with the least error of all: those from the surroundings
/// and every motion by whole samples within the radius in every reference. Among equals the first counts,
/// and those from the surroundings before the others.
pub proof fn law_reference_chosen(
    site: choice::Site,
    radius: int,
    mode: u8,
    i: int,
    dx: int,
    dy: int,
)
    requires
        mode <= 2,
        -radius <= dx <= radius,
        -radius <= dy <= radius,
    ensures
        ({
            let (error, c) = planes::chosen(site, radius);
            let intra = error_of(site, choice::Candidate { mode, reference: 0, dx: 0, dy: 0 });
            &&& error == error_of(site, c)
            &&& error <= intra
            &&& c.mode == 3 ==> error < intra && 0 <= c.reference < site.refs.len()
            &&& c.mode != 3 ==> c.mode <= 2 && c.reference == 0 && c.dx == 0 && c.dy == 0
            &&& mode < c.mode <= 2 ==> error < intra
            &&& 0 <= i < site.refs.len() ==> error <= error_of(
                site,
                choice::Candidate { mode: 3, reference: i, dx: 2 * dx, dy: 2 * dy },
            )
        }),
{
    lemma_reference_inter(site, radius, site.refs.len() as int);
    assert(mode == 0 || mode == 1 || mode == 2);
    if 0 <= i < site.refs.len() {
        let cost = search::motion_cost(site.src, site.refs[i], site.w, site.h, site.bx, site.by);
        let at = choice::Candidate { mode: 3, reference: i, dx: 2 * dx, dy: 2 * dy };
        assert(cost(2 * dx, 2 * dy) == error_of(site, at));
        lemma_reference_motion(cost, radius, dx, dy);
        assert(planes::motion(site, i, radius).0 <= error_of(site, at));
    }
}

/// The reference encoder codes the prediction with the least error, and a palette where that error is
/// more than four for each sample.
pub proof fn law_reference_decided(site: choice::Site, opt: planes::EncodeOptions)
    ensures
        ({
            let palette = choice::palette_of(
                choice::block_samples(site.src, site.w, site.h, site.bx, site.by),
            );
            let (error, c) = planes::chosen(site, opt.motion_radius as int);
            let n = extent(site.w, site.h, site.bx, site.by).0 * extent(
                site.w,
                site.h,
                site.bx,
                site.by,
            ).1;
            planes::decided(site, opt) == if opt.allow_palette && palette is Some && error > 4 * n {
                palette->0
            } else {
                site.residual_block(c)
            }
        }),
{
}

// ---------------------------------------------------------------------------------------------
// Palettes

proof fn lemma_colors_of(samples: Seq<u8>, n: int, colors: Seq<u8>)
    requires
        0 <= n <= samples.len(),
        forall|k: int| 0 <= k < n ==> colors.contains(#[trigger] samples[k]),
    ensures
        forall|v: u8| choice::colors_of(samples, n).contains(v) ==> colors.contains(v),
    decreases n,
{
    if n > 0 {
        lemma_colors_of(samples, n - 1, colors);
        let before = choice::colors_of(samples, n - 1);
        assert forall|v: u8| choice::colors_of(samples, n).contains(v) implies colors.contains(v) by {
            if before.contains(v) {
            } else {
                let all = choice::colors_of(samples, n);
                let i = choose|i: int| 0 <= i < all.len() && all[i] == v;
                if i < before.len() {
                    assert(before[i] == v);
                }
                assert(colors.contains(samples[n - 1]));
            }
        }
    }
}

/// A block of 16 samples or more has a palette if four colors are enough for it.
pub proof fn law_palette_found(samples: Seq<u8>, colors: Seq<u8>)
    requires
        samples.len() >= 16,
        colors.len() <= 4,
        forall|k: int| 0 <= k < samples.len() ==> colors.contains(#[trigger] samples[k]),
    ensures
        choice::palette_of(samples) is Some,
{
    let n = samples.len() as int;
    let found = choice::colors_of(samples, n);
    choice::lemma_colors(samples, n);
    lemma_colors_of(samples, n, colors);
    found.unique_seq_to_set();
    colors.lemma_cardinality_of_set();
    assert(found.to_set().subset_of(colors.to_set())) by {
        assert forall|v: u8| found.to_set().contains(v) implies colors.to_set().contains(v) by {
            assert(found.contains(v));
        }
    }
    vstd::set_lib::lemma_len_subset(found.to_set(), colors.to_set());
}

/// A block of fewer samples has none.
pub proof fn law_palette_of_few(samples: Seq<u8>)
    requires
        samples.len() < 16,
    ensures
        choice::palette_of(samples) is None,
{
}

/// The colors of a palette stand in the order in which they occur: each one first occurs behind all
/// the colors before it.
pub proof fn law_palette_order(samples: Seq<u8>, n: int, j: int)
    requires
        0 <= n <= samples.len(),
        0 <= j < choice::colors_of(samples, n).len(),
    ensures
        ({
            let colors = choice::colors_of(samples, n);
            exists|at: int| #[trigger] first_at(samples, n, colors, j, at)
        }),
    decreases n,
{
    if n > 0 {
        let before = choice::colors_of(samples, n - 1);
        let colors = choice::colors_of(samples, n);
        choice::lemma_colors(samples, n - 1);
        choice::lemma_colors(samples, n);
        if j < before.len() {
            law_palette_order(samples, n - 1, j);
            let at = choose|at: int| #[trigger] first_at(samples, n - 1, before, j, at);
            assert(first_at(samples, n, colors, j, at));
        } else {
            assert forall|k: int| 0 <= k < n - 1 implies #[trigger] samples[k] != samples[n - 1] by {
                assert(before.contains(samples[k]));
            }
            assert forall|i: int| 0 <= i < j implies occurs(samples, n - 1, #[trigger] colors[i]) by {
                lemma_occurs(samples, n - 1, i);
            }
            assert(first_at(samples, n, colors, j, n - 1));
        }
    }
}

/// The value is among the first `n` samples.
pub open spec fn occurs(samples: Seq<u8>, n: int, v: u8) -> bool {
    exists|k: int| 0 <= k < n && #[trigger] samples[k] == v
}

/// Color `j` first occurs at `at`, and the colors before it occur before that.
pub open spec fn first_at(samples: Seq<u8>, n: int, colors: Seq<u8>, j: int, at: int) -> bool {
    &&& 0 <= at < n
    &&& samples[at] == colors[j]
    &&& !occurs(samples, at, colors[j])
    &&& forall|i: int| 0 <= i < j ==> occurs(samples, at, #[trigger] colors[i])
}

proof fn lemma_occurs(samples: Seq<u8>, n: int, i: int)
    requires
        0 <= n <= samples.len(),
        0 <= i < choice::colors_of(samples, n).len(),
    ensures
        occurs(samples, n, choice::colors_of(samples, n)[i]),
    decreases n,
{
    if n > 0 {
        let before = choice::colors_of(samples, n - 1);
        if i < before.len() {
            lemma_occurs(samples, n - 1, i);
            let k = choose|k: int| 0 <= k < n - 1 && #[trigger] samples[k] == before[i];
            assert(samples[k] == choice::colors_of(samples, n)[i]);
        } else {
            assert(samples[n - 1] == choice::colors_of(samples, n)[i]);
        }
    }
}

// ---------------------------------------------------------------------------------------------
// References

/// An encoder considers the first references that it is given: as many as options allow, four at the
/// most. So does the reference encoder.
pub proof fn law_considered(
    references: Seq<(u64, syntax::Picture)>,
    opt: EncodeOptions,
    other: planes::EncodeOptions,
    n: int,
)
    requires
        0 <= n <= references.len(),
        n <= 4,
    ensures
        n <= opt.max_refs && (n == references.len() || n == opt.max_refs || n == 4)
            ==> packets::considered(references, opt) == references.take(n),
        n <= other.max_refs && (n == references.len() || n == other.max_refs || n == 4)
            ==> video_encoder::considered(references, other) == references.take(n),
{
    assert(references.take(references.len() as int) =~= references);
}

/// After one more picture the history has the four newest, the oldest first.
pub proof fn law_history(list: Seq<(u64, syntax::Picture)>, id: u64, picture: syntax::Picture, k: int)
    requires
        list.len() <= 4,
        0 <= k < 4,
    ensures
        ({
            let all = list.push((id, picture));
            let next = history::extended(list, id, picture);
            &&& next.len() <= 4
            &&& next.len() == 4 || next.len() == all.len()
            &&& k < next.len() ==> next[next.len() - 1 - k] == all[all.len() - 1 - k]
        }),
{
}

/// The block is coded from reference `i`.
pub open spec fn reads(block: syntax::Block, i: int) -> bool {
    block matches syntax::Block::Residual { mode, reference, dx, dy, coeff } && mode == 3 && reference == i
}

/// A reference is marked exactly if some block of the plane is coded from it.
pub proof fn law_marked(
    src: Seq<u8>,
    refs: Seq<Seq<u8>>,
    w: int,
    h: int,
    opt: EncodeOptions,
    k: int,
    i: int,
)
    requires
        encoder::plane_ok(src, refs, w, h, opt),
        0 <= k <= syntax::block_count(w, h),
        0 <= i < refs.len(),
    ensures
        ({
            let state = encoder::plane_state(src, refs, w, h, opt, k);
            &&& state.list.len() == k
            &&& state.used.len() == refs.len()
            &&& state.used[i] <==> exists|b: int| 0 <= b < k && reads(#[trigger] state.list[b], i)
        }),
    decreases k,
{
    if k > 0 {
        law_marked(src, refs, w, h, opt, k - 1, i);
        encoder::lemma_state_ok(src, refs, w, h, opt, k);
        let before = encoder::plane_state(src, refs, w, h, opt, k - 1);
        let state = encoder::plane_state(src, refs, w, h, opt, k);
        let block = state.list[k - 1];
        assert(encoder::marked_in(state.used, block));
        assert(forall|b: int| 0 <= b < k - 1 ==> #[trigger] state.list[b] == before.list[b]);
        if before.used[i] {
            let b = choose|b: int| 0 <= b < k - 1 && reads(#[trigger] before.list[b], i);
            assert(reads(state.list[b], i));
        }
        if state.used[i] && !before.used[i] {
            assert(reads(state.list[k - 1], i));
        }
        if exists|b: int| 0 <= b < k && reads(#[trigger] state.list[b], i) {
            let b = choose|b: int| 0 <= b < k && reads(#[trigger] state.list[b], i);
            if b < k - 1 {
                assert(reads(before.list[b], i));
            }
        }
    }
}

/// A frame depends on the references that some block of it is coded from, in the order in which they
/// were given, and on no others.
pub proof fn law_dependencies(refs: Seq<(u64, syntax::Picture)>, used: Seq<bool>, i: int, j: int)
    requires
        used.len() == refs.len(),
        0 <= i < refs.len(),
        0 <= j < refs.len(),
    ensures
        ({
            let ids = packets::dependencies_of(refs, used);
            let (a, b) = (packets::remap_of(used)[i] as int, packets::remap_of(used)[j] as int);
            &&& used[i] && refs.len() <= 4 ==> 0 <= a < ids.len() && ids[a] == refs[i].0
            &&& used[i] && used[j] && i < j && refs.len() <= 4 ==> a < b
            &&& forall|n: int| 0 <= n < ids.len() ==> named(refs, used, #[trigger] ids[n])
        }),
{
    let n = used.len() as int;
    let list = packets::used_list(used, n);
    let ids = packets::dependencies_of(refs, used);
    lemma_used_list(used, n, i);
    lemma_used_list(used, n, j);
    lemma_used_list(used, j, i);
    lemma_used_list(used, i, i);
    assert forall|k: int| 0 <= k < ids.len() implies named(refs, used, #[trigger] ids[k]) by {
        assert(0 <= list[k] < n && used[list[k]]);
        assert(refs[list[k]].0 == ids[k]);
    }
    if used[i] && refs.len() <= 4 {
        let a = packets::used_list(used, i).len() as int;
        assert(packets::remap_of(used)[i] == a);
        assert(list[a] == i);
    }
    if used[j] && refs.len() <= 4 {
        assert(packets::remap_of(used)[j] == packets::used_list(used, j).len());
    }
}

/// The id is that of a reference in use.
pub open spec fn named(refs: Seq<(u64, syntax::Picture)>, used: Seq<bool>, id: u64) -> bool {
    exists|r: int| 0 <= r < refs.len() && used[r] && #[trigger] refs[r].0 == id
}

proof fn lemma_used_list(used: Seq<bool>, n: int, i: int)
    requires
        0 <= n <= used.len(),
    ensures
        ({
            let list = packets::used_list(used, n);
            &&& list.len() <= n
            &&& forall|k: int| 0 <= k < list.len() ==> 0 <= #[trigger] list[k] < n && used[list[k]]
            &&& 0 <= i < n && used[i] ==> packets::used_list(used, i).len() < list.len()
                && list[packets::used_list(used, i).len() as int] == i
        }),
    decreases n,
{
    if n > 0 {
        lemma_used_list(used, n - 1, i);
    }
}

// ---------------------------------------------------------------------------------------------
// Layouts

/// A plane is written in the layout that takes fewer bytes: with one lane, its length in four bytes and
/// a zero in front; or with two, a one in front and a length before each.
pub proof fn law_layout(list: Seq<syntax::Block>, pack: spec_fn(Seq<u8>) -> Seq<u8>)
    ensures
        ({
            let one = 5 + pack(writing::single_bytes(list)).len();
            let two = 9 + pack(writing::control_bytes(list)).len() + pack(
                writing::data_bytes(list),
            ).len();
            let b = packets::envelope_bytes(list, pack);
            &&& b.len() == if one <= two {
                one
            } else {
                two
            }
            &&& b[0] == if one <= two {
                0u8
            } else {
                1
            }
        }),
{
    reveal(packets::envelope_bytes);
    crate::bytes::lemma_le_bytes_len(pack(writing::single_bytes(list)).len() as int, 4);
    crate::bytes::lemma_le_bytes_len(pack(writing::control_bytes(list)).len() as int, 4);
    crate::bytes::lemma_le_bytes_len(pack(writing::data_bytes(list)).len() as int, 4);
}

} // verus!
