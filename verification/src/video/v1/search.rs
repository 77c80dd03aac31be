//! How the encoder compares predictions and searches for motion.
use crate::kernels::scalar;
use crate::kernels::KernelSet;
use crate::video::v1::prediction;
use crate::video::v1::syntax;
use crate::video::v1::EncoderPreset;
use vstd::prelude::*;

verus! {

// ---------------------------------------------------------------------------------------------
// Sums over a block

/// The sum of `g` over the first `n` samples of row `y`.
pub open spec fn row_total(g: spec_fn(int, int) -> nat, y: int, n: int) -> nat
    decreases n,
{
    if n <= 0 {
        0
    } else {
        row_total(g, y, n - 1) + g(n - 1, y)
    }
}

/// The sum of `g` over the first `rows` rows of `width` samples.
pub open spec fn block_total(g: spec_fn(int, int) -> nat, width: int, rows: int) -> nat
    decreases rows,
{
    if rows <= 0 {
        0
    } else {
        block_total(g, width, rows - 1) + row_total(g, rows - 1, width)
    }
}

proof fn lemma_row_agree(g: spec_fn(int, int) -> nat, f: spec_fn(int, int) -> nat, y: int, n: int)
    requires
        forall|x: int| 0 <= x < n ==> #[trigger] g(x, y) == f(x, y),
    ensures
        row_total(g, y, n) == row_total(f, y, n),
    decreases n,
{
    if n > 0 {
        lemma_row_agree(g, f, y, n - 1);
        assert(g(n - 1, y) == f(n - 1, y));
    }
}

/// Equal terms give equal sums.
pub proof fn lemma_total_agree(
    g: spec_fn(int, int) -> nat,
    f: spec_fn(int, int) -> nat,
    width: int,
    rows: int,
)
    requires
        forall|x: int, y: int|
            0 <= x < width && 0 <= y < rows ==> #[trigger] g(x, y) == f(x, y),
    ensures
        block_total(g, width, rows) == block_total(f, width, rows),
    decreases rows,
{
    if rows > 0 {
        lemma_total_agree(g, f, width, rows - 1);
        lemma_row_agree(g, f, rows - 1, width);
    }
}

proof fn lemma_row_bound(g: spec_fn(int, int) -> nat, y: int, n: int, each: nat)
    requires
        0 <= n,
        forall|x: int| 0 <= x < n ==> #[trigger] g(x, y) <= each,
    ensures
        row_total(g, y, n) <= each * n,
    decreases n,
{
    if n > 0 {
        lemma_row_bound(g, y, n - 1, each);
        assert(each * n == each * (n - 1) + each) by (nonlinear_arith);
    } else {
        assert(each * 0 == 0);
    }
}

pub proof fn lemma_total_bound(g: spec_fn(int, int) -> nat, width: int, rows: int, each: nat)
    requires
        0 <= width <= 8,
        0 <= rows <= 8,
        forall|x: int, y: int|
            0 <= x < width && 0 <= y < rows ==> #[trigger] g(x, y) <= each,
    ensures
        block_total(g, width, rows) <= 8 * each * rows,
    decreases rows,
{
    if rows > 0 {
        lemma_total_bound(g, width, rows - 1, each);
        lemma_row_bound(g, rows - 1, width, each);
        assert(each * width <= 8 * each) by (nonlinear_arith)
            requires
                width <= 8,
        ;
        assert(8 * each * rows == 8 * each * (rows - 1) + 8 * each) by (nonlinear_arith);
    } else {
        assert(8 * each * 0 == 0);
    }
}

pub open spec fn squared(v: nat) -> nat {
    v * v
}

/// The distance of sample (`x`, `y`) of a block from a prediction of it.
pub open spec fn sample_error(src: Seq<u8>, w: int, bx: int, by: int, x: int, y: int, p: u8) -> nat {
    scalar::diff(src[(by + y) * w + bx + x], p)
}

/// The sum of the distances of a block from a prediction `f` of it.
pub open spec fn prediction_error(
    src: Seq<u8>,
    w: int,
    h: int,
    bx: int,
    by: int,
    f: spec_fn(int, int) -> u8,
) -> nat {
    block_total(
        |x: int, y: int| sample_error(src, w, bx, by, x, y, f(x, y)),
        syntax::cut(w, bx),
        syntax::cut(h, by),
    )
}

/// The sum of the squared distances.
pub open spec fn squared_error(
    src: Seq<u8>,
    w: int,
    h: int,
    bx: int,
    by: int,
    f: spec_fn(int, int) -> u8,
) -> nat {
    block_total(
        |x: int, y: int| squared(sample_error(src, w, bx, by, x, y, f(x, y))),
        syntax::cut(w, bx),
        syntax::cut(h, by),
    )
}

/// Two predictions that agree within the plane have the same error.
pub proof fn lemma_error_agree(
    src: Seq<u8>,
    w: int,
    h: int,
    bx: int,
    by: int,
    f: spec_fn(int, int) -> u8,
    g: spec_fn(int, int) -> u8,
)
    requires
        forall|x: int, y: int|
            0 <= x < syntax::cut(w, bx) && 0 <= y < syntax::cut(h, by) ==> #[trigger] f(x, y) == g(
                x,
                y,
            ),
    ensures
        prediction_error(src, w, h, bx, by, f) == prediction_error(src, w, h, bx, by, g),
        squared_error(src, w, h, bx, by, f) == squared_error(src, w, h, bx, by, g),
{
    let e = |x: int, y: int| sample_error(src, w, bx, by, x, y, f(x, y));
    let d = |x: int, y: int| sample_error(src, w, bx, by, x, y, g(x, y));
    assert forall|x: int, y: int|
        0 <= x < syntax::cut(w, bx) && 0 <= y < syntax::cut(h, by) implies #[trigger] e(x, y) == d(
        x,
        y,
    ) by {
        assert(f(x, y) == g(x, y));
    }
    lemma_total_agree(e, d, syntax::cut(w, bx), syntax::cut(h, by));
    let e2 = |x: int, y: int| squared(sample_error(src, w, bx, by, x, y, f(x, y)));
    let d2 = |x: int, y: int| squared(sample_error(src, w, bx, by, x, y, g(x, y)));
    assert forall|x: int, y: int|
        0 <= x < syntax::cut(w, bx) && 0 <= y < syntax::cut(h, by) implies #[trigger] e2(x, y)
        == d2(x, y) by {
        assert(f(x, y) == g(x, y));
    }
    lemma_total_agree(e2, d2, syntax::cut(w, bx), syntax::cut(h, by));
}

/// Sums up the distances, and their squares, of a block from the samples in `pred`.
pub fn block_errors(src: &[u8], w: usize, h: usize, bx: usize, by: usize, pred: &[u8; 64]) -> (r: (
    u32,
    u64,
))
    requires
        prediction::placed(src@.len(), w, h, bx, by),
    ensures
        r.0 == prediction_error(
            src@,
            w as int,
            h as int,
            bx as int,
            by as int,
            |x: int, y: int| pred@[8 * y + x],
        ),
        r.1 == squared_error(
            src@,
            w as int,
            h as int,
            bx as int,
            by as int,
            |x: int, y: int| pred@[8 * y + x],
        ),
        r.0 <= 16320,
        r.1 <= 4161600,
{
    let bw: usize = prediction::cut_len(w, bx);
    let bh: usize = prediction::cut_len(h, by);
    let ghost f = |x: int, y: int| pred@[8 * y + x];
    let ghost g = |x: int, y: int|
        sample_error(src@, w as int, bx as int, by as int, x, y, f(x, y));
    let ghost g2 = |x: int, y: int|
        squared(sample_error(src@, w as int, bx as int, by as int, x, y, f(x, y)));
    proof {
        prediction::lemma_fits(w as int, h as int);
    }
    let mut sum: u32 = 0;
    let mut squares: u64 = 0;
    let mut y: usize = 0;
    while y < bh
        invariant
            prediction::placed(src@.len(), w, h, bx, by),
            src@.len() <= 0x400_0000,
            bw == syntax::cut(w as int, bx as int) <= 8,
            bh == syntax::cut(h as int, by as int) <= 8,
            f == (|x: int, y: int| pred@[8 * y + x]),
            g == (|x: int, y: int|
                sample_error(src@, w as int, bx as int, by as int, x, y, f(x, y))),
            g2 == (|x: int, y: int|
                squared(sample_error(src@, w as int, bx as int, by as int, x, y, f(x, y)))),
            y <= bh,
            sum == block_total(g, bw as int, y as int),
            squares == block_total(g2, bw as int, y as int),
            sum <= 2040 * y,
            squares <= 520200 * y,
        decreases bh - y,
    {
        proof {
            prediction::lemma_row(w as int, h as int, by + y);
        }
        let row: usize = (by + y) * w + bx;
        let ghost (sum0, squares0) = (sum as int, squares as int);
        let mut x: usize = 0;
        while x < bw
            invariant
                prediction::placed(src@.len(), w, h, bx, by),
                src@.len() <= 0x400_0000,
                bw == syntax::cut(w as int, bx as int) <= 8,
                f == (|x: int, y: int| pred@[8 * y + x]),
                g == (|x: int, y: int|
                    sample_error(src@, w as int, bx as int, by as int, x, y, f(x, y))),
                g2 == (|x: int, y: int|
                    squared(sample_error(src@, w as int, bx as int, by as int, x, y, f(x, y)))),
                y < 8,
                x <= bw,
                row == (by + y) * w + bx,
                row + bw <= src@.len(),
                sum == sum0 + row_total(g, y as int, x as int),
                squares == squares0 + row_total(g2, y as int, x as int),
                sum0 <= 2040 * y,
                squares0 <= 520200 * y,
                sum <= sum0 + 255 * x,
                squares <= squares0 + 65025 * x,
            decreases bw - x,
        {
            let (a, b): (u8, u8) = (src[row + x], pred[8 * y + x]);
            let d: u32 = if a >= b {
                (a - b) as u32
            } else {
                (b - a) as u32
            };
            proof {
                assert(g(x as int, y as int) == d);
                assert(d * d <= 65025) by (nonlinear_arith)
                    requires
                        0 <= d <= 255,
                ;
                assert(g2(x as int, y as int) == d * d);
            }
            sum = sum + d;
            squares = squares + (d * d) as u64;
            x = x + 1;
        }
        y = y + 1;
    }
    (sum, squares)
}

// ---------------------------------------------------------------------------------------------
// Intra and inter errors

/// The error of predicting a block from its surroundings.
pub open spec fn intra_error(
    src: Seq<u8>,
    recon: Seq<u8>,
    w: int,
    h: int,
    bx: int,
    by: int,
    mode: u8,
) -> nat {
    prediction_error(
        src,
        w,
        h,
        bx,
        by,
        |x: int, y: int| syntax::intra_predicted(recon, w, h, bx, by, x, y, mode),
    )
}

/// The error of predicting a block from another frame, moved by (`dx`, `dy`) half samples.
pub open spec fn inter_error(
    src: Seq<u8>,
    r: Seq<u8>,
    w: int,
    h: int,
    bx: int,
    by: int,
    dx: int,
    dy: int,
) -> nat {
    prediction_error(
        src,
        w,
        h,
        bx,
        by,
        |x: int, y: int| syntax::half_sample(r, w, h, 2 * (bx + x) + dx, 2 * (by + y) + dy),
    )
}

/// [`intra_error`], computed.
pub fn sad_intra(
    src: &[u8],
    recon: &[u8],
    w: usize,
    h: usize,
    bx: usize,
    by: usize,
    mode: u8,
) -> (r: u32)
    requires
        prediction::placed(src@.len(), w, h, bx, by),
        recon@.len() == src@.len(),
    ensures
        r == intra_error(src@, recon@, w as int, h as int, bx as int, by as int, mode),
        r <= 16320,
{
    let pred: [u8; 64] = prediction::intra_prediction_block(recon, w, h, bx, by, mode);
    proof {
        lemma_error_agree(
            src@,
            w as int,
            h as int,
            bx as int,
            by as int,
            |x: int, y: int| pred@[8 * y + x],
            |x: int, y: int|
                syntax::intra_predicted(recon@, w as int, h as int, bx as int, by as int, x, y, mode),
        );
    }
    block_errors(src, w, h, bx, by, &pred).0
}

/// [`inter_error`], computed.
pub fn sad_inter(
    src: &[u8],
    r: &[u8],
    w: usize,
    h: usize,
    bx: usize,
    by: usize,
    dx2: i32,
    dy2: i32,
    kernels: KernelSet,
) -> (sad: u32)
    requires
        prediction::placed(src@.len(), w, h, bx, by),
        r@.len() == src@.len(),
        -100_000 <= dx2 <= 100_000,
        -100_000 <= dy2 <= 100_000,
    ensures
        sad == inter_error(
            src@,
            r@,
            w as int,
            h as int,
            bx as int,
            by as int,
            dx2 as int,
            dy2 as int,
        ),
        sad <= 16320,
{
    let pred: [u8; 64] = prediction::inter_prediction_block(r, w, h, bx, by, dx2, dy2, kernels);
    proof {
        lemma_error_agree(
            src@,
            w as int,
            h as int,
            bx as int,
            by as int,
            |x: int, y: int| pred@[8 * y + x],
            |x: int, y: int|
                syntax::half_sample(
                    r@,
                    w as int,
                    h as int,
                    2 * (bx + x) + dx2,
                    2 * (by + y) + dy2,
                ),
        );
    }
    block_errors(src, w, h, bx, by, &pred).0
}

// ---------------------------------------------------------------------------------------------
// Motion search

/// What a motion costs, by its components in half samples.
pub open spec fn motion_cost(src: Seq<u8>, r: Seq<u8>, w: int, h: int, bx: int, by: int) -> spec_fn(
    int,
    int,
) -> nat {
    |dx: int, dy: int| inter_error(src, r, w, h, bx, by, dx, dy)
}

/// The better of the best motion so far and a motion by whole samples.
pub open spec fn better(cost: spec_fn(int, int) -> nat, best: (nat, int, int), dx: int, dy: int) -> (
    nat,
    int,
    int,
) {
    if cost(2 * dx, 2 * dy) < best.0 {
        (cost(2 * dx, 2 * dy), dx, dy)
    } else {
        best
    }
}

/// The best of no motion and the first `n` motions within the radius, row by row; the first of
/// equals.
pub open spec fn full_search(cost: spec_fn(int, int) -> nat, radius: int, n: int) -> (nat, int, int)
    decreases n,
{
    if n <= 0 {
        (cost(0, 0), 0, 0)
    } else {
        better(
            cost,
            full_search(cost, radius, n - 1),
            (n - 1) % (2 * radius + 1) - radius,
            (n - 1) / (2 * radius + 1) - radius,
        )
    }
}

/// The eight neighbors of a point, in the order in which they are tried.
pub open spec fn neighbor(i: int, step: int) -> (int, int) {
    if i == 0 {
        (-step, 0)
    } else if i == 1 {
        (step, 0)
    } else if i == 2 {
        (0, -step)
    } else if i == 3 {
        (0, step)
    } else if i == 4 {
        (-step, -step)
    } else if i == 5 {
        (step, -step)
    } else if i == 6 {
        (-step, step)
    } else {
        (step, step)
    }
}

/// A motion outside the radius is not considered.
pub open spec fn considered(
    cost: spec_fn(int, int) -> nat,
    best: (nat, int, int),
    radius: int,
    dx: int,
    dy: int,
) -> (nat, int, int) {
    if dx < -radius || dx > radius || dy < -radius || dy > radius {
        best
    } else {
        better(cost, best, dx, dy)
    }
}

/// Tries the neighbors of `center` from number `i` on; a perfect match ends the search.
pub open spec fn sweep(
    cost: spec_fn(int, int) -> nat,
    center: (int, int),
    radius: int,
    step: int,
    best: (nat, int, int),
    i: int,
) -> (nat, int, int)
    decreases 8 - i,
{
    if i >= 8 || best.0 == 0 {
        best
    } else {
        sweep(
            cost,
            center,
            radius,
            step,
            considered(
                cost,
                best,
                radius,
                center.0 + neighbor(i, step).0,
                center.1 + neighbor(i, step).1,
            ),
            i + 1,
        )
    }
}

/// Moves from the best motion to its best neighbor until none is better.
pub open spec fn settled(
    cost: spec_fn(int, int) -> nat,
    radius: int,
    step: int,
    best: (nat, int, int),
) -> (nat, int, int)
    decreases best.0,
{
    let next = sweep(cost, (best.1, best.2), radius, step, best, 0);
    if next.0 == 0 || next.0 >= best.0 {
        next
    } else {
        settled(cost, radius, step, next)
    }
}

/// The local search: steps of two samples first, then of one.
pub open spec fn local_search(cost: spec_fn(int, int) -> nat, radius: int) -> (nat, int, int) {
    let start = (cost(0, 0), 0int, 0int);
    if radius >= 2 {
        let coarse = settled(cost, radius, 2, start);
        if coarse.0 == 0 {
            coarse
        } else {
            settled(cost, radius, 1, coarse)
        }
    } else {
        settled(cost, radius, 1, start)
    }
}

/// Tries the half-sample motions around a whole-sample one, from number `i` of nine on.
pub open spec fn refined(
    cost: spec_fn(int, int) -> nat,
    dx: int,
    dy: int,
    best: (nat, int, int),
    i: int,
) -> (nat, int, int)
    decreases 9 - i,
{
    if i >= 9 {
        best
    } else {
        let (dx2, dy2) = (2 * dx + i % 3 - 1, 2 * dy + i / 3 - 1);
        let next = if -64 <= dx2 <= 64 && -64 <= dy2 <= 64 && cost(dx2, dy2) < best.0 {
            (cost(dx2, dy2), dx2, dy2)
        } else {
            best
        };
        refined(cost, dx, dy, next, i + 1)
    }
}

/// The motion that the search settles on: its error and its components in half samples. The balanced
/// search goes from coarse to fine and the quality search row by row; both cover the whole radius and
/// find the same motion by whole samples.
pub open spec fn best_motion(cost: spec_fn(int, int) -> nat, radius: int, preset: EncoderPreset) -> (
    nat,
    int,
    int,
) {
    if cost(0, 0) == 0 || radius == 0 {
        (cost(0, 0), 0, 0)
    } else {
        let whole = if preset == EncoderPreset::Fast {
            local_search(cost, radius)
        } else {
            full_search(cost, radius, (2 * radius + 1) * (2 * radius + 1))
        };
        let start = (whole.0, 2 * whole.1, 2 * whole.2);
        if whole.0 == 0 {
            start
        } else {
            refined(cost, whole.1, whole.2, start, 0)
        }
    }
}

/// A motion within the radius.
pub open spec fn within(m: (nat, int, int), radius: int) -> bool {
    -radius <= m.1 <= radius && -radius <= m.2 <= radius
}

pub proof fn lemma_full_search(cost: spec_fn(int, int) -> nat, radius: int, n: int)
    requires
        0 <= radius,
        n <= (2 * radius + 1) * (2 * radius + 1),
    ensures
        within(full_search(cost, radius, n), radius),
    decreases n,
{
    if n > 0 {
        lemma_full_search(cost, radius, n - 1);
        syntax::lemma_index_inverse(2 * radius + 1, 2 * radius + 1, n - 1);
    }
}

/// Motion number `k` within the radius, row by row.
pub open spec fn motion_at(k: int, radius: int) -> (int, int) {
    (k % (2 * radius + 1) - radius, k / (2 * radius + 1) - radius)
}

/// The number of a motion within the radius.
pub open spec fn motion_number(dx: int, dy: int, radius: int) -> int {
    (dy + radius) * (2 * radius + 1) + dx + radius
}

proof fn lemma_motion_number(dx: int, dy: int, radius: int)
    requires
        -radius <= dx <= radius,
        -radius <= dy <= radius,
    ensures
        0 <= motion_number(dx, dy, radius) < (2 * radius + 1) * (2 * radius + 1),
        motion_at(motion_number(dx, dy, radius), radius) == (dx, dy),
{
    let side = 2 * radius + 1;
    let k = motion_number(dx, dy, radius);
    vstd::arithmetic::div_mod::lemma_fundamental_div_mod_converse(
        k,
        side,
        dy + radius,
        dx + radius,
    );
    assert(0 <= (dy + radius) * side <= (side - 1) * side) by (nonlinear_arith)
        requires
            0 <= dy + radius <= side - 1,
            0 <= side,
    ;
    assert((side - 1) * side == side * side - side) by (nonlinear_arith);
}

/// Where a motion stands in the order of the full search.
pub open spec fn ahead(dx: int, dy: int, other: (nat, int, int)) -> bool {
    dy < other.2 || dy == other.2 && dx < other.1
}

proof fn lemma_ahead(dx: int, dy: int, other: (nat, int, int), radius: int)
    requires
        -radius <= dx <= radius,
        -radius <= dy <= radius,
        within(other, radius),
    ensures
        ahead(dx, dy, other) == (motion_number(dx, dy, radius) < motion_number(
            other.1,
            other.2,
            radius,
        )),
{
    let side = 2 * radius + 1;
    let (a, b) = (dy + radius, other.2 + radius);
    if a < b {
        assert(a * side + side <= b * side) by (nonlinear_arith)
            requires
                a + 1 <= b,
                0 <= side,
        ;
    } else if b < a {
        assert(b * side + side <= a * side) by (nonlinear_arith)
            requires
                b + 1 <= a,
                0 <= side,
        ;
    }
}

/// Where the full search found its motion, or -1 where no motion is as good.
pub proof fn lemma_full_place(cost: spec_fn(int, int) -> nat, radius: int, n: int) -> (j: int)
    requires
        0 <= radius,
        0 <= n,
    ensures
        ({
            let best = full_search(cost, radius, n);
            let at = motion_at(j, radius);
            &&& -1 <= j < n
            &&& best.0 <= cost(0, 0)
            &&& j == -1 ==> best == (cost(0, 0), 0int, 0int)
            &&& j >= 0 ==> best.0 < cost(0, 0) && best == (cost(2 * at.0, 2 * at.1), at.0, at.1)
            &&& forall|k: int|
                0 <= k < n ==> best.0 <= cost(
                    2 * (#[trigger] motion_at(k, radius)).0,
                    2 * motion_at(k, radius).1,
                )
            &&& forall|k: int|
                0 <= k < j ==> best.0 < cost(
                    2 * (#[trigger] motion_at(k, radius)).0,
                    2 * motion_at(k, radius).1,
                )
        }),
    decreases n,
{
    if n == 0 {
        -1
    } else {
        let j = lemma_full_place(cost, radius, n - 1);
        let before = full_search(cost, radius, n - 1);
        let at = motion_at(n - 1, radius);
        if cost(2 * at.0, 2 * at.1) < before.0 {
            n - 1
        } else {
            j
        }
    }
}

/// Every second motion in either direction, and no motion among them.
pub open spec fn coarse(dx: int, dy: int) -> bool {
    dx % 2 == 0 && dy % 2 == 0
}

/// The motions that a search from coarse to fine has tried when it comes to `(x, y)`: in the first
/// pass some of the coarse ones, in the second all of them and some of the others.
pub open spec fn tried(fine: bool, x: int, y: int, dx: int, dy: int) -> bool {
    let passed = dy < y || dy == y && dx < x;
    if coarse(dx, dy) {
        fine || passed
    } else {
        fine && passed
    }
}

/// The best of no motion and the motions tried so far; of equals the first in the order of the full
/// search.
pub open spec fn best_tried(
    cost: spec_fn(int, int) -> nat,
    radius: int,
    best: (nat, int, int),
    fine: bool,
    x: int,
    y: int,
) -> bool {
    &&& within(best, radius)
    &&& best.0 == cost(2 * best.1, 2 * best.2)
    &&& best.0 < cost(0, 0) || best == (cost(0, 0), 0int, 0int)
    &&& forall|dx: int, dy: int|
        -radius <= dx <= radius && -radius <= dy <= radius && #[trigger] tried(fine, x, y, dx, dy)
            ==> {
            &&& best.0 <= cost(2 * dx, 2 * dy)
            &&& best.0 == cost(2 * dx, 2 * dy) && best.0 < cost(0, 0) ==> !ahead(dx, dy, best)
        }
}

/// One more motion is tried, where it is its turn.
proof fn lemma_tried_one(
    cost: spec_fn(int, int) -> nat,
    radius: int,
    before: (nat, int, int),
    best: (nat, int, int),
    fine: bool,
    x: int,
    y: int,
)
    requires
        -radius <= x <= radius,
        -radius <= y <= radius,
        best_tried(cost, radius, before, fine, x, y),
        ({
            let d = cost(2 * x, 2 * y);
            best == if coarse(x, y) != fine && (d < before.0 || d == before.0 && d < cost(0, 0)
                && ahead(x, y, before)) {
                (d, x, y)
            } else {
                before
            }
        }),
    ensures
        best_tried(cost, radius, best, fine, x + 1, y),
{
    assert forall|dx: int, dy: int|
        -radius <= dx <= radius && -radius <= dy <= radius && #[trigger] tried(
            fine,
            x + 1,
            y,
            dx,
            dy,
        ) implies {
        &&& best.0 <= cost(2 * dx, 2 * dy)
        &&& best.0 == cost(2 * dx, 2 * dy) && best.0 < cost(0, 0) ==> !ahead(dx, dy, best)
    } by {
        if dx == x && dy == y {
            if coarse(x, y) == fine {
                assert(tried(fine, x, y, dx, dy));
            }
        } else {
            assert(tried(fine, x, y, dx, dy));
        }
    }
}

/// A row is done.
proof fn lemma_tried_row(
    cost: spec_fn(int, int) -> nat,
    radius: int,
    best: (nat, int, int),
    fine: bool,
    y: int,
)
    requires
        best_tried(cost, radius, best, fine, radius + 1, y),
    ensures
        best_tried(cost, radius, best, fine, -radius, y + 1),
{
    assert forall|dx: int, dy: int|
        -radius <= dx <= radius && -radius <= dy <= radius && #[trigger] tried(
            fine,
            -radius,
            y + 1,
            dx,
            dy,
        ) implies {
        &&& best.0 <= cost(2 * dx, 2 * dy)
        &&& best.0 == cost(2 * dx, 2 * dy) && best.0 < cost(0, 0) ==> !ahead(dx, dy, best)
    } by {
        assert(tried(fine, radius + 1, y, dx, dy));
    }
}

/// The second pass starts from what the first has found.
proof fn lemma_tried_coarse(cost: spec_fn(int, int) -> nat, radius: int, best: (nat, int, int))
    requires
        best_tried(cost, radius, best, false, -radius, radius + 1),
    ensures
        best_tried(cost, radius, best, true, -radius, -radius),
{
    assert forall|dx: int, dy: int|
        -radius <= dx <= radius && -radius <= dy <= radius && #[trigger] tried(
            true,
            -radius,
            -radius,
            dx,
            dy,
        ) implies {
        &&& best.0 <= cost(2 * dx, 2 * dy)
        &&& best.0 == cost(2 * dx, 2 * dy) && best.0 < cost(0, 0) ==> !ahead(dx, dy, best)
    } by {
        assert(tried(false, -radius, radius + 1, dx, dy));
    }
}

/// The search from coarse to fine finds what the full search finds.
pub proof fn law_coarse_to_fine(
    cost: spec_fn(int, int) -> nat,
    radius: int,
    best: (nat, int, int),
)
    requires
        0 <= radius,
        best_tried(cost, radius, best, true, -radius, radius + 1),
    ensures
        best == full_search(cost, radius, (2 * radius + 1) * (2 * radius + 1)),
{
    let n = (2 * radius + 1) * (2 * radius + 1);
    assert(n >= 0) by (nonlinear_arith)
        requires
            n == (2 * radius + 1) * (2 * radius + 1),
            radius >= 0,
    ;
    let full = full_search(cost, radius, n);
    let j = lemma_full_place(cost, radius, n);
    lemma_full_search(cost, radius, n);
    lemma_motion_number(best.1, best.2, radius);
    let k = motion_number(best.1, best.2, radius);
    assert(full.0 <= cost(2 * motion_at(k, radius).0, 2 * motion_at(k, radius).1));
    assert(tried(true, -radius, radius + 1, full.1, full.2));
    if j >= 0 {
        lemma_motion_number(full.1, full.2, radius);
        lemma_number_at(j, radius);
        lemma_ahead(full.1, full.2, best, radius);
    }
}

proof fn lemma_number_at(k: int, radius: int)
    requires
        0 <= radius,
    ensures
        motion_number(motion_at(k, radius).0, motion_at(k, radius).1, radius) == k,
{
    let side = 2 * radius + 1;
    vstd::arithmetic::div_mod::lemma_fundamental_div_mod(k, side);
    let q = k / side;
    assert(side * q == q * side) by (nonlinear_arith);
}

/// No motion by whole samples within the radius is better than what the balanced and the quality
/// search settle on; its error is the one it is reported with, and it lies within the radius, half a
/// sample more, and the range that the bitstream can hold.
pub proof fn law_best_motion(
    cost: spec_fn(int, int) -> nat,
    radius: int,
    preset: EncoderPreset,
    dx: int,
    dy: int,
)
    requires
        0 <= radius <= 32,
        preset != EncoderPreset::Fast,
        -radius <= dx <= radius,
        -radius <= dy <= radius,
    ensures
        ({
            let best = best_motion(cost, radius, preset);
            &&& best.0 <= cost(2 * dx, 2 * dy)
            &&& best.0 == cost(best.1, best.2)
            &&& within(best, 2 * radius + 1)
            &&& within(best, 64)
        }),
{
    law_motion_range(cost, radius, preset);
    if !(cost(0, 0) == 0 || radius == 0) {
        let n = (2 * radius + 1) * (2 * radius + 1);
        assert(n >= 0) by (nonlinear_arith)
            requires
                n == (2 * radius + 1) * (2 * radius + 1),
                radius >= 0,
        ;
        let whole = full_search(cost, radius, n);
        let j = lemma_full_place(cost, radius, n);
        lemma_full_search(cost, radius, n);
        lemma_motion_number(dx, dy, radius);
        let k = motion_number(dx, dy, radius);
        assert(whole.0 <= cost(2 * motion_at(k, radius).0, 2 * motion_at(k, radius).1));
        lemma_refined_cost(cost, whole.1, whole.2, (whole.0, 2 * whole.1, 2 * whole.2), 0);
    }
}

proof fn lemma_refined_cost(
    cost: spec_fn(int, int) -> nat,
    dx: int,
    dy: int,
    best: (nat, int, int),
    i: int,
)
    requires
        0 <= i,
        best.0 == cost(best.1, best.2),
        2 * dx - 1 <= best.1 <= 2 * dx + 1,
        2 * dy - 1 <= best.2 <= 2 * dy + 1,
    ensures
        ({
            let found = refined(cost, dx, dy, best, i);
            &&& found.0 <= best.0
            &&& found.0 == cost(found.1, found.2)
            &&& 2 * dx - 1 <= found.1 <= 2 * dx + 1
            &&& 2 * dy - 1 <= found.2 <= 2 * dy + 1
        }),
    decreases 9 - i,
{
    if i < 9 {
        let (dx2, dy2) = (2 * dx + i % 3 - 1, 2 * dy + i / 3 - 1);
        let next = if -64 <= dx2 <= 64 && -64 <= dy2 <= 64 && cost(dx2, dy2) < best.0 {
            (cost(dx2, dy2), dx2, dy2)
        } else {
            best
        };
        lemma_refined_cost(cost, dx, dy, next, i + 1);
    }
}

proof fn lemma_sweep(
    cost: spec_fn(int, int) -> nat,
    center: (int, int),
    radius: int,
    step: int,
    best: (nat, int, int),
    i: int,
)
    requires
        within(best, radius),
        0 <= i,
        step > 0,
    ensures
        within(sweep(cost, center, radius, step, best, i), radius),
        sweep(cost, center, radius, step, best, i).0 <= best.0,
        sweep(cost, center, radius, step, best, i).0 == best.0 ==> sweep(
            cost,
            center,
            radius,
            step,
            best,
            i,
        ) == best,
        sweep(cost, center, radius, step, best, i).0 < best.0 ==> (sweep(
            cost,
            center,
            radius,
            step,
            best,
            i,
        ).1, sweep(cost, center, radius, step, best, i).2) != center,
    decreases 8 - i,
{
    if i < 8 && best.0 != 0 {
        let next = considered(
            cost,
            best,
            radius,
            center.0 + neighbor(i, step).0,
            center.1 + neighbor(i, step).1,
        );
        lemma_sweep(cost, center, radius, step, next, i + 1);
    }
}

proof fn lemma_settled(
    cost: spec_fn(int, int) -> nat,
    radius: int,
    step: int,
    best: (nat, int, int),
)
    requires
        within(best, radius),
        step > 0,
    ensures
        within(settled(cost, radius, step, best), radius),
    decreases best.0,
{
    let next = sweep(cost, (best.1, best.2), radius, step, best, 0);
    lemma_sweep(cost, (best.1, best.2), radius, step, best, 0);
    if !(next.0 == 0 || next.0 >= best.0) {
        lemma_settled(cost, radius, step, next);
    }
}

proof fn lemma_refined(
    cost: spec_fn(int, int) -> nat,
    dx: int,
    dy: int,
    best: (nat, int, int),
    i: int,
)
    requires
        within(best, 64),
    ensures
        within(refined(cost, dx, dy, best, i), 64),
    decreases 9 - i,
{
    if i < 9 {
        let (dx2, dy2) = (2 * dx + i % 3 - 1, 2 * dy + i / 3 - 1);
        let next = if -64 <= dx2 <= 64 && -64 <= dy2 <= 64 && cost(dx2, dy2) < best.0 {
            (cost(dx2, dy2), dx2, dy2)
        } else {
            best
        };
        lemma_refined(cost, dx, dy, next, i + 1);
    }
}

/// The search never leaves the range of motions that the bitstream can hold.
pub proof fn law_motion_range(
    cost: spec_fn(int, int) -> nat,
    radius: int,
    preset: EncoderPreset,
)
    requires
        0 <= radius <= 32,
    ensures
        within(best_motion(cost, radius, preset), 64),
{
    if !(cost(0, 0) == 0 || radius == 0) {
        let start = (cost(0, 0), 0int, 0int);
        lemma_settled(cost, radius, 2, start);
        lemma_settled(cost, radius, 1, settled(cost, radius, 2, start));
        lemma_settled(cost, radius, 1, start);
        lemma_full_search(cost, radius, (2 * radius + 1) * (2 * radius + 1));
        let whole = if preset == EncoderPreset::Fast {
            local_search(cost, radius)
        } else {
            full_search(cost, radius, (2 * radius + 1) * (2 * radius + 1))
        };
        lemma_refined(cost, whole.1, whole.2, (whole.0, 2 * whole.1, 2 * whole.2), 0);
    }
}

/// What a motion found by a search means.
pub open spec fn motion_view(m: (u32, i32, i32)) -> (nat, int, int) {
    (m.0 as nat, m.1 as int, m.2 as int)
}

/// Tries one motion by whole samples.
pub fn consider_integer_motion(
    best: &mut (u32, i32, i32),
    src: &[u8],
    reference: &[u8],
    w: usize,
    h: usize,
    bx: usize,
    by: usize,
    radius: i32,
    dx: i32,
    dy: i32,
    kernels: KernelSet,
)
    requires
        prediction::placed(src@.len(), w, h, bx, by),
        reference@.len() == src@.len(),
        0 <= radius <= 255,
        -1000 <= dx <= 1000,
        -1000 <= dy <= 1000,
    ensures
        motion_view(*final(best)) == considered(
            motion_cost(src@, reference@, w as int, h as int, bx as int, by as int),
            motion_view(*old(best)),
            radius as int,
            dx as int,
            dy as int,
        ),
{
    if dx < -radius || dx > radius || dy < -radius || dy > radius {
        return;
    }
    let d: u32 = sad_inter(src, reference, w, h, bx, by, 2 * dx, 2 * dy, kernels);
    if d < best.0 {
        *best = (d, dx, dy);
    }
}

/// Tries all motions by whole samples within the radius.
pub(crate) fn search_full(
    src: &[u8],
    reference: &[u8],
    w: usize,
    h: usize,
    bx: usize,
    by: usize,
    radius: i32,
    zero: u32,
    kernels: KernelSet,
) -> (best: (u32, i32, i32))
    requires
        prediction::placed(src@.len(), w, h, bx, by),
        reference@.len() == src@.len(),
        0 <= radius <= 255,
        zero == motion_cost(src@, reference@, w as int, h as int, bx as int, by as int)(0, 0),
    ensures
        motion_view(best) == full_search(
            motion_cost(src@, reference@, w as int, h as int, bx as int, by as int),
            radius as int,
            (2 * radius + 1) * (2 * radius + 1),
        ),
{
    let ghost cost = motion_cost(src@, reference@, w as int, h as int, bx as int, by as int);
    let ghost side = 2 * radius + 1;
    let mut best: (u32, i32, i32) = (zero, 0, 0);
    let mut dy: i32 = -radius;
    assert(0 * side == 0);
    while dy <= radius
        invariant
            prediction::placed(src@.len(), w, h, bx, by),
            reference@.len() == src@.len(),
            0 <= radius <= 255,
            cost == motion_cost(src@, reference@, w as int, h as int, bx as int, by as int),
            side == 2 * radius + 1,
            -radius <= dy <= radius + 1,
            motion_view(best) == full_search(cost, radius as int, (dy + radius) * side),
        decreases radius + 1 - dy,
    {
        let mut dx: i32 = -radius;
        let ghost row = (dy + radius) * side;
        while dx <= radius
            invariant
                prediction::placed(src@.len(), w, h, bx, by),
                reference@.len() == src@.len(),
                0 <= radius <= 255,
                cost == motion_cost(src@, reference@, w as int, h as int, bx as int, by as int),
                side == 2 * radius + 1,
                row == (dy + radius) * side,
                row >= 0,
                -radius <= dy <= radius,
                -radius <= dx <= radius + 1,
                motion_view(best) == full_search(cost, radius as int, row + dx + radius),
            decreases radius + 1 - dx,
        {
            proof {
                let n = row + dx + radius;
                vstd::arithmetic::div_mod::lemma_fundamental_div_mod_converse(
                    n,
                    side,
                    dy + radius,
                    dx + radius,
                );
            }
            consider_integer_motion(
                &mut best,
                src,
                reference,
                w,
                h,
                bx,
                by,
                radius,
                dx,
                dy,
                kernels,
            );
            dx = dx + 1;
        }
        proof {
            assert((dy + 1 + radius) * side == (dy + radius) * side + side) by (nonlinear_arith);
            assert((dy + 1 + radius) * side >= 0) by (nonlinear_arith)
                requires
                    dy + 1 + radius >= 0,
                    side >= 0,
            ;
        }
        dy = dy + 1;
    }
    best
}

/// One pass of the search from coarse to fine: the coarse motions, or all others.
fn search_pass(
    src: &[u8],
    reference: &[u8],
    w: usize,
    h: usize,
    bx: usize,
    by: usize,
    radius: i32,
    zero: u32,
    fine: bool,
    start: (u32, i32, i32),
    kernels: KernelSet,
) -> (best: (u32, i32, i32))
    requires
        prediction::placed(src@.len(), w, h, bx, by),
        reference@.len() == src@.len(),
        0 <= radius <= 32,
        zero == motion_cost(src@, reference@, w as int, h as int, bx as int, by as int)(0, 0),
        best_tried(
            motion_cost(src@, reference@, w as int, h as int, bx as int, by as int),
            radius as int,
            motion_view(start),
            fine,
            -radius as int,
            -radius as int,
        ),
    ensures
        best_tried(
            motion_cost(src@, reference@, w as int, h as int, bx as int, by as int),
            radius as int,
            motion_view(best),
            fine,
            -radius as int,
            radius + 1,
        ),
{
    let ghost cost = motion_cost(src@, reference@, w as int, h as int, bx as int, by as int);
    let mut best: (u32, i32, i32) = start;
    let mut dy: i32 = -radius;
    while dy <= radius
        invariant
            prediction::placed(src@.len(), w, h, bx, by),
            reference@.len() == src@.len(),
            0 <= radius <= 32,
            cost == motion_cost(src@, reference@, w as int, h as int, bx as int, by as int),
            zero == cost(0, 0),
            -radius <= dy <= radius + 1,
            best_tried(cost, radius as int, motion_view(best), fine, -radius as int, dy as int),
        decreases radius + 1 - dy,
    {
        let mut dx: i32 = -radius;
        while dx <= radius
            invariant
                prediction::placed(src@.len(), w, h, bx, by),
                reference@.len() == src@.len(),
                0 <= radius <= 32,
                cost == motion_cost(src@, reference@, w as int, h as int, bx as int, by as int),
                zero == cost(0, 0),
                -radius <= dy <= radius,
                -radius <= dx <= radius + 1,
                best_tried(cost, radius as int, motion_view(best), fine, dx as int, dy as int),
            decreases radius + 1 - dx,
        {
            let ghost before = motion_view(best);
            let on_grid: bool = (dx + 64) % 2 == 0 && (dy + 64) % 2 == 0;
            if on_grid != fine {
                let d: u32 = sad_inter(src, reference, w, h, bx, by, 2 * dx, 2 * dy, kernels);
                let first: bool = dy < best.2 || dy == best.2 && dx < best.1;
                if d < best.0 || d == best.0 && d < zero && first {
                    best = (d, dx, dy);
                }
            }
            proof {
                lemma_tried_one(
                    cost,
                    radius as int,
                    before,
                    motion_view(best),
                    fine,
                    dx as int,
                    dy as int,
                );
            }
            dx = dx + 1;
        }
        proof {
            lemma_tried_row(cost, radius as int, motion_view(best), fine, dy as int);
        }
        dy = dy + 1;
    }
    best
}

/// Tries all motions by whole samples within the radius, the coarse ones first.
fn search_scaled(
    src: &[u8],
    reference: &[u8],
    w: usize,
    h: usize,
    bx: usize,
    by: usize,
    radius: i32,
    zero: u32,
    kernels: KernelSet,
) -> (best: (u32, i32, i32))
    requires
        prediction::placed(src@.len(), w, h, bx, by),
        reference@.len() == src@.len(),
        0 <= radius <= 32,
        zero == motion_cost(src@, reference@, w as int, h as int, bx as int, by as int)(0, 0),
    ensures
        motion_view(best) == full_search(
            motion_cost(src@, reference@, w as int, h as int, bx as int, by as int),
            radius as int,
            (2 * radius + 1) * (2 * radius + 1),
        ),
{
    let ghost cost = motion_cost(src@, reference@, w as int, h as int, bx as int, by as int);
    let found: (u32, i32, i32) = search_pass(
        src,
        reference,
        w,
        h,
        bx,
        by,
        radius,
        zero,
        false,
        (zero, 0, 0),
        kernels,
    );
    proof {
        lemma_tried_coarse(cost, radius as int, motion_view(found));
    }
    let best: (u32, i32, i32) = search_pass(
        src,
        reference,
        w,
        h,
        bx,
        by,
        radius,
        zero,
        true,
        found,
        kernels,
    );
    proof {
        law_coarse_to_fine(cost, radius as int, motion_view(best));
    }
    best
}

/// One of the eight directions.
fn direction(i: usize, step: i32) -> (r: (i32, i32))
    requires
        0 < step <= 2,
    ensures
        r.0 == neighbor(i as int, step as int).0,
        r.1 == neighbor(i as int, step as int).1,
        -2 <= r.0 <= 2,
        -2 <= r.1 <= 2,
{
    if i == 0 {
        (-step, 0)
    } else if i == 1 {
        (step, 0)
    } else if i == 2 {
        (0, -step)
    } else if i == 3 {
        (0, step)
    } else if i == 4 {
        (-step, -step)
    } else if i == 5 {
        (step, -step)
    } else if i == 6 {
        (-step, step)
    } else {
        (step, step)
    }
}

/// Moves to the best neighbor until none is better.
fn settle(
    src: &[u8],
    reference: &[u8],
    w: usize,
    h: usize,
    bx: usize,
    by: usize,
    radius: i32,
    step: i32,
    start: (u32, i32, i32),
    kernels: KernelSet,
) -> (r: (u32, i32, i32))
    requires
        prediction::placed(src@.len(), w, h, bx, by),
        reference@.len() == src@.len(),
        0 <= radius <= 32,
        0 < step <= 2,
        within(motion_view(start), radius as int),
    ensures
        motion_view(r) == settled(
            motion_cost(src@, reference@, w as int, h as int, bx as int, by as int),
            radius as int,
            step as int,
            motion_view(start),
        ),
        within(motion_view(r), radius as int),
{
    let ghost cost = motion_cost(src@, reference@, w as int, h as int, bx as int, by as int);
    let ghost goal = settled(cost, radius as int, step as int, motion_view(start));
    proof {
        lemma_settled(cost, radius as int, step as int, motion_view(start));
    }
    let mut best: (u32, i32, i32) = start;
    loop
        invariant
            prediction::placed(src@.len(), w, h, bx, by),
            reference@.len() == src@.len(),
            0 <= radius <= 32,
            cost == motion_cost(src@, reference@, w as int, h as int, bx as int, by as int),
            0 < step <= 2,
            within(motion_view(best), radius as int),
            within(goal, radius as int),
            goal == settled(motion_cost(src@, reference@, w as int, h as int, bx as int, by as int), radius as int, step as int, motion_view(start)),
            goal == settled(cost, radius as int, step as int, motion_view(best)),
        decreases best.0,
    {
        let (cx, cy): (i32, i32) = (best.1, best.2);
        let ghost from = motion_view(best);
        let ghost center = (cx as int, cy as int);
        let ghost swept = sweep(cost, center, radius as int, step as int, from, 0);
        proof {
            lemma_sweep(cost, center, radius as int, step as int, from, 0);
        }
        let before: u32 = best.0;
        let mut i: usize = 0;
        while i < 8 && best.0 != 0
            invariant
                prediction::placed(src@.len(), w, h, bx, by),
                reference@.len() == src@.len(),
                0 <= radius <= 32,
                cost == motion_cost(src@, reference@, w as int, h as int, bx as int, by as int),
                0 < step <= 2,
                -32 <= cx <= 32,
                -32 <= cy <= 32,
                center == (cx as int, cy as int),
                i <= 8,
                within(motion_view(best), radius as int),
                swept == sweep(
                    cost,
                    center,
                    radius as int,
                    step as int,
                    motion_view(best),
                    i as int,
                ),
            decreases 8 - i,
        {
            let (ox, oy): (i32, i32) = direction(i, step);
            consider_integer_motion(
                &mut best,
                src,
                reference,
                w,
                h,
                bx,
                by,
                radius,
                cx + ox,
                cy + oy,
                kernels,
            );
            i = i + 1;
        }
        assert(motion_view(best) == swept);
        if best.0 == 0 || (best.1 == cx && best.2 == cy) {
            return best;
        }
    }
}

/// Tries the half-sample motions around a motion by whole samples.
fn refine(
    src: &[u8],
    reference: &[u8],
    w: usize,
    h: usize,
    bx: usize,
    by: usize,
    whole: (u32, i32, i32),
    kernels: KernelSet,
) -> (r: (u32, i32, i32))
    requires
        prediction::placed(src@.len(), w, h, bx, by),
        reference@.len() == src@.len(),
        within(motion_view(whole), 32),
    ensures
        motion_view(r) == refined(
            motion_cost(src@, reference@, w as int, h as int, bx as int, by as int),
            whole.1 as int,
            whole.2 as int,
            (whole.0 as nat, 2 * whole.1, 2 * whole.2),
            0,
        ),
{
    let ghost cost = motion_cost(src@, reference@, w as int, h as int, bx as int, by as int);
    let ghost goal = refined(
        cost,
        whole.1 as int,
        whole.2 as int,
        (whole.0 as nat, 2 * whole.1, 2 * whole.2),
        0,
    );
    let mut sub: (u32, i32, i32) = (whole.0, 2 * whole.1, 2 * whole.2);
    let mut i: i32 = 0;
    while i < 9
        invariant
            prediction::placed(src@.len(), w, h, bx, by),
            reference@.len() == src@.len(),
            within(motion_view(whole), 32),
            cost == motion_cost(src@, reference@, w as int, h as int, bx as int, by as int),
            0 <= i <= 9,
            goal == refined(cost, whole.1 as int, whole.2 as int, motion_view(sub), i as int),
        decreases 9 - i,
    {
        let dx2: i32 = 2 * whole.1 + i % 3 - 1;
        let dy2: i32 = 2 * whole.2 + i / 3 - 1;
        if -64 <= dx2 && dx2 <= 64 && -64 <= dy2 && dy2 <= 64 {
            let d: u32 = sad_inter(src, reference, w, h, bx, by, dx2, dy2, kernels);
            if d < sub.0 {
                sub = (d, dx2, dy2);
            }
        }
        i = i + 1;
    }
    sub
}

/// Searches for the motion that predicts a block best: its error and its components in half
/// samples.
pub fn search_inter_motion(
    src: &[u8],
    reference: &[u8],
    w: usize,
    h: usize,
    bx: usize,
    by: usize,
    radius: i32,
    preset: EncoderPreset,
    kernels: KernelSet,
) -> (r: (u32, i32, i32))
    requires
        prediction::placed(src@.len(), w, h, bx, by),
        reference@.len() == src@.len(),
        0 <= radius <= 32,
    ensures
        motion_view(r) == best_motion(
            motion_cost(src@, reference@, w as int, h as int, bx as int, by as int),
            radius as int,
            preset,
        ),
        within(motion_view(r), 64),
{
    let ghost cost = motion_cost(src@, reference@, w as int, h as int, bx as int, by as int);
    proof {
        law_motion_range(cost, radius as int, preset);
        assert((2 * radius + 1) * (2 * radius + 1) >= 0) by (nonlinear_arith)
            requires
                radius >= 0,
        ;
    }
    let zero: u32 = sad_inter(src, reference, w, h, bx, by, 0, 0, kernels);
    if zero == 0 || radius == 0 {
        return (zero, 0, 0);
    }
    let best: (u32, i32, i32) = if preset == EncoderPreset::Fast {
        let start: (u32, i32, i32) = (zero, 0, 0);
        if radius >= 2 {
            let coarse: (u32, i32, i32) = settle(
                src,
                reference,
                w,
                h,
                bx,
                by,
                radius,
                2,
                start,
                kernels,
            );
            if coarse.0 == 0 {
                coarse
            } else {
                settle(src, reference, w, h, bx, by, radius, 1, coarse, kernels)
            }
        } else {
            settle(src, reference, w, h, bx, by, radius, 1, start, kernels)
        }
    } else {
        proof {
            lemma_full_search(cost, radius as int, (2 * radius + 1) * (2 * radius + 1));
        }
        if preset == EncoderPreset::Balanced {
            search_scaled(src, reference, w, h, bx, by, radius, zero, kernels)
        } else {
            search_full(src, reference, w, h, bx, by, radius, zero, kernels)
        }
    };
    if best.0 == 0 {
        (best.0, 2 * best.1, 2 * best.2)
    } else {
        refine(src, reference, w, h, bx, by, best, kernels)
    }
}

} // verus!
