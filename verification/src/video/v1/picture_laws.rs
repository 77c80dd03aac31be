//! What decoded pictures show, told from the picture alone.
use crate::kernels::scalar;
use crate::video::v1::encoder;
use crate::video::v1::syntax;
use crate::video::v1::writing;
use crate::video::v1::VideoError;
use vstd::prelude::*;

verus! {

// ---------------------------------------------------------------------------------------------
// Words

/// Whether an odd number of binary digits is set in both numbers.
pub open spec fn odd(a: int, b: int) -> bool {
    ((a % 2 == 1 && b % 2 == 1) != (a / 2 % 2 == 1 && b / 2 % 2 == 1)) != (a / 4 % 2 == 1 && b / 4 % 2
        == 1)
}

/// The number, or what cancels it.
pub open spec fn signed(i: int, k: int, a: int) -> int {
    if odd(i, k) {
        -a
    } else {
        a
    }
}

/// A sum of eight numbers, each with its sign.
pub open spec fn signed_sum(k: int, a: int, b: int, c: int, d: int, e: int, f: int, g: int, h: int) -> int {
    signed(0, k, a) + signed(1, k, b) + signed(2, k, c) + signed(3, k, d) + signed(4, k, e) + signed(
        5,
        k,
        f,
    ) + signed(6, k, g) + signed(7, k, h)
}

/// The signed sum of row `v` of an 8x8 block.
pub open spec fn row_sum(m: Seq<int>, v: int, x: int) -> int {
    signed_sum(
        x,
        m[8 * v],
        m[8 * v + 1],
        m[8 * v + 2],
        m[8 * v + 3],
        m[8 * v + 4],
        m[8 * v + 5],
        m[8 * v + 6],
        m[8 * v + 7],
    )
}

/// What the coefficients of a block add up to at (`x`, `y`): each with a sign for its column and one
/// for its row.
pub open spec fn spread(m: Seq<int>, x: int, y: int) -> int {
    signed_sum(
        y,
        row_sum(m, 0, x),
        row_sum(m, 1, x),
        row_sum(m, 2, x),
        row_sum(m, 3, x),
        row_sum(m, 4, x),
        row_sum(m, 5, x),
        row_sum(m, 6, x),
        row_sum(m, 7, x),
    )
}

/// `r` is the integer next to `t / 64`; of two the one that is farther from zero.
pub open spec fn nearest(r: int, t: int) -> bool {
    if t >= 0 {
        64 * r - 32 <= t < 64 * r + 32
    } else {
        64 * r - 32 < t <= 64 * r + 32
    }
}

/// A sample shows a prediction and the residual on top of it, kept between black and white.
pub open spec fn shows(sample: u8, base: int, coeff: Seq<int>, q: int, x: int, y: int) -> bool {
    forall|r: int|
        #[trigger] nearest(r, q * spread(coeff, x, y)) ==> sample == if base + r < 0 {
            0
        } else if base + r > 255 {
            255
        } else {
            base + r
        }
}

/// The number of the block of sample (`x`, `y`): blocks of 8x8 samples, row by row.
pub open spec fn number(w: int, x: int, y: int) -> int {
    y / 8 * ((w + 7) / 8) + x / 8
}

/// A list of blocks that can be written for a plane, and a sample of the plane.
pub open spec fn given(
    list: Seq<syntax::Block>,
    refs: Seq<Seq<u8>>,
    w: int,
    h: int,
    q: int,
    x: int,
    y: int,
) -> bool {
    &&& 0 <= x < w
    &&& 0 <= y < h
    &&& refs.len() <= 255
    &&& writing::plane_writable(list, refs.len(), w, h, q)
}

/// The plane that is decoded from a list of blocks in either layout.
#[verifier::opaque]
pub open spec fn plane_of(
    list: Seq<syntax::Block>,
    split: bool,
    refs: Seq<Seq<u8>>,
    w: int,
    h: int,
    q: int,
) -> Result<Seq<u8>, VideoError> {
    syntax::decoded_plane(writing::written(list, split), refs, w, h, q)
}

/// The sum of numbers.
pub open spec fn total(s: Seq<u8>) -> int
    decreases s.len(),
{
    if s.len() == 0 {
        0
    } else {
        total(s.drop_last()) + s.last()
    }
}

// ---------------------------------------------------------------------------------------------
// Transform

proof fn lemma_had(k: int, a: int, b: int, c: int, d: int, e: int, f: int, g: int, h: int)
    requires
        0 <= k < 8,
    ensures
        scalar::had(k, a, b, c, d, e, f, g, h) == signed_sum(k, a, b, c, d, e, f, g, h),
{
    reveal(scalar::had);
    assert(k == 0 || k == 1 || k == 2 || k == 3 || k == 4 || k == 5 || k == 6 || k == 7);
}

/// Each sample of the inverse transform is the sum of all coefficients, with the signs of the
/// Walsh-Hadamard transform, over 64 and rounded.
pub proof fn law_inverse_transform(m: Seq<int>, x: int, y: int)
    requires
        m.len() == 64,
        0 <= x < 8,
        0 <= y < 8,
    ensures
        scalar::inverse_wht(m).len() == 64,
        nearest(scalar::inverse_wht(m)[8 * y + x], spread(m, x, y)),
{
    scalar::lemma_wht_shape(m);
    scalar::lemma_wht_at(m, y, x);
    reveal(scalar::had_line);
    lemma_had(x, m[0], m[1], m[2], m[3], m[4], m[5], m[6], m[7]);
    lemma_had(x, m[8], m[9], m[10], m[11], m[12], m[13], m[14], m[15]);
    lemma_had(x, m[16], m[17], m[18], m[19], m[20], m[21], m[22], m[23]);
    lemma_had(x, m[24], m[25], m[26], m[27], m[28], m[29], m[30], m[31]);
    lemma_had(x, m[32], m[33], m[34], m[35], m[36], m[37], m[38], m[39]);
    lemma_had(x, m[40], m[41], m[42], m[43], m[44], m[45], m[46], m[47]);
    lemma_had(x, m[48], m[49], m[50], m[51], m[52], m[53], m[54], m[55]);
    lemma_had(x, m[56], m[57], m[58], m[59], m[60], m[61], m[62], m[63]);
    lemma_had(
        y,
        row_sum(m, 0, x),
        row_sum(m, 1, x),
        row_sum(m, 2, x),
        row_sum(m, 3, x),
        row_sum(m, 4, x),
        row_sum(m, 5, x),
        row_sum(m, 6, x),
        row_sum(m, 7, x),
    );
    let t = scalar::wht(m)[8 * y + x];
    assert(t == spread(m, x, y));
    assert(scalar::inverse_wht(m)[8 * y + x] == scalar::rounded_div(t, 64)) by {
        reveal(scalar::inverse_wht);
    }
}

proof fn lemma_scaled_one(i: int, k: int, q: int, a: int)
    ensures
        signed(i, k, a * q) == q * signed(i, k, a),
{
    assert(a * q == q * a) by (nonlinear_arith);
    assert(-(q * a) == q * (-a)) by (nonlinear_arith);
}

proof fn lemma_scaled_sum(k: int, q: int, a: int, b: int, c: int, d: int, e: int, f: int, g: int, h: int)
    ensures
        signed_sum(k, a * q, b * q, c * q, d * q, e * q, f * q, g * q, h * q) == q * signed_sum(
            k,
            a,
            b,
            c,
            d,
            e,
            f,
            g,
            h,
        ),
{
    lemma_scaled_one(0, k, q, a);
    lemma_scaled_one(1, k, q, b);
    lemma_scaled_one(2, k, q, c);
    lemma_scaled_one(3, k, q, d);
    lemma_scaled_one(4, k, q, e);
    lemma_scaled_one(5, k, q, f);
    lemma_scaled_one(6, k, q, g);
    lemma_scaled_one(7, k, q, h);
    let (t0, t1, t2, t3) = (signed(0, k, a), signed(1, k, b), signed(2, k, c), signed(3, k, d));
    let (t4, t5, t6, t7) = (signed(4, k, e), signed(5, k, f), signed(6, k, g), signed(7, k, h));
    assert(q * (t0 + t1 + t2 + t3 + t4 + t5 + t6 + t7) == q * t0 + q * t1 + q * t2 + q * t3 + q * t4
        + q * t5 + q * t6 + q * t7) by (nonlinear_arith);
}

/// Scaling by the quantizer step scales the sums.
proof fn lemma_scaled(coeff: Seq<int>, q: int, x: int, y: int)
    requires
        coeff.len() == 64,
    ensures
        spread(syntax::scaled(coeff, q), x, y) == q * spread(coeff, x, y),
{
    let m = syntax::scaled(coeff, q);
    assert forall|v: int| 0 <= v < 8 implies #[trigger] row_sum(m, v, x) == row_sum(coeff, v, x) * q by {
        lemma_scaled_sum(
            x,
            q,
            coeff[8 * v],
            coeff[8 * v + 1],
            coeff[8 * v + 2],
            coeff[8 * v + 3],
            coeff[8 * v + 4],
            coeff[8 * v + 5],
            coeff[8 * v + 6],
            coeff[8 * v + 7],
        );
        let r = row_sum(coeff, v, x);
        assert(q * r == r * q) by (nonlinear_arith);
    }
    lemma_scaled_sum(
        y,
        q,
        row_sum(coeff, 0, x),
        row_sum(coeff, 1, x),
        row_sum(coeff, 2, x),
        row_sum(coeff, 3, x),
        row_sum(coeff, 4, x),
        row_sum(coeff, 5, x),
        row_sum(coeff, 6, x),
        row_sum(coeff, 7, x),
    );
}

// ---------------------------------------------------------------------------------------------
// Planes

/// A sample stays as its block left it.
proof fn lemma_kept(
    list: Seq<syntax::Block>,
    refs: Seq<Seq<u8>>,
    w: int,
    h: int,
    q: int,
    m: int,
    n: int,
    x: int,
    y: int,
)
    requires
        0 <= x < w,
        0 <= y < h,
        number(w, x, y) < m <= n <= syntax::block_count(w, h),
    ensures
        writing::rendered(list, n, refs, w, h, q)[y * w + x] == writing::rendered(
            list,
            m,
            refs,
            w,
            h,
            q,
        )[y * w + x],
    decreases n - m,
{
    if m < n {
        lemma_kept(list, refs, w, h, q, m, n - 1, x, y);
        lemma_rendered_len(list, refs, w, h, q, n - 1);
        encoder::lemma_with_block_at(
            writing::rendered(list, n - 1, refs, w, h, q),
            refs,
            w,
            h,
            n - 1,
            q,
            list[n - 1],
            x,
            y,
        );
    }
}

proof fn lemma_rendered_len(list: Seq<syntax::Block>, refs: Seq<Seq<u8>>, w: int, h: int, q: int, k: int)
    requires
        0 < w,
        0 < h,
    ensures
        writing::rendered(list, k, refs, w, h, q).len() == w * h,
    decreases k,
{
    if k > 0 {
        lemma_rendered_len(list, refs, w, h, q, k - 1);
    } else {
        assert(w * h >= 0) by (nonlinear_arith)
            requires
                0 < w,
                0 < h,
        ;
    }
}

/// Where the block of a sample lies.
proof fn lemma_place(w: int, h: int, x: int, y: int)
    requires
        0 <= x < w,
        0 <= y < h,
    ensures
        0 <= number(w, x, y) < syntax::block_count(w, h),
        syntax::block_x(w, number(w, x, y)) == x - x % 8,
        syntax::block_y(w, number(w, x, y)) == y - y % 8,
{
    let c = syntax::block_columns(w);
    syntax::lemma_index(c, syntax::block_columns(h), x / 8, y / 8);
}

proof fn lemma_plane(list: Seq<syntax::Block>, split: bool, refs: Seq<Seq<u8>>, w: int, h: int, q: int)
    requires
        0 < w,
        0 < h,
        refs.len() <= 255,
        writing::plane_writable(list, refs.len(), w, h, q),
    ensures
        plane_of(list, split, refs, w, h, q) == Ok::<Seq<u8>, VideoError>(
            writing::rendered(list, list.len() as int, refs, w, h, q),
        ),
{
    reveal(plane_of);
    writing::law_plane_write_read(list, split, refs, w, h, q);
}

/// A sample of the decoded plane is what its block gives over the plane before the block.
proof fn lemma_sample(
    list: Seq<syntax::Block>,
    split: bool,
    refs: Seq<Seq<u8>>,
    w: int,
    h: int,
    q: int,
    x: int,
    y: int,
)
    requires
        given(list, refs, w, h, q, x, y),
    ensures
        ({
            let k = number(w, x, y);
            let before = writing::rendered(list, k, refs, w, h, q);
            let (bx, by) = (x - x % 8, y - y % 8);
            &&& 0 <= k < list.len()
            &&& writing::writable(
                list[k],
                refs.len(),
                syntax::cut(w, bx) * syntax::cut(h, by),
                q,
            )
            &&& before.len() == w * h
            &&& plane_of(list, split, refs, w, h, q) matches Ok(plane) && plane.len() == w * h
                && plane == writing::rendered(list, list.len() as int, refs, w, h, q) && plane[y * w + x]
                == syntax::block_sample(before, refs, w, h, bx, by, q, list[k], x % 8, y % 8)
        }),
{
    let k = number(w, x, y);
    let n = list.len() as int;
    lemma_place(w, h, x, y);
    lemma_plane(list, split, refs, w, h, q);
    lemma_rendered_len(list, refs, w, h, q, k);
    lemma_rendered_len(list, refs, w, h, q, n);
    lemma_kept(list, refs, w, h, q, k + 1, n, x, y);
    encoder::lemma_with_block_at(
        writing::rendered(list, k, refs, w, h, q),
        refs,
        w,
        h,
        k,
        q,
        list[k],
        x,
        y,
    );
}

/// An earlier sample is in the plane before a block as it is in the decoded plane.
proof fn lemma_earlier(
    list: Seq<syntax::Block>,
    split: bool,
    refs: Seq<Seq<u8>>,
    w: int,
    h: int,
    q: int,
    k: int,
    x: int,
    y: int,
)
    requires
        given(list, refs, w, h, q, x, y),
        number(w, x, y) < k <= list.len(),
    ensures
        plane_of(list, split, refs, w, h, q) matches Ok(plane) && plane[y * w + x]
            == writing::rendered(list, k, refs, w, h, q)[y * w + x],
{
    lemma_plane(list, split, refs, w, h, q);
    lemma_kept(list, refs, w, h, q, k, list.len() as int, x, y);
}

/// A block of a row of blocks above, or further to the left, comes earlier.
proof fn lemma_order(w: int, x: int, y: int)
    requires
        0 <= x < w,
        0 <= y,
    ensures
        y >= 8 ==> number(w, x, y - y % 8 - 1) < number(w, x, y),
        x >= 8 ==> number(w, x - x % 8 - 1, y) < number(w, x, y),
        forall|x1: int|
            #![trigger number(w, x1, y - y % 8 - 1)]
            y >= 8 && 0 <= x1 < w ==> number(w, x1, y - y % 8 - 1) < number(w, x - x % 8, y),
{
    let c = (w + 7) / 8;
    if y >= 8 {
        let above = (y - y % 8 - 1) / 8;
        assert(above == y / 8 - 1);
        assert(above * c + c == y / 8 * c) by (nonlinear_arith)
            requires
                above == y / 8 - 1,
        ;
    }
}

proof fn lemma_shows(
    sample: u8,
    base: u8,
    coeff: Seq<int>,
    q: int,
    x: int,
    y: int,
)
    requires
        coeff.len() == 64,
        0 <= x < 8,
        0 <= y < 8,
        sample == syntax::clip(base + scalar::inverse_wht(syntax::scaled(coeff, q))[8 * y + x]),
    ensures
        shows(sample, base as int, coeff, q, x, y),
{
    law_inverse_transform(syntax::scaled(coeff, q), x, y);
    lemma_scaled(coeff, q, x, y);
}

/// A block without coefficients adds nothing.
pub proof fn law_nothing_added(sample: u8, base: u8, coeff: Seq<int>, q: int, x: int, y: int)
    requires
        shows(sample, base as int, coeff, q, x, y),
        forall|i: int| 0 <= i < 64 ==> coeff[i] == 0,
    ensures
        sample == base,
{
    assert(q * spread(coeff, x, y) == 0) by {
        assert(spread(coeff, x, y) == 0) by {
            assert forall|v: int| 0 <= v < 8 implies #[trigger] row_sum(coeff, v, x) == 0 by {}
        }
        assert(q * 0 == 0) by (nonlinear_arith);
    }
    assert(nearest(0, q * spread(coeff, x, y)));
}

// ---------------------------------------------------------------------------------------------
// Prediction within the picture

/// A block coded in mode 2 continues the row above it: under each sample of that row all samples of
/// its column in the block show that sample, and the residual.
pub proof fn law_columns_continue(
    list: Seq<syntax::Block>,
    split: bool,
    refs: Seq<Seq<u8>>,
    w: int,
    h: int,
    q: int,
    x: int,
    y: int,
    coeff: Seq<int>,
)
    requires
        given(list, refs, w, h, q, x, y),
        list[number(w, x, y)] == (syntax::Block::Residual {
            mode: 2,
            reference: 0,
            dx: 0,
            dy: 0,
            coeff,
        }),
    ensures
        plane_of(list, split, refs, w, h, q) matches Ok(plane) && plane.len() == w * h && shows(
            plane[y * w + x],
            if y >= 8 {
                plane[(y - y % 8 - 1) * w + x] as int
            } else {
                128
            },
            coeff,
            q,
            x % 8,
            y % 8,
        ),
{
    let k = number(w, x, y);
    lemma_sample(list, split, refs, w, h, q, x, y);
    let before = writing::rendered(list, k, refs, w, h, q);
    if y >= 8 {
        lemma_order(w, x, y);
        lemma_earlier(list, split, refs, w, h, q, k, x, y - y % 8 - 1);
    }
    let base = if y >= 8 {
        before[(y - y % 8 - 1) * w + x]
    } else {
        128u8
    };
    lemma_shows(
        plane_of(list, split, refs, w, h, q)->Ok_0[y * w + x],
        base,
        coeff,
        q,
        x % 8,
        y % 8,
    );
}

/// A block coded in mode 1 continues the column left of it: right of each sample of that column all
/// samples of its row in the block show that sample, and the residual.
pub proof fn law_rows_continue(
    list: Seq<syntax::Block>,
    split: bool,
    refs: Seq<Seq<u8>>,
    w: int,
    h: int,
    q: int,
    x: int,
    y: int,
    coeff: Seq<int>,
)
    requires
        given(list, refs, w, h, q, x, y),
        list[number(w, x, y)] == (syntax::Block::Residual {
            mode: 1,
            reference: 0,
            dx: 0,
            dy: 0,
            coeff,
        }),
    ensures
        plane_of(list, split, refs, w, h, q) matches Ok(plane) && plane.len() == w * h && shows(
            plane[y * w + x],
            if x >= 8 {
                plane[y * w + (x - x % 8 - 1)] as int
            } else {
                128
            },
            coeff,
            q,
            x % 8,
            y % 8,
        ),
{
    let k = number(w, x, y);
    lemma_sample(list, split, refs, w, h, q, x, y);
    let before = writing::rendered(list, k, refs, w, h, q);
    if x >= 8 {
        lemma_order(w, x, y);
        lemma_earlier(list, split, refs, w, h, q, k, x - x % 8 - 1, y);
    }
    let base = if x >= 8 {
        before[y * w + (x - x % 8 - 1)]
    } else {
        128u8
    };
    lemma_shows(
        plane_of(list, split, refs, w, h, q)->Ok_0[y * w + x],
        base,
        coeff,
        q,
        x % 8,
        y % 8,
    );
}

/// A block coded in mode 2 without coefficients repeats the row above it in each of its rows.
pub proof fn law_columns_repeat(
    list: Seq<syntax::Block>,
    split: bool,
    refs: Seq<Seq<u8>>,
    w: int,
    h: int,
    q: int,
    x: int,
    y: int,
    coeff: Seq<int>,
)
    requires
        given(list, refs, w, h, q, x, y),
        list[number(w, x, y)] == (syntax::Block::Residual {
            mode: 2,
            reference: 0,
            dx: 0,
            dy: 0,
            coeff,
        }),
        forall|i: int| 0 <= i < 64 ==> coeff[i] == 0,
        y >= 8,
    ensures
        plane_of(list, split, refs, w, h, q) matches Ok(plane) && plane[y * w + x] == plane[(y - y % 8
            - 1) * w + x],
{
    law_columns_continue(list, split, refs, w, h, q, x, y, coeff);
    let plane = plane_of(list, split, refs, w, h, q)->Ok_0;
    law_nothing_added(plane[y * w + x], plane[(y - y % 8 - 1) * w + x], coeff, q, x % 8, y % 8);
}

/// A block coded in mode 1 without coefficients repeats the column left of it in each of its columns.
pub proof fn law_rows_repeat(
    list: Seq<syntax::Block>,
    split: bool,
    refs: Seq<Seq<u8>>,
    w: int,
    h: int,
    q: int,
    x: int,
    y: int,
    coeff: Seq<int>,
)
    requires
        given(list, refs, w, h, q, x, y),
        list[number(w, x, y)] == (syntax::Block::Residual {
            mode: 1,
            reference: 0,
            dx: 0,
            dy: 0,
            coeff,
        }),
        forall|i: int| 0 <= i < 64 ==> coeff[i] == 0,
        x >= 8,
    ensures
        plane_of(list, split, refs, w, h, q) matches Ok(plane) && plane[y * w + x] == plane[y * w + (x
            - x % 8 - 1)],
{
    law_rows_continue(list, split, refs, w, h, q, x, y, coeff);
    let plane = plane_of(list, split, refs, w, h, q)->Ok_0;
    law_nothing_added(plane[y * w + x], plane[y * w + (x - x % 8 - 1)], coeff, q, x % 8, y % 8);
}

/// The samples in a row, from (`x`, `y`) on.
pub open spec fn run(plane: Seq<u8>, w: int, x: int, y: int, n: int) -> Seq<u8> {
    Seq::new(n as nat, |i: int| plane[y * w + (x + i)])
}

/// The samples in a column, from (`x`, `y`) down.
pub open spec fn fall(plane: Seq<u8>, w: int, x: int, y: int, n: int) -> Seq<u8> {
    Seq::new(n as nat, |i: int| plane[(y + i) * w + x])
}

/// How many samples of a line of 8 are left of its end.
pub open spec fn visible(len: int, at: int) -> int {
    if at + 8 <= len {
        8
    } else {
        len - at
    }
}

/// The samples that touch a block: those above it, then those left of it.
pub open spec fn around(plane: Seq<u8>, w: int, h: int, bx: int, by: int) -> Seq<u8> {
    (if by > 0 {
        run(plane, w, bx, by - 1, visible(w, bx))
    } else {
        Seq::empty()
    }) + (if bx > 0 {
        fall(plane, w, bx - 1, by, visible(h, by))
    } else {
        Seq::empty()
    })
}

/// `v` is the mean of the samples, the larger of two integers that are as near; gray where there are
/// none.
pub open spec fn mean(v: int, s: Seq<u8>) -> bool {
    if s.len() == 0 {
        v == 128
    } else {
        2 * (s.len() * v) - s.len() <= 2 * total(s) < 2 * (s.len() * v) + s.len()
    }
}

proof fn lemma_total_add(a: Seq<u8>, b: Seq<u8>)
    ensures
        total(a + b) == total(a) + total(b),
    decreases b.len(),
{
    if b.len() > 0 {
        lemma_total_add(a, b.drop_last());
        assert((a + b).drop_last() =~= a + b.drop_last());
    } else {
        assert(a + b =~= a);
    }
}

proof fn lemma_above(plane: Seq<u8>, w: int, bx: int, by: int, n: int)
    requires
        0 <= n,
    ensures
        syntax::sum_above(plane, w, bx, by, n) == total(run(plane, w, bx, by - 1, n)),
    decreases n,
{
    if n > 0 {
        lemma_above(plane, w, bx, by, n - 1);
        assert(run(plane, w, bx, by - 1, n).drop_last() =~= run(plane, w, bx, by - 1, n - 1));
    }
}

proof fn lemma_left(plane: Seq<u8>, w: int, bx: int, by: int, n: int)
    requires
        0 <= n,
    ensures
        syntax::sum_left(plane, w, bx, by, n) == total(fall(plane, w, bx - 1, by, n)),
    decreases n,
{
    if n > 0 {
        lemma_left(plane, w, bx, by, n - 1);
        assert(fall(plane, w, bx - 1, by, n).drop_last() =~= fall(plane, w, bx - 1, by, n - 1));
    }
}

proof fn lemma_total_bound(s: Seq<u8>)
    ensures
        0 <= total(s) <= 255 * s.len(),
    decreases s.len(),
{
    if s.len() > 0 {
        lemma_total_bound(s.drop_last());
    }
}

proof fn lemma_mean(plane: Seq<u8>, w: int, h: int, bx: int, by: int, v: int)
    requires
        0 <= bx < w,
        0 <= by < h,
        mean(v, around(plane, w, h, bx, by)),
    ensures
        v == syntax::mean_around(plane, w, h, bx, by),
{
    let (bw, bh) = (visible(w, bx), visible(h, by));
    lemma_above(plane, w, bx, by, bw);
    lemma_left(plane, w, bx, by, bh);
    let top = if by > 0 {
        run(plane, w, bx, by - 1, bw)
    } else {
        Seq::empty()
    };
    let side = if bx > 0 {
        fall(plane, w, bx - 1, by, bh)
    } else {
        Seq::empty()
    };
    lemma_total_add(top, side);
    lemma_total_bound(top + side);
    let n = (top + side).len() as int;
    let t = total(top + side);
    if n > 0 {
        let q = n * v;
        assert(2 * q - n <= 2 * t < 2 * q + n);
        let r = t + n / 2 - q;
        assert(0 <= r < n);
        assert(t + n / 2 == v * n + r) by (nonlinear_arith)
            requires
                r == t + n / 2 - q,
                q == n * v,
        ;
        vstd::arithmetic::div_mod::lemma_fundamental_div_mod_converse(t + n / 2, n, v, r);
        assert(0 <= v <= 255) by (nonlinear_arith)
            requires
                n > 0,
                0 <= t <= 255 * n,
                2 * (n * v) - n <= 2 * t,
                2 * t < 2 * (n * v) + n,
        ;
    }
}

/// The row above a block is decoded before it.
proof fn lemma_run_kept(
    list: Seq<syntax::Block>,
    split: bool,
    refs: Seq<Seq<u8>>,
    w: int,
    h: int,
    q: int,
    x: int,
    y: int,
)
    requires
        given(list, refs, w, h, q, x, y),
        y >= 8,
        number(w, x, y) <= list.len(),
    ensures
        plane_of(list, split, refs, w, h, q) matches Ok(plane) && run(
            plane,
            w,
            x - x % 8,
            y - y % 8 - 1,
            visible(w, x - x % 8),
        ) == run(
            writing::rendered(list, number(w, x, y), refs, w, h, q),
            w,
            x - x % 8,
            y - y % 8 - 1,
            visible(w, x - x % 8),
        ),
{
    let k = number(w, x, y);
    let (bx, by) = (x - x % 8, y - y % 8);
    let n = visible(w, bx);
    lemma_plane(list, split, refs, w, h, q);
    let a = run(plane_of(list, split, refs, w, h, q)->Ok_0, w, bx, by - 1, n);
    let b = run(writing::rendered(list, k, refs, w, h, q), w, bx, by - 1, n);
    assert forall|i: int| 0 <= i < n implies a[i] == b[i] by {
        lemma_order(w, x, y);
        assert(number(w, bx + i, y - y % 8 - 1) < number(w, x - x % 8, y));
        lemma_earlier(list, split, refs, w, h, q, k, bx + i, by - 1);
    }
    assert(a =~= b);
}

/// The column left of a block is decoded before it.
proof fn lemma_fall_kept(
    list: Seq<syntax::Block>,
    split: bool,
    refs: Seq<Seq<u8>>,
    w: int,
    h: int,
    q: int,
    x: int,
    y: int,
)
    requires
        given(list, refs, w, h, q, x, y),
        x >= 8,
        number(w, x, y) <= list.len(),
    ensures
        plane_of(list, split, refs, w, h, q) matches Ok(plane) && fall(
            plane,
            w,
            x - x % 8 - 1,
            y - y % 8,
            visible(h, y - y % 8),
        ) == fall(
            writing::rendered(list, number(w, x, y), refs, w, h, q),
            w,
            x - x % 8 - 1,
            y - y % 8,
            visible(h, y - y % 8),
        ),
{
    let k = number(w, x, y);
    let (bx, by) = (x - x % 8, y - y % 8);
    let n = visible(h, by);
    lemma_plane(list, split, refs, w, h, q);
    let a = fall(plane_of(list, split, refs, w, h, q)->Ok_0, w, bx - 1, by, n);
    let b = fall(writing::rendered(list, k, refs, w, h, q), w, bx - 1, by, n);
    assert forall|i: int| 0 <= i < n implies a[i] == b[i] by {
        lemma_order(w, x, by + i);
        assert((by + i) / 8 == y / 8);
        lemma_earlier(list, split, refs, w, h, q, k, bx - 1, by + i);
    }
    assert(a =~= b);
}

proof fn lemma_around_kept(
    list: Seq<syntax::Block>,
    split: bool,
    refs: Seq<Seq<u8>>,
    w: int,
    h: int,
    q: int,
    x: int,
    y: int,
)
    requires
        given(list, refs, w, h, q, x, y),
        number(w, x, y) <= list.len(),
    ensures
        plane_of(list, split, refs, w, h, q) matches Ok(plane) && around(
            plane,
            w,
            h,
            x - x % 8,
            y - y % 8,
        ) == around(
            writing::rendered(list, number(w, x, y), refs, w, h, q),
            w,
            h,
            x - x % 8,
            y - y % 8,
        ),
{
    lemma_plane(list, split, refs, w, h, q);
    let plane = plane_of(list, split, refs, w, h, q)->Ok_0;
    let before = writing::rendered(list, number(w, x, y), refs, w, h, q);
    if y >= 8 {
        lemma_run_kept(list, split, refs, w, h, q, x, y);
    }
    if x >= 8 {
        lemma_fall_kept(list, split, refs, w, h, q, x, y);
    }
    lemma_around_same(plane, before, w, h, x - x % 8, y - y % 8);
}

/// Two planes that agree on what touches a block.
proof fn lemma_around_same(a: Seq<u8>, b: Seq<u8>, w: int, h: int, bx: int, by: int)
    requires
        by > 0 ==> run(a, w, bx, by - 1, visible(w, bx)) == run(b, w, bx, by - 1, visible(w, bx)),
        bx > 0 ==> fall(a, w, bx - 1, by, visible(h, by)) == fall(b, w, bx - 1, by, visible(h, by)),
    ensures
        around(a, w, h, bx, by) == around(b, w, h, bx, by),
{
}

/// A block coded in mode 0 is flat but for its residual: it shows the mean of the samples that touch
/// it from above and from the left.
pub proof fn law_mean_continues(
    list: Seq<syntax::Block>,
    split: bool,
    refs: Seq<Seq<u8>>,
    w: int,
    h: int,
    q: int,
    x: int,
    y: int,
    coeff: Seq<int>,
    base: int,
)
    requires
        given(list, refs, w, h, q, x, y),
        list[number(w, x, y)] == (syntax::Block::Residual {
            mode: 0,
            reference: 0,
            dx: 0,
            dy: 0,
            coeff,
        }),
        mean(
            base,
            around(plane_of(list, split, refs, w, h, q)->Ok_0, w, h, x - x % 8, y - y % 8),
        ),
    ensures
        plane_of(list, split, refs, w, h, q) matches Ok(plane) && plane.len() == w * h && shows(
            plane[y * w + x],
            base,
            coeff,
            q,
            x % 8,
            y % 8,
        ),
{
    let k = number(w, x, y);
    lemma_sample(list, split, refs, w, h, q, x, y);
    lemma_around_kept(list, split, refs, w, h, q, x, y);
    let before = writing::rendered(list, k, refs, w, h, q);
    lemma_mean(before, w, h, x - x % 8, y - y % 8, base);
    lemma_shows(
        plane_of(list, split, refs, w, h, q)->Ok_0[y * w + x],
        syntax::mean_around(before, w, h, x - x % 8, y - y % 8),
        coeff,
        q,
        x % 8,
        y % 8,
    );
}

// ---------------------------------------------------------------------------------------------
// Prediction from other pictures

/// The sample of a plane that is nearest to (`x`, `y`).
pub open spec fn near(plane: Seq<u8>, w: int, h: int, x: int, y: int) -> int {
    let i = if x < 0 {
        0
    } else if x >= w {
        w - 1
    } else {
        x
    };
    let j = if y < 0 {
        0
    } else if y >= h {
        h - 1
    } else {
        y
    };
    plane[j * w + i] as int
}

/// `v` is what a plane shows at a place counted in halves of samples: the sample there, or the mean
/// of the two or four samples around it, the larger of two integers that are as near.
pub open spec fn halfway(v: int, plane: Seq<u8>, w: int, h: int, x2: int, y2: int) -> bool {
    if x2 % 2 == 0 && y2 % 2 == 0 {
        v == near(plane, w, h, x2 / 2, y2 / 2)
    } else if y2 % 2 == 0 {
        let s = near(plane, w, h, (x2 - 1) / 2, y2 / 2) + near(plane, w, h, (x2 + 1) / 2, y2 / 2);
        s == 2 * v || s == 2 * v - 1
    } else if x2 % 2 == 0 {
        let s = near(plane, w, h, x2 / 2, (y2 - 1) / 2) + near(plane, w, h, x2 / 2, (y2 + 1) / 2);
        s == 2 * v || s == 2 * v - 1
    } else {
        let s = near(plane, w, h, (x2 - 1) / 2, (y2 - 1) / 2) + near(
            plane,
            w,
            h,
            (x2 + 1) / 2,
            (y2 - 1) / 2,
        ) + near(plane, w, h, (x2 - 1) / 2, (y2 + 1) / 2) + near(
            plane,
            w,
            h,
            (x2 + 1) / 2,
            (y2 + 1) / 2,
        );
        4 * v - 2 <= s <= 4 * v + 1
    }
}

proof fn lemma_halfway(v: int, plane: Seq<u8>, w: int, h: int, x2: int, y2: int)
    requires
        0 < w,
        0 < h,
        halfway(v, plane, w, h, x2, y2),
    ensures
        v == syntax::half_sample(plane, w, h, x2, y2),
{
}

/// A block coded in mode 3 shows what its reference shows as far away as the motion says, in halves
/// of samples, and the residual.
pub proof fn law_motion_continues(
    list: Seq<syntax::Block>,
    split: bool,
    refs: Seq<Seq<u8>>,
    w: int,
    h: int,
    q: int,
    x: int,
    y: int,
    reference: int,
    dx: int,
    dy: int,
    coeff: Seq<int>,
    base: int,
)
    requires
        given(list, refs, w, h, q, x, y),
        list[number(w, x, y)] == (syntax::Block::Residual { mode: 3, reference, dx, dy, coeff }),
        halfway(base, refs[reference], w, h, 2 * x + dx, 2 * y + dy),
    ensures
        plane_of(list, split, refs, w, h, q) matches Ok(plane) && plane.len() == w * h && shows(
            plane[y * w + x],
            base,
            coeff,
            q,
            x % 8,
            y % 8,
        ),
{
    lemma_sample(list, split, refs, w, h, q, x, y);
    let v = syntax::half_sample(refs[reference], w, h, 2 * x + dx, 2 * y + dy);
    lemma_halfway(base, refs[reference], w, h, 2 * x + dx, 2 * y + dy);
    assert(2 * (x - x % 8 + x % 8) + dx == 2 * x + dx);
    assert(2 * (y - y % 8 + y % 8) + dy == 2 * y + dy);
    lemma_shows(
        plane_of(list, split, refs, w, h, q)->Ok_0[y * w + x],
        v,
        coeff,
        q,
        x % 8,
        y % 8,
    );
}

/// A block coded with a palette shows for each of its samples, row by row and within the plane, the
/// color that the sample names.
pub proof fn law_palette_shows(
    list: Seq<syntax::Block>,
    split: bool,
    refs: Seq<Seq<u8>>,
    w: int,
    h: int,
    q: int,
    x: int,
    y: int,
    colors: Seq<u8>,
    index: Seq<u8>,
)
    requires
        given(list, refs, w, h, q, x, y),
        list[number(w, x, y)] == (syntax::Block::Palette { colors, index }),
    ensures
        plane_of(list, split, refs, w, h, q) matches Ok(plane) && plane.len() == w * h && plane[y * w
            + x] == colors[index[y % 8 * visible(w, x - x % 8) + x % 8] as int],
{
    lemma_sample(list, split, refs, w, h, q, x, y);
}

} // verus!
