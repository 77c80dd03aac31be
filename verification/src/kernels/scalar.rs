//! Portable sample kernels.
use vstd::prelude::*;

verus! {

// ---------------------------------------------------------------------------------------------
// Walsh-Hadamard transform

/// The values of a sequence of machine integers.
pub open spec fn ints(a: Seq<i32>) -> Seq<int> {
    Seq::new(a.len(), |i: int| a[i] as int)
}

/// Output `k` of the eight-point Walsh-Hadamard transform.
#[verifier::opaque]
pub open spec fn had(k: int, a: int, b: int, c: int, d: int, e: int, f: int, g: int, h: int) -> int {
    if k == 0 {
        a + b + c + d + e + f + g + h
    } else if k == 1 {
        a - b + c - d + e - f + g - h
    } else if k == 2 {
        a + b - c - d + e + f - g - h
    } else if k == 3 {
        a - b - c + d + e - f - g + h
    } else if k == 4 {
        a + b + c + d - e - f - g - h
    } else if k == 5 {
        a - b + c - d - e + f - g + h
    } else if k == 6 {
        a + b - c - d - e - f + g + h
    } else {
        a - b - c + d - e + f + g - h
    }
}

/// Output `k` of the transform of the eight values of `m` from `start` on, `step` apart.
#[verifier::opaque]
pub open spec fn had_line(k: int, m: Seq<int>, start: int, step: int) -> int {
    had(
        k,
        m[start],
        m[start + step],
        m[start + 2 * step],
        m[start + 3 * step],
        m[start + 4 * step],
        m[start + 5 * step],
        m[start + 6 * step],
        m[start + 7 * step],
    )
}

/// The transform of each row of an 8x8 block.
#[verifier::opaque]
pub open spec fn wht_rows(m: Seq<int>) -> Seq<int> {
    Seq::new(64, |i: int| had_line(i % 8, m, 8 * (i / 8), 1))
}

/// The transform of each column of an 8x8 block.
#[verifier::opaque]
pub open spec fn wht_cols(m: Seq<int>) -> Seq<int> {
    Seq::new(64, |i: int| had_line(i / 8, m, i % 8, 8))
}

/// The two-dimensional transform.
pub open spec fn wht(m: Seq<int>) -> Seq<int> {
    wht_cols(wht_rows(m))
}

/// `v / d` rounded to the nearest integer, halves away from zero.
pub open spec fn rounded_div(v: int, d: int) -> int {
    if v >= 0 {
        (v + d / 2) / d
    } else {
        -((-v + d / 2) / d)
    }
}

/// The inverse transform: the forward one, scaled back with rounding.
#[verifier::opaque]
pub open spec fn inverse_wht(m: Seq<int>) -> Seq<int> {
    Seq::new(64, |i: int| rounded_div(wht(m)[i], 64))
}

/// The magnitude of `v`.
#[verifier::opaque]
pub open spec fn abs(v: int) -> int {
    if v >= 0 {
        v
    } else {
        -v
    }
}

/// The sum of the magnitudes of eight values, `step` apart.
pub open spec fn abs_line(m: Seq<int>, start: int, step: int) -> int {
    abs(m[start]) + abs(m[start + step]) + abs(m[start + 2 * step]) + abs(m[start + 3 * step]) + abs(
        m[start + 4 * step],
    ) + abs(m[start + 5 * step]) + abs(m[start + 6 * step]) + abs(m[start + 7 * step])
}

/// A value of 32 bits.
pub open spec fn fits(v: int) -> bool {
    i32::MIN <= v <= i32::MAX
}

/// Each of the three stages of the eight-point transform gives values of 32 bits.
#[verifier::opaque]
pub open spec fn butterflies_fit(
    a: int,
    b: int,
    c: int,
    d: int,
    e: int,
    f: int,
    g: int,
    h: int,
) -> bool {
    &&& fits(a + b) && fits(a - b) && fits(c + d) && fits(c - d)
    &&& fits(e + f) && fits(e - f) && fits(g + h) && fits(g - h)
    &&& fits(a + b + c + d) && fits(a + b - c - d)
    &&& fits(a - b + c - d) && fits(a - b - c + d)
    &&& fits(e + f + g + h) && fits(e + f - g - h)
    &&& fits(e - f + g - h) && fits(e - f - g + h)
    &&& forall|k: int| 0 <= k < 8 ==> fits(#[trigger] had(k, a, b, c, d, e, f, g, h))
}

/// The transform of the eight values of `m` from `start` on, `step` apart, stays within 32 bits.
pub open spec fn line_fits(m: Seq<int>, start: int, step: int) -> bool {
    butterflies_fit(
        m[start],
        m[start + step],
        m[start + 2 * step],
        m[start + 3 * step],
        m[start + 4 * step],
        m[start + 5 * step],
        m[start + 6 * step],
        m[start + 7 * step],
    )
}

/// Every stage of the two-dimensional transform stays within 32 bits.
pub open spec fn stages_fit(m: Seq<int>) -> bool {
    &&& forall|y: int| 0 <= y < 8 ==> #[trigger] line_fits(m, 8 * y, 1)
    &&& forall|x: int| 0 <= x < 8 ==> #[trigger] line_fits(wht_rows(m), x, 8)
}

/// Every step of the inverse transform stays within 32 bits: its stages, and the rounding.
pub open spec fn inverse_fits(m: Seq<int>) -> bool {
    &&& stages_fit(m)
    &&& forall|i: int| 0 <= i < 64 ==> -(i32::MAX - 32) <= #[trigger] wht(m)[i] <= i32::MAX - 32
}

pub proof fn lemma_abs(v: int)
    ensures
        -abs(v) <= v <= abs(v),
        abs(v) == v || abs(v) == -v,
{
    reveal(abs);
}

pub proof fn lemma_abs_8(a: int, b: int, c: int, d: int, e: int, f: int, g: int, h: int)
    ensures
        -abs(a) <= a <= abs(a),
        -abs(b) <= b <= abs(b),
        -abs(c) <= c <= abs(c),
        -abs(d) <= d <= abs(d),
        -abs(e) <= e <= abs(e),
        -abs(f) <= f <= abs(f),
        -abs(g) <= g <= abs(g),
        -abs(h) <= h <= abs(h),
{
    lemma_abs(a);
    lemma_abs(b);
    lemma_abs(c);
    lemma_abs(d);
    lemma_abs(e);
    lemma_abs(f);
    lemma_abs(g);
    lemma_abs(h);
}

proof fn lemma_had_bound(k: int, a: int, b: int, c: int, d: int, e: int, f: int, g: int, h: int)
    ensures
        abs(had(k, a, b, c, d, e, f, g, h)) <= abs(a) + abs(b) + abs(c) + abs(d) + abs(e) + abs(f)
            + abs(g) + abs(h),
{
    reveal(had);
    lemma_abs_8(a, b, c, d, e, f, g, h);
    lemma_abs(had(k, a, b, c, d, e, f, g, h));
}

/// Transforming twice gives the input back, eight times as large.
proof fn lemma_had_twice(y: int, a: int, b: int, c: int, d: int, e: int, f: int, g: int, h: int)
    requires
        0 <= y < 8,
    ensures
        had(
            y,
            had(0, a, b, c, d, e, f, g, h),
            had(1, a, b, c, d, e, f, g, h),
            had(2, a, b, c, d, e, f, g, h),
            had(3, a, b, c, d, e, f, g, h),
            had(4, a, b, c, d, e, f, g, h),
            had(5, a, b, c, d, e, f, g, h),
            had(6, a, b, c, d, e, f, g, h),
            had(7, a, b, c, d, e, f, g, h),
        ) == 8 * (seq![a, b, c, d, e, f, g, h])[y],
{
    reveal(had);
}

proof fn lemma_had_scaled(k: int, a: int, b: int, c: int, d: int, e: int, f: int, g: int, h: int)
    ensures
        had(k, 8 * a, 8 * b, 8 * c, 8 * d, 8 * e, 8 * f, 8 * g, 8 * h) == 8 * had(
            k,
            a,
            b,
            c,
            d,
            e,
            f,
            g,
            h,
        ),
{
    reveal(had);
}

/// Rows first or columns first makes no difference.
#[verifier::rlimit(60)]
proof fn lemma_had_commutes(m: Seq<int>, y: int, x: int)
    requires
        0 <= y < 8,
        0 <= x < 8,
    ensures
        had(
            y,
            had_line(x, m, 0, 1),
            had_line(x, m, 8, 1),
            had_line(x, m, 16, 1),
            had_line(x, m, 24, 1),
            had_line(x, m, 32, 1),
            had_line(x, m, 40, 1),
            had_line(x, m, 48, 1),
            had_line(x, m, 56, 1),
        ) == had(
            x,
            had_line(y, m, 0, 8),
            had_line(y, m, 1, 8),
            had_line(y, m, 2, 8),
            had_line(y, m, 3, 8),
            had_line(y, m, 4, 8),
            had_line(y, m, 5, 8),
            had_line(y, m, 6, 8),
            had_line(y, m, 7, 8),
        ),
{
    reveal(had);
    reveal(had_line);
}

pub proof fn lemma_wht_shape(m: Seq<int>)
    ensures
        wht_rows(m).len() == 64,
        wht_cols(m).len() == 64,
        wht(m).len() == 64,
        inverse_wht(m).len() == 64,
{
    reveal(wht_rows);
    reveal(wht_cols);
    reveal(inverse_wht);
}

proof fn lemma_rows_at(m: Seq<int>, y: int, x: int)
    requires
        0 <= y < 8,
        0 <= x < 8,
    ensures
        wht_rows(m)[8 * y + x] == had_line(x, m, 8 * y, 1),
{
    reveal(wht_rows);
    assert((8 * y + x) % 8 == x && (8 * y + x) / 8 == y);
}

proof fn lemma_cols_at(m: Seq<int>, y: int, x: int)
    requires
        0 <= y < 8,
        0 <= x < 8,
    ensures
        wht_cols(m)[8 * y + x] == had_line(y, m, x, 8),
{
    reveal(wht_cols);
    assert((8 * y + x) % 8 == x && (8 * y + x) / 8 == y);
}

pub proof fn lemma_wht_at(m: Seq<int>, y: int, x: int)
    requires
        0 <= y < 8,
        0 <= x < 8,
    ensures
        wht(m)[8 * y + x] == had(
            y,
            had_line(x, m, 0, 1),
            had_line(x, m, 8, 1),
            had_line(x, m, 16, 1),
            had_line(x, m, 24, 1),
            had_line(x, m, 32, 1),
            had_line(x, m, 40, 1),
            had_line(x, m, 48, 1),
            had_line(x, m, 56, 1),
        ),
{
    lemma_cols_at(wht_rows(m), y, x);
    lemma_rows_at(m, 0, x);
    lemma_rows_at(m, 1, x);
    lemma_rows_at(m, 2, x);
    lemma_rows_at(m, 3, x);
    lemma_rows_at(m, 4, x);
    lemma_rows_at(m, 5, x);
    lemma_rows_at(m, 6, x);
    lemma_rows_at(m, 7, x);
    assert(had_line(y, wht_rows(m), x, 8) == had(
        y,
        wht_rows(m)[x],
        wht_rows(m)[8 + x],
        wht_rows(m)[16 + x],
        wht_rows(m)[24 + x],
        wht_rows(m)[32 + x],
        wht_rows(m)[40 + x],
        wht_rows(m)[48 + x],
        wht_rows(m)[56 + x],
    )) by {
        reveal(had_line);
    }
}

proof fn lemma_column_of_wht(m: Seq<int>, y: int, i: int)
    requires
        0 <= y < 8,
        0 <= i < 8,
    ensures
        had_line(y, wht(m), i, 8) == 8 * had_line(i, m, 8 * y, 1),
{
    let b = wht_rows(m);
    let w = wht(m);
    lemma_cols_at(b, 0, i);
    lemma_cols_at(b, 1, i);
    lemma_cols_at(b, 2, i);
    lemma_cols_at(b, 3, i);
    lemma_cols_at(b, 4, i);
    lemma_cols_at(b, 5, i);
    lemma_cols_at(b, 6, i);
    lemma_cols_at(b, 7, i);
    lemma_rows_at(m, y, i);
    lemma_had_twice(
        y,
        b[i],
        b[i + 8],
        b[i + 16],
        b[i + 24],
        b[i + 32],
        b[i + 40],
        b[i + 48],
        b[i + 56],
    );
    assert(had_line(y, w, i, 8) == 8 * b[8 * y + i]) by {
        reveal(had_line);
    }
}

proof fn lemma_wht_twice_at(m: Seq<int>, y: int, x: int)
    requires
        m.len() == 64,
        0 <= y < 8,
        0 <= x < 8,
    ensures
        wht(wht(m))[8 * y + x] == 64 * m[8 * y + x],
{
    let w = wht(m);
    let s = 8 * y;
    lemma_wht_at(w, y, x);
    lemma_had_commutes(w, y, x);
    lemma_column_of_wht(m, y, 0);
    lemma_column_of_wht(m, y, 1);
    lemma_column_of_wht(m, y, 2);
    lemma_column_of_wht(m, y, 3);
    lemma_column_of_wht(m, y, 4);
    lemma_column_of_wht(m, y, 5);
    lemma_column_of_wht(m, y, 6);
    lemma_column_of_wht(m, y, 7);
    lemma_had_scaled(
        x,
        had_line(0, m, s, 1),
        had_line(1, m, s, 1),
        had_line(2, m, s, 1),
        had_line(3, m, s, 1),
        had_line(4, m, s, 1),
        had_line(5, m, s, 1),
        had_line(6, m, s, 1),
        had_line(7, m, s, 1),
    );
    lemma_had_twice(x, m[s], m[s + 1], m[s + 2], m[s + 3], m[s + 4], m[s + 5], m[s + 6], m[s + 7]);
    assert(had(
        x,
        had_line(0, m, s, 1),
        had_line(1, m, s, 1),
        had_line(2, m, s, 1),
        had_line(3, m, s, 1),
        had_line(4, m, s, 1),
        had_line(5, m, s, 1),
        had_line(6, m, s, 1),
        had_line(7, m, s, 1),
    ) == 8 * m[s + x]) by {
        reveal(had_line);
    }
}

/// The transform is its own inverse up to a factor of 64.
pub proof fn law_wht_twice(m: Seq<int>, i: int)
    requires
        m.len() == 64,
        0 <= i < 64,
    ensures
        wht(wht(m))[i] == 64 * m[i],
{
    lemma_wht_twice_at(m, i / 8, i % 8);
}

/// Transforming a block and inverting the transform gives the block back exactly.
pub proof fn law_wht_reversible(m: Seq<int>)
    requires
        m.len() == 64,
    ensures
        inverse_wht(wht(m)) == m,
{
    let r = inverse_wht(wht(m));
    lemma_wht_shape(wht(m));
    assert forall|i: int| 0 <= i < 64 implies r[i] == m[i] by {
        law_wht_twice(m, i);
        reveal(inverse_wht);
    }
    assert(r =~= m);
}

proof fn lemma_line_bound(k: int, m: Seq<int>, start: int, step: int)
    ensures
        abs(had_line(k, m, start, step)) <= abs_line(m, start, step),
{
    reveal(had_line);
    lemma_had_bound(
        k,
        m[start],
        m[start + step],
        m[start + 2 * step],
        m[start + 3 * step],
        m[start + 4 * step],
        m[start + 5 * step],
        m[start + 6 * step],
        m[start + 7 * step],
    );
}

proof fn lemma_abs_le(v: int, each: int)
    requires
        -each <= v <= each,
    ensures
        0 <= abs(v) <= each,
{
    reveal(abs);
}

proof fn lemma_abs_line_bound(m: Seq<int>, start: int, step: int, each: int)
    requires
        forall|j: int| 0 <= j < 8 ==> -each <= #[trigger] m[start + j * step] <= each,
    ensures
        0 <= abs_line(m, start, step) <= 8 * each,
{
    lemma_abs_le(m[start + 0 * step], each);
    lemma_abs_le(m[start + 1 * step], each);
    lemma_abs_le(m[start + 2 * step], each);
    lemma_abs_le(m[start + 3 * step], each);
    lemma_abs_le(m[start + 4 * step], each);
    lemma_abs_le(m[start + 5 * step], each);
    lemma_abs_le(m[start + 6 * step], each);
    lemma_abs_le(m[start + 7 * step], each);
}

proof fn lemma_line_fits(m: Seq<int>, start: int, step: int, each: int)
    requires
        forall|j: int| 0 <= j < 8 ==> -each <= #[trigger] m[start + j * step] <= each,
        8 * each <= i32::MAX,
    ensures
        line_fits(m, start, step),
{
    reveal(butterflies_fit);
    reveal(had);
    assert(-each <= m[start + 0 * step] <= each);
    assert(-each <= m[start + 1 * step] <= each);
    assert(-each <= m[start + 2 * step] <= each);
    assert(-each <= m[start + 3 * step] <= each);
    assert(-each <= m[start + 4 * step] <= each);
    assert(-each <= m[start + 5 * step] <= each);
    assert(-each <= m[start + 6 * step] <= each);
    assert(-each <= m[start + 7 * step] <= each);
}

/// Bounds on a block carry over to its transform, and where they are small enough, every stage of
/// it stays within 32 bits.
pub proof fn lemma_wht_bound(m: Seq<int>, each: int)
    requires
        m.len() == 64,
        forall|i: int| 0 <= i < 64 ==> -each <= #[trigger] m[i] <= each,
    ensures
        forall|i: int| 0 <= i < 64 ==> -64 * each <= #[trigger] wht(m)[i] <= 64 * each,
        64 * each <= i32::MAX ==> stages_fit(m),
        64 * each <= i32::MAX - 32 ==> inverse_fits(m),
{
    let r = wht_rows(m);
    assert forall|i: int| 0 <= i < 64 implies -8 * each <= #[trigger] r[i] <= 8 * each by {
        lemma_rows_at(m, i / 8, i % 8);
        lemma_abs_line_bound(m, 8 * (i / 8), 1, each);
        lemma_line_bound(i % 8, m, 8 * (i / 8), 1);
        lemma_abs(r[i]);
    }
    assert forall|i: int| 0 <= i < 64 implies -64 * each <= #[trigger] wht(m)[i] <= 64 * each by {
        lemma_cols_at(r, i / 8, i % 8);
        lemma_abs_line_bound(r, i % 8, 8, 8 * each);
        lemma_line_bound(i / 8, r, i % 8, 8);
        lemma_abs(wht(m)[i]);
    }
    assert(-each <= m[0] <= each);
    if 64 * each <= i32::MAX {
        assert forall|y: int| 0 <= y < 8 implies #[trigger] line_fits(m, 8 * y, 1) by {
            lemma_line_fits(m, 8 * y, 1, each);
        }
        assert forall|x: int| 0 <= x < 8 implies #[trigger] line_fits(r, x, 8) by {
            lemma_line_fits(r, x, 8, 8 * each);
        }
    }
}

/// The eight-point transform.
fn hadamard8(v: [i32; 8]) -> (r: [i32; 8])
    requires
        butterflies_fit(
            v@[0] as int,
            v@[1] as int,
            v@[2] as int,
            v@[3] as int,
            v@[4] as int,
            v@[5] as int,
            v@[6] as int,
            v@[7] as int,
        ),
    ensures
        forall|k: int|
            0 <= k < 8 ==> #[trigger] r@[k] == had(
                k,
                v@[0] as int,
                v@[1] as int,
                v@[2] as int,
                v@[3] as int,
                v@[4] as int,
                v@[5] as int,
                v@[6] as int,
                v@[7] as int,
            ),
{
    proof {
        reveal(had);
        reveal(butterflies_fit);
        let (a, b, c, d) = (v@[0] as int, v@[1] as int, v@[2] as int, v@[3] as int);
        let (e, f, g, h) = (v@[4] as int, v@[5] as int, v@[6] as int, v@[7] as int);
        assert(fits(had(0, a, b, c, d, e, f, g, h)) && fits(had(1, a, b, c, d, e, f, g, h)));
        assert(fits(had(2, a, b, c, d, e, f, g, h)) && fits(had(3, a, b, c, d, e, f, g, h)));
        assert(fits(had(4, a, b, c, d, e, f, g, h)) && fits(had(5, a, b, c, d, e, f, g, h)));
        assert(fits(had(6, a, b, c, d, e, f, g, h)) && fits(had(7, a, b, c, d, e, f, g, h)));
    }
    let (a0, a1): (i32, i32) = (v[0] + v[1], v[0] - v[1]);
    let (a2, a3): (i32, i32) = (v[2] + v[3], v[2] - v[3]);
    let (a4, a5): (i32, i32) = (v[4] + v[5], v[4] - v[5]);
    let (a6, a7): (i32, i32) = (v[6] + v[7], v[6] - v[7]);
    let (b0, b2): (i32, i32) = (a0 + a2, a0 - a2);
    let (b1, b3): (i32, i32) = (a1 + a3, a1 - a3);
    let (b4, b6): (i32, i32) = (a4 + a6, a4 - a6);
    let (b5, b7): (i32, i32) = (a5 + a7, a5 - a7);
    let r: [i32; 8] = [
        b0 + b4,
        b1 + b5,
        b2 + b6,
        b3 + b7,
        b0 - b4,
        b1 - b5,
        b2 - b6,
        b3 - b7,
    ];
    r
}

/// Transforms each row.
fn transform_rows(a: [i32; 64]) -> (r: [i32; 64])
    requires
        stages_fit(ints(a@)),
    ensures
        ints(r@) == wht_rows(ints(a@)),
{
    let ghost m = ints(a@);
    let mut r: [i32; 64] = [0; 64];
    let mut y: usize = 0;
    while y < 8
        invariant
            y <= 8,
            m == ints(a@),
            stages_fit(m),
            forall|i: int| 0 <= i < 8 * y ==> #[trigger] r@[i] == wht_rows(m)[i],
        decreases 8 - y,
    {
        let s: usize = 8 * y;
        assert(line_fits(m, 8 * y as int, 1));
        let row: [i32; 8] = hadamard8(
            [a[s], a[s + 1], a[s + 2], a[s + 3], a[s + 4], a[s + 5], a[s + 6], a[s + 7]],
        );
        assert forall|k: int| 0 <= k < 8 implies #[trigger] row@[k] == had_line(k, m, s as int, 1) by {
            reveal(had_line);
        }
        let mut x: usize = 0;
        while x < 8
            invariant
                x <= 8,
                y < 8,
                s == 8 * y,
                forall|k: int| 0 <= k < 8 ==> #[trigger] row@[k] == had_line(k, m, s as int, 1),
                forall|i: int| 0 <= i < s + x ==> #[trigger] r@[i] == wht_rows(m)[i],
            decreases 8 - x,
        {
            proof {
                lemma_rows_at(m, y as int, x as int);
            }
            r[s + x] = row[x];
            x = x + 1;
        }
        y = y + 1;
    }
    proof {
        lemma_wht_shape(m);
    }
    assert(ints(r@) =~= wht_rows(m));
    r
}

/// The two-dimensional transform of an 8x8 block.
pub fn wht2(a: [i32; 64]) -> (r: [i32; 64])
    requires
        stages_fit(ints(a@)),
    ensures
        ints(r@) == wht(ints(a@)),
{
    let ghost m = ints(a@);
    let b: [i32; 64] = transform_rows(a);
    let ghost rows = wht_rows(m);
    let mut r: [i32; 64] = [0; 64];
    let mut x: usize = 0;
    while x < 8
        invariant
            x <= 8,
            m.len() == 64,
            stages_fit(m),
            rows == wht_rows(m),
            ints(b@) == rows,
            forall|i: int| 0 <= i < 64 && i % 8 < x ==> #[trigger] r@[i] == wht(m)[i],
        decreases 8 - x,
    {
        assert(line_fits(rows, x as int, 8));
        let col: [i32; 8] = hadamard8(
            [b[x], b[x + 8], b[x + 16], b[x + 24], b[x + 32], b[x + 40], b[x + 48], b[x + 56]],
        );
        assert forall|k: int| 0 <= k < 8 implies #[trigger] col@[k] == had_line(k, rows, x as int, 8) by {
            reveal(had_line);
        }
        let mut y: usize = 0;
        while y < 8
            invariant
                x < 8,
                y <= 8,
                m.len() == 64,
                rows == wht_rows(m),
                forall|k: int| 0 <= k < 8 ==> #[trigger] col@[k] == had_line(k, rows, x as int, 8),
                forall|i: int|
                    0 <= i < 64 && (i % 8 < x || i % 8 == x && i / 8 < y) ==> #[trigger] r@[i]
                        == wht(m)[i],
            decreases 8 - y,
        {
            proof {
                lemma_cols_at(rows, y as int, x as int);
            }
            r[8 * y + x] = col[y];
            y = y + 1;
        }
        x = x + 1;
    }
    proof {
        lemma_wht_shape(m);
    }
    assert(ints(r@) =~= wht(m));
    r
}

/// `v / 64` rounded to the nearest integer, halves away from zero.
fn div_round_64(v: i32) -> (r: i32)
    requires
        -(i32::MAX - 32) <= v <= i32::MAX - 32,
    ensures
        r == rounded_div(v as int, 64),
{
    if v >= 0 {
        (v + 32) / 64
    } else {
        -((-v + 32) / 64)
    }
}

/// Inverse 8x8 Walsh-Hadamard transform: transform, then divide by 64 with rounding.
pub fn inverse_wht8x8(a: [i32; 64]) -> (r: [i32; 64])
    requires
        inverse_fits(ints(a@)),
    ensures
        ints(r@) == inverse_wht(ints(a@)),
{
    let ghost m = ints(a@);
    let t: [i32; 64] = wht2(a);
    let mut r: [i32; 64] = [0; 64];
    let mut i: usize = 0;
    while i < 64
        invariant
            i <= 64,
            ints(t@) == wht(m),
            inverse_fits(m),
            forall|k: int| 0 <= k < i ==> #[trigger] r@[k] == inverse_wht(m)[k],
        decreases 64 - i,
    {
        proof {
            assert(ints(t@)[i as int] == t@[i as int]);
            reveal(inverse_wht);
        }
        r[i] = div_round_64(t[i]);
        i = i + 1;
    }
    proof {
        lemma_wht_shape(m);
    }
    assert(ints(r@) =~= inverse_wht(m));
    r
}

// ---------------------------------------------------------------------------------------------
// CRC-32C

/// One bit step of the reflected Castagnoli polynomial.
pub open spec fn crc_bit(c: u32) -> u32 {
    if c & 1 == 1 {
        (c >> 1) ^ 0x82f6_3b78
    } else {
        c >> 1
    }
}

/// The register after one byte.
pub open spec fn crc_byte(c: u32, b: u8) -> u32 {
    crc_bit(
        crc_bit(crc_bit(crc_bit(crc_bit(crc_bit(crc_bit(crc_bit(c ^ (b as u32)))))))),
    )
}

/// The register after the bytes of `data`, from `c` on.
pub open spec fn crc_run(c: u32, data: Seq<u8>) -> u32
    decreases data.len(),
{
    if data.len() == 0 {
        c
    } else {
        crc_byte(crc_run(c, data.drop_last()), data.last())
    }
}

/// The CRC-32C of `data`.
pub open spec fn crc_of(data: Seq<u8>) -> u32 {
    !crc_run(0xffff_ffff, data)
}

fn crc_step(c: u32) -> (r: u32)
    ensures
        r == crc_bit(c),
{
    if c & 1 == 1 {
        (c >> 1) ^ 0x82f6_3b78
    } else {
        c >> 1
    }
}

/// Portable CRC-32C (Castagnoli).
pub fn crc32c(data: &[u8]) -> (r: u32)
    ensures
        r == crc_of(data@),
{
    let mut crc: u32 = 0xffff_ffff;
    let mut i: usize = 0;
    assert(data@.take(0) =~= Seq::empty());
    while i < data.len()
        invariant
            i <= data@.len(),
            crc == crc_run(0xffff_ffff, data@.take(i as int)),
        decreases data@.len() - i,
    {
        proof {
            assert(data@.take(i + 1).drop_last() =~= data@.take(i as int));
        }
        crc = crc ^ (data[i] as u32);
        crc = crc_step(crc);
        crc = crc_step(crc);
        crc = crc_step(crc);
        crc = crc_step(crc);
        crc = crc_step(crc);
        crc = crc_step(crc);
        crc = crc_step(crc);
        crc = crc_step(crc);
        i = i + 1;
    }
    assert(data@.take(i as int) =~= data@);
    !crc
}

proof fn lemma_crc_bit_injective(a: u32, b: u32)
    requires
        crc_bit(a) == crc_bit(b),
    ensures
        a == b,
{
    assert((if a & 1 == 1 {
        (a >> 1) ^ 0x82f6_3b78u32
    } else {
        a >> 1
    }) == (if b & 1 == 1 {
        (b >> 1) ^ 0x82f6_3b78u32
    } else {
        b >> 1
    }) ==> a == b) by (bit_vector);
}

proof fn lemma_crc_byte_injective(c1: u32, b1: u8, c2: u32, b2: u8)
    requires
        crc_byte(c1, b1) == crc_byte(c2, b2),
    ensures
        c1 ^ (b1 as u32) == c2 ^ (b2 as u32),
{
    let x0 = c1 ^ (b1 as u32);
    let y0 = c2 ^ (b2 as u32);
    let (x1, y1) = (crc_bit(x0), crc_bit(y0));
    let (x2, y2) = (crc_bit(x1), crc_bit(y1));
    let (x3, y3) = (crc_bit(x2), crc_bit(y2));
    let (x4, y4) = (crc_bit(x3), crc_bit(y3));
    let (x5, y5) = (crc_bit(x4), crc_bit(y4));
    let (x6, y6) = (crc_bit(x5), crc_bit(y5));
    let (x7, y7) = (crc_bit(x6), crc_bit(y6));
    lemma_crc_bit_injective(x7, y7);
    lemma_crc_bit_injective(x6, y6);
    lemma_crc_bit_injective(x5, y5);
    lemma_crc_bit_injective(x4, y4);
    lemma_crc_bit_injective(x3, y3);
    lemma_crc_bit_injective(x2, y2);
    lemma_crc_bit_injective(x1, y1);
    lemma_crc_bit_injective(x0, y0);
}

/// A CRC notices every change that is confined to one byte.
pub proof fn law_crc_detects_byte_change(data: Seq<u8>, at: int, b: u8)
    requires
        0 <= at < data.len(),
        data[at] != b,
    ensures
        crc_of(data.update(at, b)) != crc_of(data),
{
    lemma_crc_run_differs(data, at, b);
    let x = crc_run(0xffff_ffff, data);
    let y = crc_run(0xffff_ffff, data.update(at, b));
    assert(x != y ==> !x != !y) by (bit_vector);
}

proof fn lemma_crc_run_differs(data: Seq<u8>, at: int, b: u8)
    requires
        0 <= at < data.len(),
        data[at] != b,
    ensures
        crc_run(0xffff_ffff, data.update(at, b)) != crc_run(0xffff_ffff, data),
    decreases data.len(),
{
    let other = data.update(at, b);
    let c1 = crc_run(0xffff_ffff, data.drop_last());
    let c2 = crc_run(0xffff_ffff, other.drop_last());
    let (b1, b2) = (data.last(), other.last());
    if crc_run(0xffff_ffff, other) == crc_run(0xffff_ffff, data) {
        lemma_crc_byte_injective(c1, b1, c2, b2);
        if at == data.len() - 1 {
            assert(data.drop_last() =~= other.drop_last());
            assert(c1 ^ (b1 as u32) == c1 ^ (b2 as u32) ==> b1 == b2) by (bit_vector);
        } else {
            assert(data.drop_last().update(at, b) =~= other.drop_last());
            lemma_crc_run_differs(data.drop_last(), at, b);
            assert(c1 ^ (b1 as u32) == c2 ^ (b1 as u32) ==> c1 == c2) by (bit_vector);
        }
    }
}

// ---------------------------------------------------------------------------------------------
// Sums of absolute differences

/// The distance between two samples.
pub open spec fn diff(a: u8, b: u8) -> nat {
    if a >= b {
        (a - b) as nat
    } else {
        (b - a) as nat
    }
}

/// The sum of the distances of the first `n` pairs, from `i` in `a` and `j` in `b` on.
pub open spec fn sad_from(a: Seq<u8>, i: int, b: Seq<u8>, j: int, n: int) -> nat
    decreases n,
{
    if n <= 0 {
        0
    } else {
        sad_from(a, i, b, j, n - 1) + diff(a[i + n - 1], b[j + n - 1])
    }
}

/// The sum over the first `rows` rows of two strided blocks.
pub open spec fn sad_rows(a: Seq<u8>, a_stride: int, b: Seq<u8>, b_stride: int, width: int, rows: int) -> nat
    decreases rows,
{
    if rows <= 0 {
        0
    } else {
        sad_rows(a, a_stride, b, b_stride, width, rows - 1) + sad_from(
            a,
            (rows - 1) * a_stride,
            b,
            (rows - 1) * b_stride,
            width,
        )
    }
}

/// A strided block of this size lies within `len` samples.
pub open spec fn footprint_ok(len: int, stride: int, width: int, height: int) -> bool {
    height == 0 || (stride >= width && (height - 1) * stride + width <= len)
}

pub proof fn lemma_sad_bound(a: Seq<u8>, i: int, b: Seq<u8>, j: int, n: int)
    requires
        n >= 0,
    ensures
        sad_from(a, i, b, j, n) <= 255 * n,
    decreases n,
{
    if n > 0 {
        lemma_sad_bound(a, i, b, j, n - 1);
    }
}

proof fn lemma_sad_shift(a: Seq<u8>, i: int, b: Seq<u8>, j: int, a2: Seq<u8>, b2: Seq<u8>, n: int)
    requires
        forall|k: int| 0 <= k < n ==> a2[k] == #[trigger] a[i + k],
        forall|k: int| 0 <= k < n ==> b2[k] == #[trigger] b[j + k],
    ensures
        sad_from(a2, 0, b2, 0, n) == sad_from(a, i, b, j, n),
    decreases n,
{
    if n > 0 {
        lemma_sad_shift(a, i, b, j, a2, b2, n - 1);
        assert(a2[n - 1] == a[i + (n - 1)]);
        assert(b2[n - 1] == b[j + (n - 1)]);
    }
}

/// Sum of absolute byte differences over the common prefix of both slices.
///
/// If the inputs differ in length, samples beyond the shorter slice are ignored.
pub fn sad(a: &[u8], b: &[u8]) -> (r: u64)
    requires
        255 * vstd::math::min(a@.len() as int, b@.len() as int) <= u64::MAX,
    ensures
        r == sad_from(a@, 0, b@, 0, vstd::math::min(a@.len() as int, b@.len() as int)),
{
    let n: usize = if a.len() < b.len() {
        a.len()
    } else {
        b.len()
    };
    let mut sum: u64 = 0;
    let mut i: usize = 0;
    while i < n
        invariant
            i <= n <= a@.len(),
            n <= b@.len(),
            255 * n <= u64::MAX,
            sum == sad_from(a@, 0, b@, 0, i as int),
            sum <= 255 * i,
        decreases n - i,
    {
        let (x, y): (u8, u8) = (a[i], b[i]);
        let d: u8 = if x >= y {
            x - y
        } else {
            y - x
        };
        sum = sum + d as u64;
        i = i + 1;
    }
    sum
}

fn footprint_valid(len: usize, stride: usize, width: usize, height: usize) -> (r: bool)
    ensures
        r == footprint_ok(len as int, stride as int, width as int, height as int),
{
    if height == 0 {
        return true;
    }
    if stride < width {
        return false;
    }
    match (height - 1).checked_mul(stride) {
        None => false,
        Some(last_row) => match last_row.checked_add(width) {
            None => false,
            Some(need) => need <= len,
        },
    }
}

/// SAD over a small strided rectangular block. A block that does not lie within its slice counts
/// as zero.
pub fn sad_block(
    a: &[u8],
    a_stride: usize,
    b: &[u8],
    b_stride: usize,
    width: usize,
    height: usize,
) -> (r: u64)
    requires
        255 * a@.len() <= u64::MAX,
    ensures
        r == if footprint_ok(a@.len() as int, a_stride as int, width as int, height as int)
            && footprint_ok(b@.len() as int, b_stride as int, width as int, height as int) {
            sad_rows(
                a@,
                a_stride as int,
                b@,
                b_stride as int,
                width as int,
                height as int,
            )
        } else {
            0
        },
{
    if !footprint_valid(a.len(), a_stride, width, height) || !footprint_valid(
        b.len(),
        b_stride,
        width,
        height,
    ) {
        return 0;
    }
    let mut sum: u64 = 0;
    let mut y: usize = 0;
    let mut a_start: usize = 0;
    let mut b_start: usize = 0;
    while y < height
        invariant
            y <= height,
            255 * a@.len() <= u64::MAX,
            height > 0 ==> width <= a_stride && width <= b_stride,
            height > 0 ==> (height - 1) * a_stride + width <= a@.len(),
            height > 0 ==> (height - 1) * b_stride + width <= b@.len(),
            y < height ==> a_start == y * a_stride,
            y < height ==> b_start == y * b_stride,
            sum == sad_rows(a@, a_stride as int, b@, b_stride as int, width as int, y as int),
            sum <= 255 * (y * width),
        decreases height - y,
    {
        proof {
            assert(a.len() == a@.len() && b.len() == b@.len());
            assert(y * a_stride <= (height - 1) * a_stride) by (nonlinear_arith)
                requires
                    y <= height - 1,
                    a_stride >= 0,
            ;
            assert(y * b_stride <= (height - 1) * b_stride) by (nonlinear_arith)
                requires
                    y <= height - 1,
                    b_stride >= 0,
            ;
            assert((y + 1) * width <= y * a_stride + width) by (nonlinear_arith)
                requires
                    width <= a_stride,
            ;
            assert(255 * ((y + 1) * width) == 255 * (y * width) + 255 * width) by (nonlinear_arith);
        }
        let (ra, rb): (&[u8], &[u8]) = (
            &a[a_start..a_start + width],
            &b[b_start..b_start + width],
        );
        proof {
            lemma_sad_shift(a@, a_start as int, b@, b_start as int, ra@, rb@, width as int);
            lemma_sad_bound(a@, a_start as int, b@, b_start as int, width as int);
        }
        sum = sum + sad(ra, rb);
        y = y + 1;
        if y < height {
            proof {
                assert(y * a_stride <= (height - 1) * a_stride) by (nonlinear_arith)
                    requires
                        y <= height - 1,
                        a_stride >= 0,
                ;
                assert(y * b_stride <= (height - 1) * b_stride) by (nonlinear_arith)
                    requires
                        y <= height - 1,
                        b_stride >= 0,
                ;
                assert(y * a_stride == (y - 1) * a_stride + a_stride) by (nonlinear_arith);
                assert(y * b_stride == (y - 1) * b_stride + b_stride) by (nonlinear_arith);
            }
            a_start = a_start + a_stride;
            b_start = b_start + b_stride;
        }
    }
    sum
}

// ---------------------------------------------------------------------------------------------
// Half-sample prediction

/// A full 8x8 prediction with these phases reads only samples within `len`.
pub open spec fn halfpel_ok(len: int, stride: int, fx: int, fy: int) -> bool {
    0 <= fx <= 1 && 0 <= fy <= 1 && stride >= 8 + fx && (7 + fy) * stride + 8 + fx <= len
}

/// One predicted sample: the mean of the one, two or four samples that the phases pick, rounded
/// up at halves.
pub open spec fn halfpel_sample(src: Seq<u8>, stride: int, fx: int, fy: int, x: int, y: int) -> int {
    let a = src[y * stride + x] as int;
    let b = src[y * stride + x + fx] as int;
    let c = src[(y + fy) * stride + x] as int;
    let d = src[(y + fy) * stride + x + fx] as int;
    if fx == 0 && fy == 0 {
        a
    } else if fy == 0 {
        (a + b + 1) / 2
    } else if fx == 0 {
        (a + c + 1) / 2
    } else {
        (a + b + c + d + 2) / 4
    }
}

/// The predicted block.
pub open spec fn halfpel_block(src: Seq<u8>, stride: int, fx: int, fy: int) -> Seq<u8> {
    Seq::new(64, |i: int| halfpel_sample(src, stride, fx, fy, i % 8, i / 8) as u8)
}

/// Validates the exact footprint required by one full 8x8 half-sample prediction.
fn halfpel_footprint_valid(src_len: usize, stride: usize, fx: u8, fy: u8) -> (r: bool)
    ensures
        r == halfpel_ok(src_len as int, stride as int, fx as int, fy as int),
{
    if fx > 1 || fy > 1 || stride < 8 + fx as usize {
        return false;
    }
    match (7 + fy as usize).checked_mul(stride) {
        None => false,
        Some(rows) => match rows.checked_add(8 + fx as usize) {
            None => false,
            Some(need) => need <= src_len,
        },
    }
}

/// Predicts one full 8x8 half-sample block from an interior reference footprint.
/// `fx` and `fy` are fractional phases, 0 or 1.
pub fn halfpel_predict_8x8(src: &[u8], stride: usize, fx: u8, fy: u8) -> (r: Option<[u8; 64]>)
    ensures
        match r {
            Some(block) => halfpel_ok(src@.len() as int, stride as int, fx as int, fy as int)
                && block@ == halfpel_block(src@, stride as int, fx as int, fy as int),
            None => !halfpel_ok(src@.len() as int, stride as int, fx as int, fy as int),
        },
{
    if !halfpel_footprint_valid(src.len(), stride, fx, fy) {
        return None;
    }
    let (px, py): (usize, usize) = (fx as usize, fy as usize);
    let mut out: [u8; 64] = [0; 64];
    let ghost goal = halfpel_block(src@, stride as int, fx as int, fy as int);
    let mut y: usize = 0;
    while y < 8
        invariant
            y <= 8,
            px == fx && py == fy,
            halfpel_ok(src@.len() as int, stride as int, fx as int, fy as int),
            goal == halfpel_block(src@, stride as int, fx as int, fy as int),
            forall|i: int| 0 <= i < 8 * y ==> #[trigger] out@[i] == goal[i],
        decreases 8 - y,
    {
        proof {
            assert(src.len() == src@.len());
            assert((y + fy) * stride <= (7 + fy) * stride) by (nonlinear_arith)
                requires
                    y <= 7,
                    stride >= 0,
                    fy >= 0,
            ;
            assert(y * stride <= (y + fy) * stride) by (nonlinear_arith)
                requires
                    stride >= 0,
                    fy >= 0,
            ;
        }
        let top: usize = y * stride;
        let below: usize = (y + py) * stride;
        let mut x: usize = 0;
        while x < 8
            invariant
                x <= 8,
                y < 8,
                px == fx <= 1 && py == fy <= 1,
                top == y * stride,
                below == (y + fy) * stride,
                top + 8 + fx <= src@.len(),
                below + 8 + fx <= src@.len(),
                goal == halfpel_block(src@, stride as int, fx as int, fy as int),
                forall|i: int| 0 <= i < 8 * y + x ==> #[trigger] out@[i] == goal[i],
            decreases 8 - x,
        {
            assert(src.len() == src@.len());
            let a: u16 = src[top + x] as u16;
            let b: u16 = src[top + x + px] as u16;
            let c: u16 = src[below + x] as u16;
            let d: u16 = src[below + x + px] as u16;
            let v: u16 = if px == 0 && py == 0 {
                a
            } else if py == 0 {
                (a + b + 1) / 2
            } else if px == 0 {
                (a + c + 1) / 2
            } else {
                (a + b + c + d + 2) / 4
            };
            proof {
                assert((8 * y + x) as int % 8 == x && (8 * y + x) as int / 8 == y);
            }
            out[8 * y + x] = v as u8;
            x = x + 1;
        }
        y = y + 1;
    }
    assert(out@ =~= goal);
    Some(out)
}

/// SAD between a strided 8x8 source block and one predicted half-sample reference block.
pub fn halfpel_sad_8x8(
    a: &[u8],
    a_stride: usize,
    reference: &[u8],
    ref_stride: usize,
    fx: u8,
    fy: u8,
) -> (r: Option<u64>)
    ensures
        match r {
            Some(sum) => {
                &&& a_stride >= 8 && 7 * a_stride + 8 <= a@.len()
                &&& halfpel_ok(reference@.len() as int, ref_stride as int, fx as int, fy as int)
                &&& sum == sad_rows(
                    a@,
                    a_stride as int,
                    halfpel_block(reference@, ref_stride as int, fx as int, fy as int),
                    8,
                    8,
                    8,
                )
            },
            None => !(a_stride >= 8 && 7 * a_stride + 8 <= a@.len() && halfpel_ok(
                reference@.len() as int,
                ref_stride as int,
                fx as int,
                fy as int,
            )),
        },
{
    assert(a.len() == a@.len());
    match 7usize.checked_mul(a_stride) {
        None => {
            return None;
        },
        Some(rows) => match rows.checked_add(8) {
            None => {
                return None;
            },
            Some(a_need) => {
                if a_stride < 8 || a_need > a.len() {
                    return None;
                }
            },
        },
    }
    match halfpel_predict_8x8(reference, ref_stride, fx, fy) {
        None => None,
        Some(p) => {
            let pred: &[u8] = p.as_slice();
            let mut sum: u64 = 0;
            let mut y: usize = 0;
            while y < 8
                invariant
                    y <= 8,
                    pred@.len() == 64,
                    a_stride >= 8 && 7 * a_stride + 8 <= a@.len(),
                    sum == sad_rows(a@, a_stride as int, pred@, 8, 8, y as int),
                    sum <= 2040 * y,
                decreases 8 - y,
            {
                proof {
                    assert(y * a_stride <= 7 * a_stride) by (nonlinear_arith)
                        requires
                            y <= 7,
                            a_stride >= 0,
                    ;
                    assert(a.len() == a@.len());
                }
                let start: usize = y * a_stride;
                let (ra, rp): (&[u8], &[u8]) = (
                    &a[start..start + 8],
                    &pred[8 * y..8 * y + 8],
                );
                proof {
                    lemma_sad_shift(a@, start as int, pred@, 8 * y, ra@, rp@, 8);
                    lemma_sad_bound(a@, start as int, pred@, 8 * y, 8);
                }
                sum = sum + sad(ra, rp);
                y = y + 1;
            }
            Some(sum)
        },
    }
}

} // verus!
