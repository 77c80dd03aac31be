//! What differences and energies are.
use crate::kernels::scalar;
use crate::quality;
use crate::video::v1::syntax::Picture;
use vstd::prelude::*;

verus! {

/// How far apart two samples are.
pub open spec fn gap(a: u8, b: u8) -> int {
    if a > b {
        a - b
    } else {
        b - a
    }
}

// ---------------------------------------------------------------------------------------------
// Sums of differences

/// Where each pair of samples is between `low` and `high` apart, the sum is between as much for each
/// pair.
pub proof fn law_differences(a: Seq<u8>, i: int, b: Seq<u8>, j: int, n: int, low: int, high: int)
    requires
        n >= 0,
        forall|k: int| 0 <= k < n ==> low <= gap(#[trigger] a[i + k], b[j + k]) <= high,
    ensures
        n * low <= scalar::sad_from(a, i, b, j, n) <= n * high,
    decreases n,
{
    if n > 0 {
        law_differences(a, i, b, j, n - 1, low, high);
        assert(low <= gap(a[i + (n - 1)], b[j + (n - 1)]) <= high);
        assert(n * low == (n - 1) * low + low) by (nonlinear_arith);
        assert(n * high == (n - 1) * high + high) by (nonlinear_arith);
    } else {
        assert(0 * low == 0 && 0 * high == 0);
    }
}

/// The sum over two runs one behind the other is the sum of both.
pub proof fn law_differences_add(a: Seq<u8>, i: int, b: Seq<u8>, j: int, n: int, m: int)
    requires
        n >= 0,
        m >= 0,
    ensures
        scalar::sad_from(a, i, b, j, n + m) == scalar::sad_from(a, i, b, j, n) + scalar::sad_from(
            a,
            i + n,
            b,
            j + n,
            m,
        ),
    decreases m,
{
    if m > 0 {
        law_differences_add(a, i, b, j, n, m - 1);
        assert(i + (n + m) - 1 == i + n + m - 1);
    }
}

/// The sum over a block goes over all its rows, each a stride behind the one above.
pub proof fn law_block_differences(
    a: Seq<u8>,
    a_stride: int,
    b: Seq<u8>,
    b_stride: int,
    width: int,
    rows: int,
    low: int,
    high: int,
)
    requires
        width >= 0,
        rows >= 0,
        forall|x: int, y: int|
            0 <= x < width && 0 <= y < rows ==> low <= gap(
                #[trigger] a[y * a_stride + x],
                b[y * b_stride + x],
            ) <= high,
    ensures
        rows * (width * low) <= scalar::sad_rows(a, a_stride, b, b_stride, width, rows) <= rows * (width
            * high),
    decreases rows,
{
    if rows > 0 {
        let y = rows - 1;
        law_block_differences(a, a_stride, b, b_stride, width, y, low, high);
        assert forall|k: int| 0 <= k < width implies low <= gap(
            #[trigger] a[y * a_stride + k],
            b[y * b_stride + k],
        ) <= high by {}
        law_differences(a, y * a_stride, b, y * b_stride, width, low, high);
        let (l, h) = (width * low, width * high);
        assert(rows * l == y * l + l) by (nonlinear_arith)
            requires
                y == rows - 1,
        ;
        assert(rows * h == y * h + h) by (nonlinear_arith)
            requires
                y == rows - 1,
        ;
    } else {
        assert(0 * (width * low) == 0 && 0 * (width * high) == 0);
    }
}

// ---------------------------------------------------------------------------------------------
// Energy

/// The energy of samples is between the squares of their least and their greatest size, for each of
/// them.
pub proof fn law_energy(a: Seq<i16>, k: int, low: int, high: int)
    requires
        0 <= k,
        0 <= low,
        forall|i: int|
            0 <= i < k ==> low <= (if #[trigger] a[i] < 0 {
                -a[i]
            } else {
                a[i] as int
            }) <= high,
    ensures
        k * (low * low) <= quality::energy(a, k) <= k * (high * high),
    decreases k,
{
    if k > 0 {
        law_energy(a, k - 1, low, high);
        let v = a[k - 1] as int;
        lemma_square(v, low, high);
        lemma_times(k, low * low);
        lemma_times(k, high * high);
    } else {
        assert(0 * (low * low) == 0 && 0 * (high * high) == 0);
    }
}

proof fn lemma_square(v: int, low: int, high: int)
    requires
        0 <= low,
        low <= (if v < 0 {
            -v
        } else {
            v
        }) <= high,
    ensures
        low * low <= v * v <= high * high,
{
    let s = if v < 0 {
        -v
    } else {
        v
    };
    assert(v * v == s * s) by (nonlinear_arith)
        requires
            s == v || s == -v,
    ;
    assert(low * low <= s * s <= high * high) by (nonlinear_arith)
        requires
            0 <= low <= s <= high,
    ;
}

proof fn lemma_times(k: int, v: int)
    ensures
        k * v == (k - 1) * v + v,
{
    assert(k * v == (k - 1) * v + v) by (nonlinear_arith);
}

/// The noise between samples is between the squares of their least and their greatest distance, for
/// each pair.
pub proof fn law_noise(a: Seq<i16>, b: Seq<i16>, k: int, low: int, high: int)
    requires
        0 <= k,
        0 <= low,
        forall|i: int|
            0 <= i < k ==> low <= (if #[trigger] a[i] < b[i] {
                b[i] - a[i]
            } else {
                a[i] - b[i]
            }) <= high,
    ensures
        k * (low * low) <= quality::noise(a, b, k) <= k * (high * high),
    decreases k,
{
    if k > 0 {
        law_noise(a, b, k - 1, low, high);
        let i = k - 1;
        lemma_square(a[i] - b[i], low, high);
        lemma_times(k, low * low);
        lemma_times(k, high * high);
    } else {
        assert(0 * (low * low) == 0 && 0 * (high * high) == 0);
    }
}

proof fn lemma_plane_noise(a: Seq<u8>, b: Seq<u8>, k: int, low: int, high: int)
    requires
        0 <= k,
        0 <= low,
        forall|i: int| 0 <= i < k ==> low <= gap(#[trigger] a[i], b[i]) <= high,
    ensures
        k * (low * low) <= quality::plane_noise(a, b, k) <= k * (high * high),
    decreases k,
{
    if k > 0 {
        lemma_plane_noise(a, b, k - 1, low, high);
        let i = k - 1;
        assert(low <= gap(a[i], b[i]) <= high);
        lemma_square(a[i] - b[i], low, high);
        lemma_times(k, low * low);
        lemma_times(k, high * high);
    } else {
        assert(0 * (low * low) == 0 && 0 * (high * high) == 0);
    }
}

/// The noise between pictures is between the squares of the least and the greatest distance of their
/// samples, for each pair in all three planes; each plane has its own.
pub proof fn law_picture_noise(
    a: Picture,
    b: Picture,
    y: (int, int),
    u: (int, int),
    v: (int, int),
)
    requires
        0 <= y.0,
        0 <= u.0,
        0 <= v.0,
        forall|i: int| 0 <= i < a.y.len() ==> y.0 <= gap(#[trigger] a.y[i], b.y[i]) <= y.1,
        forall|i: int| 0 <= i < a.u.len() ==> u.0 <= gap(#[trigger] a.u[i], b.u[i]) <= u.1,
        forall|i: int| 0 <= i < a.v.len() ==> v.0 <= gap(#[trigger] a.v[i], b.v[i]) <= v.1,
    ensures
        a.y.len() * (y.0 * y.0) + a.u.len() * (u.0 * u.0) + a.v.len() * (v.0 * v.0)
            <= quality::picture_noise(a, b) <= a.y.len() * (y.1 * y.1) + a.u.len() * (u.1 * u.1)
            + a.v.len() * (v.1 * v.1),
        quality::picture_samples(a) == a.y.len() + a.u.len() + a.v.len(),
{
    lemma_plane_noise(a.y, b.y, a.y.len() as int, y.0, y.1);
    lemma_plane_noise(a.u, b.u, a.u.len() as int, u.0, u.1);
    lemma_plane_noise(a.v, b.v, a.v.len() as int, v.0, v.1);
}

} // verus!
