//! How far coded media are from their sources, in whole numbers.
use crate::audio::v1::AudioError;
use crate::video::v1::syntax::Picture;
use crate::video::v1::{Frame420, VideoError};
use vstd::prelude::*;

verus! {

/// The sum of the squares of the first `k` samples.
pub open spec fn energy(a: Seq<i16>, k: int) -> int
    decreases k,
{
    if k <= 0 {
        0
    } else {
        energy(a, k - 1) + a[k - 1] * a[k - 1]
    }
}

/// The sum of the squares of the differences of the first `k` samples.
pub open spec fn noise(a: Seq<i16>, b: Seq<i16>, k: int) -> int
    decreases k,
{
    if k <= 0 {
        0
    } else {
        noise(a, b, k - 1) + (a[k - 1] - b[k - 1]) * (a[k - 1] - b[k - 1])
    }
}

proof fn lemma_square(d: int, most: int)
    requires
        -most <= d <= most,
    ensures
        0 <= d * d <= most * most,
{
    assert(0 <= d * d <= most * most) by (nonlinear_arith)
        requires
            -most <= d <= most,
    ;
}

/// The energy of samples, and that of their difference from others.
pub fn signal_and_noise(a: &[i16], b: &[i16]) -> (r: Result<(u128, u128), AudioError>)
    ensures
        match r {
            Ok((s, n)) => {
                &&& a@.len() == b@.len()
                &&& s == energy(a@, a@.len() as int)
                &&& n == noise(a@, b@, a@.len() as int)
            },
            Err(e) => a@.len() != b@.len() && e == AudioError::BadFrames,
        },
{
    if a.len() != b.len() {
        return Err(AudioError::BadFrames);
    }
    let mut signal: u128 = 0;
    let mut error: u128 = 0;
    let mut i: usize = 0;
    while i < a.len()
        invariant
            i <= a@.len(),
            a@.len() == b@.len(),
            signal == energy(a@, i as int),
            error == noise(a@, b@, i as int),
            signal <= i * 0x1_0000_0000,
            error <= i * 0x1_0000_0000,
        decreases a@.len() - i,
    {
        let x: i64 = a[i] as i64;
        let d: i64 = a[i] as i64 - b[i] as i64;
        proof {
            lemma_square(x as int, 65536);
            lemma_square(d as int, 65536);
            assert(a.len() == a@.len());
        }
        signal = signal + (x * x) as u128;
        error = error + (d * d) as u128;
        i = i + 1;
    }
    Ok((signal, error))
}

/// The sum of the squares of the differences of the first `k` samples of two planes.
pub open spec fn plane_noise(a: Seq<u8>, b: Seq<u8>, k: int) -> int
    decreases k,
{
    if k <= 0 {
        0
    } else {
        plane_noise(a, b, k - 1) + (a[k - 1] - b[k - 1]) * (a[k - 1] - b[k - 1])
    }
}

/// The sum of the squares of the differences of two pictures.
pub open spec fn picture_noise(a: Picture, b: Picture) -> int {
    plane_noise(a.y, b.y, a.y.len() as int) + plane_noise(a.u, b.u, a.u.len() as int) + plane_noise(
        a.v,
        b.v,
        a.v.len() as int,
    )
}

/// The number of samples of a picture.
pub open spec fn picture_samples(a: Picture) -> int {
    a.y.len() as int + a.u.len() + a.v.len()
}

/// The error of a frame that is no frame.
pub open spec fn frame_error(a: Picture) -> VideoError {
    if crate::video::v1::syntax::dimensions_ok(a.width, a.height) {
        VideoError::PlaneLength
    } else {
        VideoError::BadDimensions
    }
}

fn plane_difference(a: &[u8], b: &[u8]) -> (r: u128)
    requires
        a@.len() == b@.len(),
    ensures
        r == plane_noise(a@, b@, a@.len() as int),
        r <= 0x1_0000_0000_0000_0000 * 65536,
{
    let mut error: u128 = 0;
    let mut i: usize = 0;
    assert(a.len() == a@.len());
    while i < a.len()
        invariant
            i <= a@.len(),
            a@.len() == b@.len(),
            error == plane_noise(a@, b@, i as int),
            error <= i * 65536,
            a@.len() <= usize::MAX,
        decreases a@.len() - i,
    {
        let d: i64 = a[i] as i64 - b[i] as i64;
        proof {
            lemma_square(d as int, 256);
            assert(a.len() == a@.len());
        }
        error = error + (d * d) as u128;
        i = i + 1;
    }
    error
}

/// The squared error of a frame against another of its size, and the number of samples.
pub fn squared_error(a: &Frame420, b: &Frame420) -> (r: Result<(u128, u128), VideoError>)
    ensures
        match r {
            Ok((e, n)) => {
                &&& a.picture().valid()
                &&& b.picture().valid()
                &&& a.width == b.width
                &&& a.height == b.height
                &&& e == picture_noise(a.picture(), b.picture())
                &&& n == picture_samples(a.picture())
            },
            Err(e) => if !a.picture().valid() {
                e == frame_error(a.picture())
            } else if !b.picture().valid() {
                e == frame_error(b.picture())
            } else {
                e == VideoError::ReferenceShape && (a.width != b.width || a.height != b.height)
            },
        },
{
    match a.validate() {
        Ok(()) => {},
        Err(e) => {
            return Err(e);
        },
    }
    match b.validate() {
        Ok(()) => {},
        Err(e) => {
            return Err(e);
        },
    }
    if a.width != b.width || a.height != b.height {
        return Err(VideoError::ReferenceShape);
    }
    let e: u128 = plane_difference(a.y(), b.y()) + plane_difference(a.u(), b.u())
        + plane_difference(a.v(), b.v());
    let n: u128 = a.y().len() as u128 + a.u().len() as u128 + a.v().len() as u128;
    Ok((e, n))
}

} // verus!
