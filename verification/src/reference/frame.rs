//! Frames of the reference codecs.
use crate::video::v1::prediction;
use crate::video::v1::syntax;
use crate::video::v1::VideoError;
use vstd::prelude::*;

verus! {

/// Owned 8-bit planar 4:2:0 frame.
#[derive(Debug, PartialEq, Eq)]
pub struct Frame420 {
    /// Luma width in pixels. Must be non-zero and even.
    pub width: u32,
    /// Luma height in pixels. Must be non-zero and even.
    pub height: u32,
    /// Full-resolution luma plane.
    pub y: Vec<u8>,
    /// Half-width, half-height Cb/U plane.
    pub u: Vec<u8>,
    /// Half-width, half-height Cr/V plane.
    pub v: Vec<u8>,
}

impl Clone for Frame420 {
    fn clone(&self) -> (r: Self)
        ensures
            r.picture() == self.picture(),
            r.width == self.width,
            r.height == self.height,
    {
        let r: Frame420 = Frame420 {
            width: self.width,
            height: self.height,
            y: self.y.clone(),
            u: self.u.clone(),
            v: self.v.clone(),
        };
        assert(r.y@ =~= self.y@);
        assert(r.u@ =~= self.u@);
        assert(r.v@ =~= self.v@);
        r
    }
}

/// Even, not zero, and no more than 67 108 864 samples.
pub open spec fn dimensions_ok(w: int, h: int) -> bool {
    0 < w && 0 < h && w % 2 == 0 && h % 2 == 0 && w * h <= 0x400_0000
}

/// Dimensions and plane sizes are in order.
pub open spec fn valid(picture: syntax::Picture) -> bool {
    dimensions_ok(picture.width, picture.height) && picture.sized()
}

/// The planes of a frame of such dimensions have as many samples as they should.
pub proof fn lemma_planes(w: int, h: int, p: int)
    requires
        dimensions_ok(w, h),
    ensures
        prediction::plane_fits(syntax::plane_len(w, p), syntax::plane_len(h, p)),
        (w / 2) * (h / 2) == w * h / 4,
        w <= 0x400_0000,
        h <= 0x400_0000,
{
    prediction::lemma_fits(w, h);
    let (a, b) = (w / 2, h / 2);
    assert(w * h == 4 * (a * b)) by (nonlinear_arith)
        requires
            w == 2 * a,
            h == 2 * b,
    ;
    assert(0 < a * b) by (nonlinear_arith)
        requires
            0 < a,
            0 < b,
    ;
}

/// The number of luma and of chroma samples of a frame of this size.
pub fn sizes(w: u32, h: u32) -> (r: Result<(usize, usize), VideoError>)
    ensures
        match r {
            Ok((y, c)) => dimensions_ok(w as int, h as int) && y == w * h && c == w * h / 4,
            Err(e) => !dimensions_ok(w as int, h as int) && e == VideoError::BadDimensions,
        },
{
    proof {
        assert(0 <= w * h <= 0xffff_ffff * 0xffff_ffff) by (nonlinear_arith)
            requires
                0 <= w <= 0xffff_ffff,
                0 <= h <= 0xffff_ffff,
        ;
    }
    if w == 0 || h == 0 || w % 2 != 0 || h % 2 != 0 || w as u64 * h as u64 > 0x400_0000 {
        return Err(VideoError::BadDimensions);
    }
    let y: usize = (w as u64 * h as u64) as usize;
    Ok((y, y / 4))
}

impl Frame420 {
    /// What the frame shows.
    pub open spec fn picture(&self) -> syntax::Picture {
        syntax::Picture {
            width: self.width as int,
            height: self.height as int,
            y: self.y@,
            u: self.u@,
            v: self.v@,
        }
    }

    /// Validates dimensions and plane lengths.
    pub fn validate(&self) -> (r: Result<(), VideoError>)
        ensures
            match r {
                Ok(()) => valid(self.picture()),
                Err(e) => e == if dimensions_ok(self.width as int, self.height as int) {
                    VideoError::PlaneLength
                } else {
                    VideoError::BadDimensions
                } && !valid(self.picture()),
            },
    {
        let (y, c): (usize, usize) = match sizes(self.width, self.height) {
            Ok(sizes) => sizes,
            Err(e) => {
                return Err(e);
            },
        };
        if self.y.len() != y || self.u.len() != c || self.v.len() != c {
            return Err(VideoError::PlaneLength);
        }
        Ok(())
    }
}

/// Plane `p` of a frame.
pub fn plane(frame: &Frame420, p: usize) -> (r: &[u8])
    ensures
        r@ == frame.picture().plane(p as int),
{
    if p == 0 {
        frame.y.as_slice()
    } else if p == 1 {
        frame.u.as_slice()
    } else {
        frame.v.as_slice()
    }
}

/// What numbered frames show.
pub open spec fn numbered(frames: Seq<(u64, &Frame420)>) -> Seq<(u64, syntax::Picture)> {
    Seq::new(frames.len(), |i: int| (frames[i].0, frames[i].1.picture()))
}

/// What frames show.
pub open spec fn pictures(frames: Seq<&Frame420>) -> Seq<syntax::Picture> {
    Seq::new(frames.len(), |i: int| frames[i].picture())
}

/// Plane `p` of each frame.
pub fn planes<'a>(frames: &Vec<&'a Frame420>, p: usize) -> (r: Vec<&'a [u8]>)
    ensures
        crate::video::v1::blocks::views(r@) == syntax::planes_of(pictures(frames@), p as int),
        r@.len() == frames@.len(),
        forall|i: int|
            0 <= i < r@.len() ==> (#[trigger] r@[i])@ == frames@[i].picture().plane(p as int),
{
    let mut r: Vec<&'a [u8]> = Vec::new();
    let mut i: usize = 0;
    while i < frames.len()
        invariant
            i <= frames@.len(),
            r@.len() == i,
            forall|j: int|
                0 <= j < i ==> (#[trigger] r@[j])@ == frames@[j].picture().plane(p as int),
        decreases frames@.len() - i,
    {
        r.push(plane(frames[i], p));
        i = i + 1;
    }
    assert(crate::video::v1::blocks::views(r@) =~= syntax::planes_of(
        pictures(frames@),
        p as int,
    ));
    r
}

} // verus!
