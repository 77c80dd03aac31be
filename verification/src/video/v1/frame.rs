//! 8-bit planar 4:2:0 frames.
use crate::buffer::{Frame420View, Frame420ViewMut, OwnedFrame420, PlaneView, PlaneViewMut};
use crate::bytes;
use crate::video::v1::prediction;
use crate::video::v1::syntax;
use crate::video::v1::VideoError;
use vstd::prelude::*;

verus! {

/// Owned 8-bit planar 4:2:0 frame backed by one contiguous allocation.
#[derive(Debug, PartialEq, Eq)]
pub struct Frame420 {
    /// Luma width in pixels. Must be non-zero and even.
    pub width: u32,
    /// Luma height in pixels. Must be non-zero and even.
    pub height: u32,
    /// The samples.
    pub storage: OwnedFrame420,
}

impl Clone for Frame420 {
    fn clone(&self) -> (r: Self)
        ensures
            r.picture() == self.picture(),
    {
        Frame420 { width: self.width, height: self.height, storage: self.storage.clone() }
    }
}

/// The number of luma and of chroma samples of a frame of this size.
pub fn sizes(w: u32, h: u32) -> (r: Result<(usize, usize), VideoError>)
    ensures
        match r {
            Ok((y, c)) => syntax::dimensions_ok(w as int, h as int) && y == w * h && c == w * h / 4,
            Err(e) => !syntax::dimensions_ok(w as int, h as int) && e == VideoError::BadDimensions,
        },
{
    if w == 0 || h == 0 || w > 8192 || h > 8192 || w % 2 != 0 || h % 2 != 0 {
        return Err(VideoError::BadDimensions);
    }
    proof {
        prediction::lemma_plane_size(w as int, h as int);
    }
    let y: usize = w as usize * h as usize;
    Ok((y, y / 4))
}

impl Frame420 {
    pub open spec fn y_samples(&self) -> Seq<u8> {
        self.storage.y_plane()
    }

    pub open spec fn u_samples(&self) -> Seq<u8> {
        self.storage.u_plane()
    }

    pub open spec fn v_samples(&self) -> Seq<u8> {
        self.storage.v_plane()
    }

    /// What the frame shows.
    pub open spec fn picture(&self) -> syntax::Picture {
        syntax::Picture {
            width: self.width as int,
            height: self.height as int,
            y: self.y_samples(),
            u: self.u_samples(),
            v: self.v_samples(),
        }
    }

    /// Allocates a zero-filled tightly packed frame.
    pub fn new(width: u32, height: u32) -> (r: Result<Self, VideoError>)
        ensures
            match r {
                Ok(f) => {
                    &&& f.width == width && f.height == height && f.picture().valid()
                    &&& forall|i: int| 0 <= i < f.y_samples().len() ==> #[trigger] f.y_samples()[i] == 0
                    &&& forall|i: int| 0 <= i < f.u_samples().len() ==> #[trigger] f.u_samples()[i] == 0
                    &&& forall|i: int| 0 <= i < f.v_samples().len() ==> #[trigger] f.v_samples()[i] == 0
                },
                Err(e) => !syntax::dimensions_ok(width as int, height as int) && e
                    == VideoError::BadDimensions,
            },
    {
        match sizes(width, height) {
            Err(e) => Err(e),
            Ok((luma, chroma)) => {
                proof {
                    prediction::lemma_plane_size(width as int, height as int);
                }
                let data: Vec<u8> = vec![0u8; luma + 2 * chroma];
                Ok(
                    Frame420 {
                        width,
                        height,
                        storage: OwnedFrame420::from_data(luma, chroma, data),
                    },
                )
            },
        }
    }

    /// Adopts one tightly packed Y/U/V allocation.
    pub fn from_tightly_packed(width: u32, height: u32, data: Vec<u8>) -> (r: Result<
        Self,
        VideoError,
    >)
        ensures
            match r {
                Ok(f) => {
                    &&& f.width == width && f.height == height && f.picture().valid()
                    &&& data@ == f.y_samples() + f.u_samples() + f.v_samples()
                },
                Err(e) => if syntax::dimensions_ok(width as int, height as int) {
                    e == VideoError::PlaneLength && data@.len() != width * height + 2 * (width
                        * height / 4)
                } else {
                    e == VideoError::BadDimensions
                },
            },
    {
        match sizes(width, height) {
            Err(e) => Err(e),
            Ok((luma, chroma)) => {
                proof {
                    prediction::lemma_plane_size(width as int, height as int);
                }
                if data.len() != luma + 2 * chroma {
                    return Err(VideoError::PlaneLength);
                }
                let ghost all = data@;
                let storage: OwnedFrame420 = OwnedFrame420::from_data(luma, chroma, data);
                proof {
                    storage.lemma_samples();
                }
                Ok(Frame420 { width, height, storage })
            },
        }
    }

    /// Adopts three tightly packed planes into one allocation.
    pub fn from_planes(width: u32, height: u32, y: Vec<u8>, u: Vec<u8>, v: Vec<u8>) -> (r: Result<
        Self,
        VideoError,
    >)
        ensures
            match r {
                Ok(f) => {
                    &&& f.width == width && f.height == height && f.picture().valid()
                    &&& f.y_samples() == y@ && f.u_samples() == u@ && f.v_samples() == v@
                },
                Err(e) => if syntax::dimensions_ok(width as int, height as int) {
                    e == VideoError::PlaneLength && !(y@.len() == width * height && u@.len() == width
                        * height / 4 && v@.len() == width * height / 4)
                } else {
                    e == VideoError::BadDimensions
                },
            },
    {
        match sizes(width, height) {
            Err(e) => Err(e),
            Ok((luma, chroma)) => {
                if y.len() != luma || u.len() != chroma || v.len() != chroma {
                    return Err(VideoError::PlaneLength);
                }
                let ghost (y0, u0, v0) = (y@, u@, v@);
                let mut data: Vec<u8> = y;
                bytes::put_slice(&u, &mut data);
                bytes::put_slice(&v, &mut data);
                proof {
                    assert(data@ =~= y0 + u0 + v0);
                    assert(data@.subrange(0, luma as int) =~= y0);
                    assert(data@.subrange(luma as int, luma + chroma) =~= u0);
                    assert(data@.subrange(luma + chroma, luma + 2 * chroma) =~= v0);
                }
                Ok(
                    Frame420 {
                        width,
                        height,
                        storage: OwnedFrame420::from_data(luma, chroma, data),
                    },
                )
            },
        }
    }

    /// Full-resolution tightly packed luma plane.
    pub fn y(&self) -> (r: &[u8])
        ensures
            r@ == self.y_samples(),
    {
        self.storage.y()
    }

    /// Half-resolution tightly packed Cb/U plane.
    pub fn u(&self) -> (r: &[u8])
        ensures
            r@ == self.u_samples(),
    {
        self.storage.u()
    }

    /// Half-resolution tightly packed Cr/V plane.
    pub fn v(&self) -> (r: &[u8])
        ensures
            r@ == self.v_samples(),
    {
        self.storage.v()
    }

    /// Mutable full-resolution tightly packed luma plane.
    pub fn y_mut(&mut self) -> (r: &mut [u8])
        ensures
            r@ == old(self).y_samples(),
            final(r)@.len() == r@.len() ==> final(self).picture() == (syntax::Picture {
                y: final(r)@,
                ..old(self).picture()
            }),
    {
        let (y, u, v) = self.storage.planes_mut();
        y
    }

    /// Mutable half-resolution tightly packed Cb/U plane.
    pub fn u_mut(&mut self) -> (r: &mut [u8])
        ensures
            r@ == old(self).u_samples(),
            final(r)@.len() == r@.len() ==> final(self).picture() == (syntax::Picture {
                u: final(r)@,
                ..old(self).picture()
            }),
    {
        let (y, u, v) = self.storage.planes_mut();
        u
    }

    /// Mutable half-resolution tightly packed Cr/V plane.
    pub fn v_mut(&mut self) -> (r: &mut [u8])
        ensures
            r@ == old(self).v_samples(),
            final(r)@.len() == r@.len() ==> final(self).picture() == (syntax::Picture {
                v: final(r)@,
                ..old(self).picture()
            }),
    {
        let (y, u, v) = self.storage.planes_mut();
        v
    }

    /// Returns the tightly packed Y/U/V backing allocation.
    pub fn into_tightly_packed(self) -> (r: Vec<u8>)
        ensures
            r@ == self.y_samples() + self.u_samples() + self.v_samples(),
    {
        proof {
            self.storage.lemma_samples();
        }
        self.storage.into_data()
    }

    /// Explicit-stride immutable frame view.
    pub fn view(&self) -> (r: Frame420View<'_>)
        ensures
            r.y.data@ == self.y_samples(),
            r.u.data@ == self.u_samples(),
            r.v.data@ == self.v_samples(),
            r.y.width == self.width && r.y.height == self.height && r.y.stride == self.width,
            r.u.width == self.width / 2 && r.u.height == self.height / 2 && r.u.stride == self.width
                / 2,
            r.v.width == self.width / 2 && r.v.height == self.height / 2 && r.v.stride == self.width
                / 2,
    {
        let (w, h): (usize, usize) = (self.width as usize, self.height as usize);
        Frame420View {
            y: PlaneView { data: self.storage.y(), width: w, height: h, stride: w },
            u: PlaneView { data: self.storage.u(), width: w / 2, height: h / 2, stride: w / 2 },
            v: PlaneView { data: self.storage.v(), width: w / 2, height: h / 2, stride: w / 2 },
        }
    }

    /// Explicit-stride mutable frame view.
    pub fn view_mut(&mut self) -> (r: Frame420ViewMut<'_>)
        ensures
            r.y.data@ == old(self).y_samples(),
            r.u.data@ == old(self).u_samples(),
            r.v.data@ == old(self).v_samples(),
            r.y.width == old(self).width && r.y.height == old(self).height && r.y.stride == old(
                self,
            ).width,
            r.u.width == old(self).width / 2 && r.u.height == old(self).height / 2 && r.u.stride
                == old(self).width / 2,
            r.v.width == old(self).width / 2 && r.v.height == old(self).height / 2 && r.v.stride
                == old(self).width / 2,
            final(r.y.data)@.len() == r.y.data@.len() && final(r.u.data)@.len() == r.u.data@.len()
                && final(r.v.data)@.len() == r.v.data@.len() ==> final(self).picture() == (
            syntax::Picture {
                y: final(r.y.data)@,
                u: final(r.u.data)@,
                v: final(r.v.data)@,
                ..old(self).picture()
            }),
    {
        let (w, h): (usize, usize) = (self.width as usize, self.height as usize);
        let (y, u, v) = self.storage.planes_mut();
        Frame420ViewMut {
            y: PlaneViewMut { data: y, width: w, height: h, stride: w },
            u: PlaneViewMut { data: u, width: w / 2, height: h / 2, stride: w / 2 },
            v: PlaneViewMut { data: v, width: w / 2, height: h / 2, stride: w / 2 },
        }
    }

    /// Number of bytes in the single backing allocation.
    pub fn storage_len(&self) -> (r: usize)
        ensures
            r == self.y_samples().len() + self.u_samples().len() + self.v_samples().len(),
    {
        proof {
            self.storage.lemma_samples();
        }
        self.storage.len()
    }

    /// Validates dimensions and backing layout.
    pub fn validate(&self) -> (r: Result<(), VideoError>)
        ensures
            match r {
                Ok(()) => self.picture().valid(),
                Err(e) => !self.picture().valid() && e == if syntax::dimensions_ok(
                    self.width as int,
                    self.height as int,
                ) {
                    VideoError::PlaneLength
                } else {
                    VideoError::BadDimensions
                },
            },
    {
        match sizes(self.width, self.height) {
            Err(e) => Err(e),
            Ok((y, c)) => if self.y().len() != y || self.u().len() != c || self.v().len() != c {
                Err(VideoError::PlaneLength)
            } else {
                Ok(())
            },
        }
    }
}

} // verus!
