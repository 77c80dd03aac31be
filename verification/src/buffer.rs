//! Planar frame storage.
use vstd::prelude::*;

verus! {

/// One plane of a frame, read only.
pub struct PlaneView<'a> {
    pub data: &'a [u8],
    pub width: usize,
    pub height: usize,
    pub stride: usize,
}

/// One plane of a frame, to be written.
pub struct PlaneViewMut<'a> {
    pub data: &'a mut [u8],
    pub width: usize,
    pub height: usize,
    pub stride: usize,
}

/// The three planes of a 4:2:0 frame, read only.
pub struct Frame420View<'a> {
    pub y: PlaneView<'a>,
    pub u: PlaneView<'a>,
    pub v: PlaneView<'a>,
}

/// The three planes of a 4:2:0 frame, to be written.
pub struct Frame420ViewMut<'a> {
    pub y: PlaneViewMut<'a>,
    pub u: PlaneViewMut<'a>,
    pub v: PlaneViewMut<'a>,
}

/// Three planes in one allocation: luma, then the two chroma planes.
#[derive(Debug, PartialEq, Eq)]
pub struct OwnedFrame420 {
    luma: usize,
    chroma: usize,
    data: Vec<u8>,
}

impl Clone for OwnedFrame420 {
    fn clone(&self) -> (r: Self)
        ensures
            r.samples() == self.samples(),
            r.y_plane() == self.y_plane(),
            r.u_plane() == self.u_plane(),
            r.v_plane() == self.v_plane(),
    {
        let data: Vec<u8> = self.data.clone();
        assert(data@ =~= self.data@);
        OwnedFrame420 { luma: self.luma, chroma: self.chroma, data }
    }
}

impl OwnedFrame420 {
    spec fn cut_y(&self) -> int {
        vstd::math::min(self.luma as int, self.data@.len() as int)
    }

    spec fn cut_u(&self) -> int {
        vstd::math::min(self.luma + self.chroma, self.data@.len() as int)
    }

    /// All samples, plane after plane.
    pub closed spec fn samples(&self) -> Seq<u8> {
        self.data@
    }

    pub closed spec fn y_plane(&self) -> Seq<u8> {
        self.data@.subrange(0, self.cut_y())
    }

    pub closed spec fn u_plane(&self) -> Seq<u8> {
        self.data@.subrange(self.cut_y(), self.cut_u())
    }

    pub closed spec fn v_plane(&self) -> Seq<u8> {
        self.data@.subrange(self.cut_u(), self.data@.len() as int)
    }

    /// Adopts the samples of planes of these sizes.
    pub fn from_data(luma: usize, chroma: usize, data: Vec<u8>) -> (r: Self)
        requires
            data@.len() == luma + 2 * chroma,
        ensures
            r.samples() == data@,
            r.y_plane() == data@.subrange(0, luma as int),
            r.u_plane() == data@.subrange(luma as int, luma + chroma),
            r.v_plane() == data@.subrange(luma + chroma, luma + 2 * chroma),
    {
        OwnedFrame420 { luma, chroma, data }
    }

    fn y_end(&self) -> (r: usize)
        ensures
            r == self.cut_y(),
    {
        if self.luma < self.data.len() {
            self.luma
        } else {
            self.data.len()
        }
    }

    fn u_end(&self) -> (r: usize)
        ensures
            r == self.cut_u(),
            self.cut_y() <= r,
    {
        if self.luma >= self.data.len() || self.chroma >= self.data.len() - self.luma {
            self.data.len()
        } else {
            self.luma + self.chroma
        }
    }

    /// The planes follow one another in the samples.
    pub proof fn lemma_samples(&self)
        ensures
            self.samples() == self.y_plane() + self.u_plane() + self.v_plane(),
    {
        assert(self.samples() =~= self.y_plane() + self.u_plane() + self.v_plane());
    }

    pub fn y(&self) -> (r: &[u8])
        ensures
            r@ == self.y_plane(),
    {
        let end: usize = self.y_end();
        &self.data.as_slice()[0..end]
    }

    pub fn u(&self) -> (r: &[u8])
        ensures
            r@ == self.u_plane(),
    {
        let start: usize = self.y_end();
        let end: usize = self.u_end();
        &self.data.as_slice()[start..end]
    }

    pub fn v(&self) -> (r: &[u8])
        ensures
            r@ == self.v_plane(),
    {
        let start: usize = self.u_end();
        let end: usize = self.data.len();
        &self.data.as_slice()[start..end]
    }

    /// The three planes, to be written. A plane keeps its length.
    pub fn planes_mut(&mut self) -> (r: (&mut [u8], &mut [u8], &mut [u8]))
        ensures
            r.0@ == old(self).y_plane(),
            r.1@ == old(self).u_plane(),
            r.2@ == old(self).v_plane(),
            final(r.0)@.len() == r.0@.len() && final(r.1)@.len() == r.1@.len() && final(r.2)@.len()
                == r.2@.len() ==> {
                &&& final(self).y_plane() == final(r.0)@
                &&& final(self).u_plane() == final(r.1)@
                &&& final(self).v_plane() == final(r.2)@
            },
    {
        let a: usize = self.y_end();
        let b: usize = self.u_end();
        let (y, rest) = self.data.as_mut_slice().split_at_mut(a);
        let (u, v) = rest.split_at_mut(b - a);
        proof {
            let all = final(y)@ + (final(u)@ + final(v)@);
            assert(all.subrange(0, final(y)@.len() as int) =~= final(y)@);
            assert(all.subrange(
                final(y)@.len() as int,
                final(y)@.len() as int + final(u)@.len(),
            ) =~= final(u)@);
            assert(all.subrange(
                final(y)@.len() as int + final(u)@.len(),
                all.len() as int,
            ) =~= final(v)@);
        }
        (y, u, v)
    }

    /// The backing allocation.
    pub fn into_data(self) -> (r: Vec<u8>)
        ensures
            r@ == self.samples(),
    {
        self.data
    }

    /// How many samples there are.
    pub fn len(&self) -> (r: usize)
        ensures
            r == self.samples().len(),
    {
        self.data.len()
    }
}

} // verus!
