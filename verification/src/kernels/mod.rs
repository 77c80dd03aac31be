//! Sample kernels shared by the codecs.
pub mod scalar;

use vstd::prelude::*;

verus! {

/// The kernels that a codec instance runs on. Every set computes the same results.
#[derive(Debug, Clone, Copy, PartialEq, Eq, Structural)]
pub enum KernelSet {
    /// Portable code.
    Scalar,
}

impl KernelSet {
    /// The best set available.
    pub fn auto() -> (r: Self)
        ensures
            r == KernelSet::Scalar,
    {
        KernelSet::Scalar
    }

    /// The portable set.
    pub fn scalar() -> (r: Self)
        ensures
            r == KernelSet::Scalar,
    {
        KernelSet::Scalar
    }

    /// CRC-32C of `data`.
    pub fn crc32c(self, data: &[u8]) -> (r: u32)
        ensures
            r == scalar::crc_of(data@),
    {
        scalar::crc32c(data)
    }

    /// SAD over a small strided rectangular block.
    pub fn sad_block(
        self,
        a: &[u8],
        a_stride: usize,
        b: &[u8],
        b_stride: usize,
        width: usize,
        height: usize,
    ) -> (r: u64)
        requires
            255 * a@.len() <= u64::MAX,
        ensures
            r == if scalar::footprint_ok(
                a@.len() as int,
                a_stride as int,
                width as int,
                height as int,
            ) && scalar::footprint_ok(
                b@.len() as int,
                b_stride as int,
                width as int,
                height as int,
            ) {
                scalar::sad_rows(
                    a@,
                    a_stride as int,
                    b@,
                    b_stride as int,
                    width as int,
                    height as int,
                )
            } else {
                0
            },
    {
        scalar::sad_block(a, a_stride, b, b_stride, width, height)
    }

    /// Predicts one full 8x8 half-sample block.
    pub fn halfpel_predict_8x8(self, src: &[u8], stride: usize, fx: u8, fy: u8) -> (r: Option<
        [u8; 64],
    >)
        ensures
            match r {
                Some(block) => scalar::halfpel_ok(
                    src@.len() as int,
                    stride as int,
                    fx as int,
                    fy as int,
                ) && block@ == scalar::halfpel_block(src@, stride as int, fx as int, fy as int),
                None => !scalar::halfpel_ok(
                    src@.len() as int,
                    stride as int,
                    fx as int,
                    fy as int,
                ),
            },
    {
        scalar::halfpel_predict_8x8(src, stride, fx, fy)
    }

    /// SAD between a source block and a predicted half-sample block.
    pub fn halfpel_sad_8x8(
        self,
        a: &[u8],
        a_stride: usize,
        reference: &[u8],
        ref_stride: usize,
        fx: u8,
        fy: u8,
    ) -> (r: Option<u64>)
        ensures
            match r {
                Some(sum) => {
                    &&& a_stride >= 8 && 7 * a_stride + 8 <= a@.len()
                    &&& scalar::halfpel_ok(
                        reference@.len() as int,
                        ref_stride as int,
                        fx as int,
                        fy as int,
                    )
                    &&& sum == scalar::sad_rows(
                        a@,
                        a_stride as int,
                        scalar::halfpel_block(
                            reference@,
                            ref_stride as int,
                            fx as int,
                            fy as int,
                        ),
                        8,
                        8,
                        8,
                    )
                },
                None => !(a_stride >= 8 && 7 * a_stride + 8 <= a@.len() && scalar::halfpel_ok(
                    reference@.len() as int,
                    ref_stride as int,
                    fx as int,
                    fy as int,
                )),
            },
    {
        scalar::halfpel_sad_8x8(a, a_stride, reference, ref_stride, fx, fy)
    }

    /// Inverse 8x8 Walsh-Hadamard transform.
    pub fn inverse_wht8x8(self, a: [i32; 64]) -> (r: [i32; 64])
        requires
            scalar::inverse_fits(scalar::ints(a@)),
        ensures
            scalar::ints(r@) == scalar::inverse_wht(scalar::ints(a@)),
    {
        scalar::inverse_wht8x8(a)
    }
}

} // verus!
