//! Times of epochs, and the file that epochs make.
use crate::container::v1::syntax;
use crate::container::v1::wire;
use crate::container::v1::{build_file_checked, StreamDesc};
use crate::mux::MuxError;
use vstd::prelude::*;

verus! {

/// When an epoch of the frames from `start` to `end` begins and how long it lasts.
pub open spec fn epoch_span(start: u64, end: u64, frame_us: u64) -> Result<(u64, u32), MuxError> {
    if start * frame_us > u64::MAX || end * frame_us > u64::MAX {
        Err(MuxError::EpochTimestamp)
    } else if end * frame_us - start * frame_us > u32::MAX {
        Err(MuxError::EpochDuration)
    } else {
        Ok(((start * frame_us) as u64, (end * frame_us - start * frame_us) as u32))
    }
}

/// When an epoch begins and how long it lasts.
pub fn span(start: u64, end: u64, frame_us: u64) -> (r: Result<(u64, u32), MuxError>)
    requires
        start <= end,
    ensures
        r == epoch_span(start, end, frame_us),
        r matches Ok(times) ==> times.0 + times.1 == end * frame_us <= u64::MAX,
{
    let pts: u64 = match start.checked_mul(frame_us) {
        Some(pts) => pts,
        None => {
            return Err(MuxError::EpochTimestamp);
        },
    };
    let end_pts: u64 = match end.checked_mul(frame_us) {
        Some(pts) => pts,
        None => {
            return Err(MuxError::EpochTimestamp);
        },
    };
    proof {
        assert(start * frame_us <= end * frame_us) by (nonlinear_arith)
            requires
                0 <= start <= end,
                0 <= frame_us,
        ;
    }
    let duration: u64 = end_pts - pts;
    if duration > 0xffff_ffff {
        return Err(MuxError::EpochDuration);
    }
    Ok((pts, duration as u32))
}

/// The sample frame at a time.
pub open spec fn sample_at(pts: int, rate: u32) -> Result<u64, MuxError> {
    if pts * rate > u64::MAX {
        Err(MuxError::AudioTimestamp)
    } else {
        Ok((pts * rate / 1_000_000) as u64)
    }
}

/// The sample frame at a time.
pub fn audio_frame_for_pts(pts: u64, rate: u32) -> (r: Result<u64, MuxError>)
    ensures
        r == sample_at(pts as int, rate),
        r matches Ok(frame) ==> frame * 1_000_000 <= u64::MAX && frame * 1_000_000 <= pts * rate,
{
    match pts.checked_mul(rate as u64) {
        Some(scaled) => Ok(scaled / 1_000_000),
        None => Err(MuxError::AudioTimestamp),
    }
}

/// The file of these epochs, or why it cannot be built.
pub open spec fn output_of(streams: Seq<StreamDesc>, epochs: Seq<syntax::EpochRange>) -> Result<
    Seq<u8>,
    MuxError,
> {
    if syntax::file_len(streams, epochs) > usize::MAX {
        Err(MuxError::OutputLength)
    } else {
        match syntax::build_error(streams, epochs) {
            Some(e) => Err(MuxError::Container(e)),
            None => Ok(syntax::file_bytes(streams, epochs)),
        }
    }
}

/// Whether a file of these epochs can be built.
pub fn file_fits(streams: &Vec<StreamDesc>, epochs: &Vec<(u32, u64, u32, Vec<u8>)>) -> (r: bool)
    ensures
        r == (syntax::file_len(streams@, wire::ranges(epochs@)) <= usize::MAX),
{
    let ghost list = wire::ranges(epochs@);
    let base: u128 = 48 + 24 * streams.len() as u128 + 32 * epochs.len() as u128;
    assert(streams.len() == streams@.len());
    if base > usize::MAX as u128 {
        return false;
    }
    let mut len: usize = base as usize;
    let mut k: usize = 0;
    while k < epochs.len()
        invariant
            list == wire::ranges(epochs@),
            base == syntax::file_base(streams@.len() as int, epochs@.len() as int),
            k <= epochs@.len(),
            len == base + syntax::payload_before(list, k as int).len(),
        decreases epochs@.len() - k,
    {
        proof {
            assert(list[k as int].bytes == epochs@[k as int].3@);
            syntax::lemma_payload_before(list, k + 1, list.len() as int);
            assert(syntax::payload_before(list, k + 1).len() == syntax::payload_before(
                list,
                k as int,
            ).len() + epochs@[k as int].3@.len());
        }
        len = match len.checked_add(epochs[k].3.len()) {
            Some(len) => len,
            None => {
                return false;
            },
        };
        k = k + 1;
    }
    true
}

/// Builds the file of these epochs.
pub fn build_output(streams: Vec<StreamDesc>, epochs: Vec<(u32, u64, u32, Vec<u8>)>) -> (r: Result<
    Vec<u8>,
    MuxError,
>)
    ensures
        match r {
            Ok(file) => output_of(streams@, wire::ranges(epochs@)) == Ok::<Seq<u8>, MuxError>(file@),
            Err(e) => output_of(streams@, wire::ranges(epochs@)) == Err::<Seq<u8>, MuxError>(e),
        },
{
    if !file_fits(&streams, &epochs) {
        return Err(MuxError::OutputLength);
    }
    match build_file_checked(streams, epochs) {
        Ok(file) => Ok(file),
        Err(e) => Err(MuxError::Container(e)),
    }
}

} // verus!
