//! The ALA1 packet format.
use crate::audio::v1::{AudioError, EncodeOptions};
use crate::bitstream;
use crate::bytes;
use crate::kernels::scalar;
use vstd::prelude::*;

verus! {

// ---------------------------------------------------------------------------------------------
// The transform

/// The low halves of pairs: the first value plus half the difference, rounded down.
pub open spec fn lows(v: Seq<int>) -> Seq<int> {
    Seq::new(v.len() / 2, |i: int| v[2 * i] + (v[2 * i + 1] - v[2 * i]) / 2)
}

/// The differences of pairs.
pub open spec fn highs(v: Seq<int>) -> Seq<int> {
    Seq::new(v.len() / 2, |i: int| v[2 * i + 1] - v[2 * i])
}

/// The lifting transform of a sequence whose length is a power of two.
pub open spec fn haar(v: Seq<int>) -> Seq<int>
    decreases v.len(),
{
    if v.len() < 2 {
        v
    } else {
        haar(lows(v)) + highs(v)
    }
}

/// Pairs from their low halves and differences.
pub open spec fn merged(s: Seq<int>, d: Seq<int>) -> Seq<int> {
    Seq::new(
        2 * s.len(),
        |i: int|
            if i % 2 == 0 {
                s[i / 2] - d[i / 2] / 2
            } else {
                d[i / 2] + (s[i / 2] - d[i / 2] / 2)
            },
    )
}

/// All values fit 32 bits.
pub open spec fn fits(v: Seq<int>) -> bool {
    forall|i: int| 0 <= i < v.len() ==> i32::MIN <= #[trigger] v[i] <= i32::MAX
}

/// Undoes the transform, unless a value on the way leaves the 32-bit range.
pub open spec fn unhaar(v: Seq<int>) -> Option<Seq<int>>
    decreases v.len(),
{
    if v.len() < 2 {
        Some(v)
    } else {
        let half = v.len() as int / 2;
        match unhaar(v.take(half)) {
            None => None,
            Some(s) => {
                let out = merged(s, v.subrange(half, 2 * half));
                if fits(out) {
                    Some(out)
                } else {
                    None
                }
            },
        }
    }
}

/// A power of two that is at most 64.
pub open spec fn is_block_len(n: int) -> bool {
    n == 1 || n == 2 || n == 4 || n == 8 || n == 16 || n == 32 || n == 64
}

/// All values are within `m` of zero.
pub open spec fn within(v: Seq<int>, m: int) -> bool {
    forall|i: int| 0 <= i < v.len() ==> -m <= #[trigger] v[i] <= m
}

pub proof fn lemma_haar_len(v: Seq<int>)
    requires
        is_block_len(v.len() as int),
    ensures
        haar(v).len() == v.len(),
    decreases v.len(),
{
    if v.len() >= 2 {
        lemma_haar_len(lows(v));
    }
}

/// The transform at most doubles.
pub proof fn lemma_haar_bound(v: Seq<int>, m: int)
    requires
        is_block_len(v.len() as int),
        0 <= m,
        within(v, m),
    ensures
        within(haar(v), 2 * m),
        v.len() >= 2 ==> within(lows(v), m) && within(highs(v), 2 * m),
    decreases v.len(),
{
    if v.len() >= 2 {
        assert forall|i: int| 0 <= i < lows(v).len() implies -m <= #[trigger] lows(v)[i] <= m by {
            assert(-m <= v[2 * i] <= m && -m <= v[2 * i + 1] <= m);
        }
        assert forall|i: int| 0 <= i < highs(v).len() implies -2 * m <= #[trigger] highs(v)[i] <= 2
            * m by {
            assert(-m <= v[2 * i] <= m && -m <= v[2 * i + 1] <= m);
        }
        lemma_haar_bound(lows(v), m);
        lemma_haar_len(lows(v));
    }
}

/// Pairs are made up of their low half and difference.
proof fn lemma_merge(v: Seq<int>)
    requires
        v.len() % 2 == 0,
    ensures
        merged(lows(v), highs(v)) == v,
{
    let (s, d) = (lows(v), highs(v));
    assert forall|i: int| 0 <= i < v.len() implies merged(s, d)[i] == v[i] by {
        let j = i / 2;
        assert(s[j] == v[2 * j] + (v[2 * j + 1] - v[2 * j]) / 2);
        assert(d[j] == v[2 * j + 1] - v[2 * j]);
    }
    assert(merged(s, d) =~= v);
}

proof fn lemma_lows_fit(v: Seq<int>)
    requires
        fits(v),
    ensures
        fits(lows(v)),
{
    assert forall|i: int| 0 <= i < lows(v).len() implies i32::MIN <= #[trigger] lows(v)[i]
        <= i32::MAX by {
        assert(i32::MIN <= v[2 * i] <= i32::MAX && i32::MIN <= v[2 * i + 1] <= i32::MAX);
    }
}

/// Undoing the transform gives back what was transformed.
pub proof fn law_haar_reversible(v: Seq<int>)
    requires
        is_block_len(v.len() as int),
        fits(v),
    ensures
        unhaar(haar(v)) == Some(v),
    decreases v.len(),
{
    if v.len() >= 2 {
        let half = v.len() as int / 2;
        let low = lows(v);
        lemma_lows_fit(v);
        lemma_haar_len(low);
        law_haar_reversible(low);
        lemma_merge(v);
        let h = haar(v);
        assert(h.take(half) =~= haar(low));
        assert(h.subrange(half, 2 * half) =~= highs(v));
    }
}

// ---------------------------------------------------------------------------------------------
// Coefficients

/// The quantizer step of coefficient `i`.
pub open spec fn step(i: int, q: int) -> int {
    if q <= 1 {
        1
    } else if i < 4 {
        q
    } else if i < 16 {
        2 * q
    } else {
        3 * q
    }
}

pub open spec fn quantized(v: Seq<int>, q: int) -> Seq<int> {
    Seq::new(64, |i: int| scalar::rounded_div(v[i], step(i, q)))
}

/// How many of the coefficients from `i` on are not zero.
pub open spec fn nonzero_from(v: Seq<int>, i: int) -> nat
    decreases v.len() - i,
{
    if i < 0 || i >= v.len() {
        0
    } else {
        nonzero_from(v, i + 1) + if v[i] != 0 {
            1nat
        } else {
            0
        }
    }
}

/// Each coefficient that is not zero, with its place.
pub open spec fn value_bytes(v: Seq<int>, i: int) -> Seq<u8>
    decreases v.len() - i,
{
    if i < 0 || i >= v.len() {
        Seq::empty()
    } else if v[i] == 0 {
        value_bytes(v, i + 1)
    } else {
        bitstream::syntax::uvarint_bytes(i as nat) + bitstream::syntax::svarint_bytes(v[i])
            + value_bytes(v, i + 1)
    }
}

pub open spec fn block_bytes(v: Seq<int>) -> Seq<u8> {
    bitstream::syntax::uvarint_bytes(nonzero_from(v, 0)) + value_bytes(v, 0)
}

/// The blocks before `k`.
pub open spec fn blocks_bytes(list: Seq<Seq<int>>, k: int) -> Seq<u8>
    decreases k,
{
    if k <= 0 {
        Seq::empty()
    } else {
        blocks_bytes(list, k - 1) + block_bytes(list[k - 1])
    }
}

/// Reads `left` coefficients, scaled by their steps, into `v`.
pub open spec fn read_values(
    tok: Seq<u8>,
    pos: int,
    left: nat,
    last: int,
    q: int,
    v: Seq<int>,
) -> Result<(Seq<int>, int), AudioError>
    decreases left,
{
    if left == 0 {
        Ok((v, pos))
    } else {
        match bitstream::syntax::read_uvarint(tok, pos) {
            Err(e) => Err(AudioError::Bitstream(e)),
            Ok(i) => if i >= 64 || i <= last {
                Err(AudioError::BadCoefficient)
            } else {
                let at = bitstream::syntax::uvarint_end(tok, pos);
                match bitstream::syntax::read_svarint(tok, at) {
                    Err(e) => Err(AudioError::Bitstream(e)),
                    Ok(c) => {
                        let scaled = c * step(i as int, q);
                        if c < -2_000_000 || c > 2_000_000 || scaled < i32::MIN || scaled
                            > i32::MAX {
                            Err(AudioError::BadCoefficient)
                        } else {
                            read_values(
                                tok,
                                bitstream::syntax::uvarint_end(tok, at),
                                (left - 1) as nat,
                                i as int,
                                q,
                                v.update(i as int, scaled),
                            )
                        }
                    },
                }
            },
        }
    }
}

pub open spec fn silence() -> Seq<int> {
    Seq::new(64, |i: int| 0)
}

/// Reads one block of 64 values.
pub open spec fn read_block(tok: Seq<u8>, pos: int, q: int) -> Result<(Seq<int>, int), AudioError> {
    match bitstream::syntax::read_uvarint(tok, pos) {
        Err(e) => Err(AudioError::Bitstream(e)),
        Ok(n) => if n > 64 {
            Err(AudioError::BadCoefficient)
        } else {
            match read_values(
                tok,
                bitstream::syntax::uvarint_end(tok, pos),
                n as nat,
                -1,
                q,
                silence(),
            ) {
                Err(e) => Err(e),
                Ok((v, end)) => match unhaar(v) {
                    None => Err(AudioError::BadCoefficient),
                    Some(block) => Ok((block, end)),
                },
            }
        },
    }
}

/// Reads `left` blocks after `done`.
pub open spec fn read_blocks(tok: Seq<u8>, pos: int, left: nat, q: int, done: Seq<Seq<int>>) -> Result<
    (Seq<Seq<int>>, int),
    AudioError,
>
    decreases left,
{
    if left == 0 {
        Ok((done, pos))
    } else {
        match read_block(tok, pos, q) {
            Err(e) => Err(e),
            Ok((block, end)) => read_blocks(tok, end, (left - 1) as nat, q, done.push(block)),
        }
    }
}

// ---------------------------------------------------------------------------------------------
// Samples

/// How many blocks a channel of so many samples takes.
pub open spec fn block_count(frames: int) -> int {
    (frames + 63) / 64
}

/// Sample `f` of channel `c`, as the blocks hold it.
pub open spec fn plane_sample(list: Seq<Seq<int>>, frames: int, c: int, f: int) -> int {
    list[c * block_count(frames) + f / 64][f % 64]
}

/// Sample `f` of channel `c` with stereo coupling undone.
pub open spec fn uncoupled(list: Seq<Seq<int>>, frames: int, coupled: bool, c: int, f: int) -> int {
    if !coupled {
        plane_sample(list, frames, c, f)
    } else {
        let side = plane_sample(list, frames, 1, f);
        let left = plane_sample(list, frames, 0, f) - side / 2;
        if c == 0 {
            left
        } else {
            side + left
        }
    }
}

/// Interleaved samples.
pub open spec fn interleaved(list: Seq<Seq<int>>, frames: int, channels: int, coupled: bool) -> Seq<
    int,
> {
    Seq::new(
        (frames * channels) as nat,
        |i: int| uncoupled(list, frames, coupled, i % channels, i / channels),
    )
}

/// All samples fit 16 bits.
pub open spec fn audible(samples: Seq<int>) -> bool {
    forall|i: int| 0 <= i < samples.len() ==> i16::MIN <= #[trigger] samples[i] <= i16::MAX
}

pub open spec fn to_pcm(samples: Seq<int>) -> Seq<i16> {
    Seq::new(samples.len(), |i: int| samples[i] as i16)
}

/// What a decoder asks of a packet beside its syntax.
pub struct Bounds {
    pub max_entropy: nat,
    /// The sample rate and channel count that the stream declares.
    pub expected: Option<(u32, u8)>,
    /// Reserved bytes must be zero.
    pub strict: bool,
    /// Older entropy blocks are taken too.
    pub fixed: bool,
}

/// `ALA1`.
pub open spec fn magic() -> Seq<u8> {
    seq![65u8, 76u8, 65u8, 49u8]
}

/// The samples that the tokens hold.
pub open spec fn decoded_tokens(
    tok: Seq<u8>,
    frames: int,
    channels: int,
    q: int,
    coupled: bool,
) -> Result<Seq<i16>, AudioError> {
    match bitstream::syntax::read_uvarint(tok, 0) {
        Err(e) => Err(AudioError::Bitstream(e)),
        Ok(blocks) => if blocks != block_count(frames) {
            Err(AudioError::BadHeader)
        } else {
            match read_blocks(
                tok,
                bitstream::syntax::uvarint_end(tok, 0),
                (channels * block_count(frames)) as nat,
                q,
                Seq::empty(),
            ) {
                Err(e) => Err(e),
                Ok((list, end)) => if end != tok.len() {
                    Err(AudioError::TrailingData)
                } else if coupled && channels != 2 {
                    Err(AudioError::BadHeader)
                } else {
                    let samples = interleaved(list, frames, channels, coupled);
                    if audible(samples) {
                        Ok(to_pcm(samples))
                    } else {
                        Err(AudioError::SampleOverflow)
                    }
                },
            }
        },
    }
}

/// The sample rate, channel count and samples of a packet, or why it is refused.
pub open spec fn decoded_packet(input: Seq<u8>, bounds: Bounds) -> Result<
    (u32, u8, Seq<i16>),
    AudioError,
> {
    let channels = input[4];
    let q = bytes::le_value(input.subrange(6, 8)) as int;
    let rate = bytes::le_value(input.subrange(8, 12)) as u32;
    let frames = bytes::le_value(input.subrange(12, 14)) as int;
    let n = bytes::le_value(input.subrange(16, 20)) as int;
    if input.len() < 20 {
        Err(AudioError::UnexpectedEof)
    } else if input.take(4) != magic() {
        Err(AudioError::BadHeader)
    } else if channels == 0 || channels > 8 || (bounds.expected matches Some((r, c)) && c
        != channels) {
        Err(AudioError::BadChannels)
    } else if input[5] > 1 {
        Err(AudioError::BadHeader)
    } else if q == 0 {
        Err(AudioError::BadQuantizer)
    } else if rate < 8_000 || rate > 384_000 || (bounds.expected matches Some((r, c)) && r != rate) {
        Err(AudioError::BadRate)
    } else if frames == 0 || frames > 4096 {
        Err(AudioError::BadFrames)
    } else if bounds.strict && (input[14] != 0 || input[15] != 0) {
        Err(AudioError::BadHeader)
    } else if input.len() < 20 + n {
        Err(AudioError::UnexpectedEof)
    } else if input.len() > 20 + n {
        Err(AudioError::TrailingData)
    } else {
        match bitstream::syntax::decompressed(input.skip(20), bounds.max_entropy, bounds.fixed) {
            Err(e) => Err(AudioError::Bitstream(e)),
            Ok(tok) => match decoded_tokens(tok, frames, channels as int, q, input[5] == 1) {
                Err(e) => Err(e),
                Ok(pcm) => Ok((rate, channels, pcm)),
            },
        }
    }
}

// ---------------------------------------------------------------------------------------------
// Encoding

/// Whether stereo coupling is used.
pub open spec fn coupling(opt: EncodeOptions) -> bool {
    opt.mid_side && opt.channels == 2
}

/// Sample `f` of channel `c` to be coded, with stereo coupling applied.
pub open spec fn source(pcm: Seq<i16>, opt: EncodeOptions, c: int, f: int) -> int {
    let n = opt.channels as int;
    if coupling(opt) {
        let left = pcm[f * n] as int;
        let right = pcm[f * n + 1] as int;
        if c == 0 {
            left + (right - left) / 2
        } else {
            right - left
        }
    } else {
        pcm[f * n + c] as int
    }
}

/// The values of block `k`; past the last sample they are zero.
pub open spec fn source_block(pcm: Seq<i16>, opt: EncodeOptions, frames: int, k: int) -> Seq<int> {
    let blocks = block_count(frames);
    Seq::new(
        64,
        |i: int|
            if (k % blocks) * 64 + i < frames {
                source(pcm, opt, k / blocks, (k % blocks) * 64 + i)
            } else {
                0
            },
    )
}

/// The quantized coefficients of block `k`.
pub open spec fn coded_block(pcm: Seq<i16>, opt: EncodeOptions, frames: int, k: int) -> Seq<int> {
    quantized(haar(source_block(pcm, opt, frames, k)), opt.qstep as int)
}

pub open spec fn coded_blocks(pcm: Seq<i16>, opt: EncodeOptions) -> Seq<Seq<int>> {
    let frames = pcm.len() as int / opt.channels as int;
    Seq::new(
        (opt.channels * block_count(frames)) as nat,
        |k: int| coded_block(pcm, opt, frames, k),
    )
}

/// The tokens of a packet.
pub open spec fn tokens(pcm: Seq<i16>, opt: EncodeOptions) -> Seq<u8> {
    let frames = pcm.len() as int / opt.channels as int;
    let list = coded_blocks(pcm, opt);
    bitstream::syntax::uvarint_bytes(block_count(frames) as nat) + blocks_bytes(
        list,
        list.len() as int,
    )
}

/// The first 16 bytes of a packet.
pub open spec fn header_bytes(opt: EncodeOptions, frames: int) -> Seq<u8> {
    magic() + seq![
        opt.channels,
        if coupling(opt) {
            1u8
        } else {
            0u8
        },
    ] + bytes::le_bytes(opt.qstep as int, 2) + bytes::le_bytes(opt.sample_rate as int, 4)
        + bytes::le_bytes(frames, 2) + bytes::le_bytes(0, 2)
}

/// A packet around compressed tokens.
pub open spec fn packet_with(pcm: Seq<i16>, opt: EncodeOptions, coded: Seq<u8>) -> Seq<u8> {
    header_bytes(opt, pcm.len() as int / opt.channels as int) + bytes::le_bytes(
        coded.len() as int,
        4,
    ) + coded
}

/// Why samples cannot be coded, if they cannot.
pub open spec fn encode_error(pcm: Seq<i16>, opt: EncodeOptions) -> Option<AudioError> {
    let n = opt.channels as int;
    if n == 0 || n > 8 {
        Some(AudioError::BadChannels)
    } else if opt.sample_rate < 8_000 || opt.sample_rate > 384_000 {
        Some(AudioError::BadRate)
    } else if opt.qstep == 0 {
        Some(AudioError::BadQuantizer)
    } else if pcm.len() as int % n != 0 || pcm.len() == 0 || pcm.len() as int / n > 4096 {
        Some(AudioError::BadFrames)
    } else {
        None
    }
}

} // verus!
