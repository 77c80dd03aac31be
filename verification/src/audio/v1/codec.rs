//! ALA1 coding and decoding.
use crate::audio::v1::laws;
use crate::audio::v1::syntax;
use crate::audio::v1::{AudioError, EncodeOptions};
use crate::bitstream;
use crate::bitstream::v1::{
    entropy_compress, entropy_decompress_with_scratch, get_svarint_i32, get_uvarint, put_svarint_i32,
    put_uvarint, EntropyScratch,
};
use crate::bytes;
use crate::bytes::{get_u16_le, get_u32_le, put_slice, put_u16_le, put_u32_le};
use crate::kernels::scalar;
use crate::limits::Limits;
use crate::video::v1;
use crate::video::v1::choice;
use vstd::prelude::*;

verus! {

/// Half of a value, rounded down.
fn half(v: i64) -> (r: i64)
    requires
        -0x1_0000_0000 <= v <= 0x1_0000_0000,
    ensures
        r == v as int / 2,
{
    if v >= 0 {
        v / 2
    } else {
        -((1 - v) / 2)
    }
}

/// Transforms a block.
pub fn fwd_haar(v: &mut [i32; 64])
    requires
        syntax::within(scalar::ints(old(v)@), 65535),
    ensures
        scalar::ints(final(v)@) == syntax::haar(scalar::ints(old(v)@)),
{
    let ghost start = scalar::ints(v@);
    let mut len: usize = 64;
    assert(start.take(64) =~= start);
    assert(syntax::haar(start) =~= syntax::haar(start.take(64)) + start.skip(64)) by {
        syntax::lemma_haar_len(start);
    }
    while len > 1
        invariant
            syntax::is_block_len(len as int),
            v@.len() == 64,
            syntax::within(scalar::ints(v@).take(len as int), 65535),
            syntax::haar(start) == syntax::haar(scalar::ints(v@).take(len as int)) + scalar::ints(
                v@,
            ).skip(len as int),
        decreases len,
    {
        let half_len: usize = len / 2;
        let before: [i32; 64] = *v;
        let ghost whole = scalar::ints(before@);
        let ghost part = whole.take(len as int);
        let mut i: usize = 0;
        while i < half_len
            invariant
                syntax::is_block_len(len as int),
                half_len == len / 2,
                len >= 2,
                i <= half_len,
                v@.len() == 64,
                whole == scalar::ints(before@),
                part == whole.take(len as int),
                syntax::within(part, 65535),
                forall|j: int| 0 <= j < i ==> #[trigger] v@[j] == syntax::lows(part)[j],
                forall|j: int|
                    0 <= j < i ==> v@[half_len + j] == #[trigger] syntax::highs(part)[j],
                forall|j: int| len <= j < 64 ==> #[trigger] v@[j] == before@[j],
            decreases half_len - i,
        {
            assert(part[2 * i] == before@[2 * i] && part[2 * i + 1] == before@[2 * i + 1]);
            let a: i64 = before[2 * i] as i64;
            let b: i64 = before[2 * i + 1] as i64;
            let d: i64 = b - a;
            let s: i64 = a + half(d);
            v[i] = s as i32;
            v[half_len + i] = d as i32;
            i = i + 1;
        }
        proof {
            let after = scalar::ints(v@);
            let half = half_len as int;
            assert(after.take(half) =~= syntax::lows(part));
            assert(after.subrange(half, len as int) =~= syntax::highs(part));
            assert(after.skip(len as int) =~= whole.skip(len as int));
            assert(after.skip(half) =~= syntax::highs(part) + whole.skip(len as int));
            syntax::lemma_haar_bound(part, 65535);
            assert(syntax::haar(part) + whole.skip(len as int) =~= syntax::haar(syntax::lows(part))
                + after.skip(half));
        }
        len = half_len;
    }
    assert(scalar::ints(v@).take(1) + scalar::ints(v@).skip(1) =~= scalar::ints(v@));
}

/// The transform of a part cannot be undone, so that of the whole cannot.
proof fn lemma_unhaar_stuck(v: Seq<int>, len: int)
    requires
        v.len() == 64,
        syntax::is_block_len(len),
        syntax::unhaar(v.take(len)) is None,
    ensures
        syntax::unhaar(v) is None,
    decreases 64 - len,
{
    if len == 64 {
        assert(v.take(64) =~= v);
    } else {
        assert(v.take(2 * len).take(len) =~= v.take(len));
        lemma_unhaar_stuck(v, 2 * len);
    }
}

/// Undoes the transform of a block.
pub fn inv_haar(v: &mut [i32; 64]) -> (r: Result<(), AudioError>)
    ensures
        match r {
            Ok(()) => syntax::unhaar(scalar::ints(old(v)@)) == Some(scalar::ints(final(v)@)),
            Err(e) => syntax::unhaar(scalar::ints(old(v)@)) is None && e
                == AudioError::BadCoefficient,
        },
{
    let ghost start = scalar::ints(v@);
    let mut len: usize = 1;
    assert(scalar::ints(v@).take(1) =~= start.take(1));
    while len < 64
        invariant
            syntax::is_block_len(len as int),
            v@.len() == 64,
            start == scalar::ints(old(v)@),
            syntax::unhaar(start.take(len as int)) == Some(scalar::ints(v@).take(len as int)),
            forall|j: int| len <= j < 64 ==> #[trigger] v@[j] == start[j],
        decreases 64 - len,
    {
        let before: [i32; 64] = *v;
        let ghost s = scalar::ints(before@).take(len as int);
        let ghost d = start.subrange(len as int, 2 * len);
        let ghost goal = syntax::merged(s, d);
        assert(syntax::is_block_len(2 * len));
        assert(start.take(2 * len).take(len as int) =~= start.take(len as int));
        assert(start.take(2 * len).subrange(len as int, 2 * len) =~= d);
        let mut i: usize = 0;
        while i < len
            invariant
                syntax::is_block_len(len as int),
                len < 64,
                i <= len,
                v@.len() == 64,
                start.len() == 64,
                s == scalar::ints(before@).take(len as int),
                d == start.subrange(len as int, 2 * len),
                goal == syntax::merged(s, d),
                forall|j: int| len <= j < 64 ==> #[trigger] before@[j] == start[j],
                forall|j: int| 0 <= j < 2 * i ==> #[trigger] v@[j] == goal[j],
                forall|j: int| 2 * len <= j < 64 ==> #[trigger] v@[j] == start[j],
                forall|j: int| 0 <= j < 2 * i ==> i32::MIN <= #[trigger] goal[j] <= i32::MAX,
                start == scalar::ints(old(v)@),
                syntax::unhaar(start.take(2 * len)) == (if syntax::fits(goal) {
                    Some(goal)
                } else {
                    None
                }),
            decreases len - i,
        {
            let low: i64 = before[i] as i64;
            let high: i64 = before[len + i] as i64;
            let a: i64 = low - half(high);
            let b: i64 = high + a;
            proof {
                assert(s[i as int] == low && d[i as int] == high);
                assert(goal[2 * i] == a);
                assert(goal[2 * i + 1] == b);
            }
            if a < -0x8000_0000 || a > 0x7fff_ffff || b < -0x8000_0000 || b > 0x7fff_ffff {
                proof {
                    assert(!syntax::fits(goal));
                    lemma_unhaar_stuck(start, 2 * len);
                }
                return Err(AudioError::BadCoefficient);
            }
            v[2 * i] = a as i32;
            v[2 * i + 1] = b as i32;
            i = i + 1;
        }
        assert(scalar::ints(v@).take(2 * len) =~= goal);
        len = 2 * len;
    }
    assert(start.take(64) =~= start);
    assert(scalar::ints(v@).take(64) =~= scalar::ints(v@));
    Ok(())
}

/// The quantizer step of coefficient `i`.
pub fn q_for(i: usize, q: i32) -> (r: i32)
    requires
        0 <= q <= 65535,
    ensures
        r == syntax::step(i as int, q as int),
        1 <= r <= 196_605,
{
    if q <= 1 {
        1
    } else if i < 4 {
        q
    } else if i < 16 {
        2 * q
    } else {
        3 * q
    }
}

/// `v / d` rounded to the nearest integer, halves away from zero.
fn div_round(v: i32, d: i32) -> (r: i32)
    requires
        1 <= d <= 196_605,
        -1_000_000 <= v <= 1_000_000,
    ensures
        r == scalar::rounded_div(v as int, d as int),
{
    proof {
        choice::lemma_rounded(v as int, d as int);
        scalar::lemma_abs(v as int);
    }
    if v >= 0 {
        (v + d / 2) / d
    } else {
        -((-v + d / 2) / d)
    }
}

// ---------------------------------------------------------------------------------------------
// Encoding

/// Block `k` of the samples, before its transform.
fn gather(pcm: &[i16], opt: &EncodeOptions, frames: usize, blocks: usize, k: usize) -> (r: [i32; 64])
    requires
        laws::codable(pcm@, *opt),
        frames == pcm@.len() as int / opt.channels as int,
        blocks == syntax::block_count(frames as int),
        k < opt.channels * blocks,
    ensures
        scalar::ints(r@) == syntax::source_block(pcm@, *opt, frames as int, k as int),
        syntax::within(scalar::ints(r@), 65535),
{
    let n: usize = opt.channels as usize;
    proof {
        laws::lemma_frames(pcm@, *opt);
        assert(blocks * n == n * blocks) by (nonlinear_arith);
        v1::syntax::lemma_index_inverse(blocks as int, n as int, k as int);
    }
    let c: usize = k / blocks;
    let first: usize = (k % blocks) * 64;
    let coupled: bool = opt.mid_side && n == 2;
    let mut r: [i32; 64] = [0;64];
    let mut i: usize = 0;
    while i < 64
        invariant
            laws::codable(pcm@, *opt),
            frames == pcm@.len() as int / opt.channels as int,
            frames * n == pcm@.len(),
            1 <= frames <= 4096,
            1 <= n <= 8,
            n == opt.channels,
            c < n,
            c == k as int / blocks as int,
            first == (k as int % blocks as int) * 64,
            first <= 4096,
            blocks == syntax::block_count(frames as int),
            coupled == syntax::coupling(*opt),
            i <= 64,
            r@.len() == 64,
            forall|j: int|
                0 <= j < i ==> #[trigger] r@[j] == syntax::source_block(
                    pcm@,
                    *opt,
                    frames as int,
                    k as int,
                )[j],
            forall|j: int| i <= j < 64 ==> #[trigger] r@[j] == 0,
        decreases 64 - i,
    {
        let f: usize = first + i;
        if f < frames {
            proof {
                v1::syntax::lemma_index(n as int, frames as int, c as int, f as int);
                v1::syntax::lemma_index(n as int, frames as int, 0, f as int);
                v1::syntax::lemma_index(n as int, frames as int, n - 1, f as int);
                assert(n * frames == frames * n) by (nonlinear_arith);
                assert(f * n <= 4096 * 8) by (nonlinear_arith)
                    requires
                        f <= 4096,
                        n <= 8,
                ;
            }
            let at: usize = f * n;
            if coupled {
                let left: i32 = pcm[at] as i32;
                let right: i32 = pcm[at + 1] as i32;
                if c == 0 {
                    r[i] = left + half((right - left) as i64) as i32;
                } else {
                    r[i] = right - left;
                }
            } else {
                r[i] = pcm[at + c] as i32;
            }
        }
        i = i + 1;
    }
    assert(scalar::ints(r@) =~= syntax::source_block(pcm@, *opt, frames as int, k as int));
    r
}

/// Appends the tokens of a block of quantized coefficients.
fn put_block(v: &[i32; 64], out: &mut Vec<u8>)
    ensures
        final(out)@ == old(out)@ + syntax::block_bytes(scalar::ints(v@)),
{
    let ghost list = scalar::ints(v@);
    let mut n: u64 = 0;
    let mut i: usize = 64;
    while i > 0
        invariant
            i <= 64,
            list == scalar::ints(v@),
            n == syntax::nonzero_from(list, i as int),
            n <= 64 - i,
        decreases i,
    {
        i = i - 1;
        if v[i] != 0 {
            n = n + 1;
        }
    }
    put_uvarint(n, out);
    let ghost goal = out@ + syntax::value_bytes(list, 0);
    let mut i: usize = 0;
    while i < 64
        invariant
            i <= 64,
            list == scalar::ints(v@),
            out@ + syntax::value_bytes(list, i as int) == goal,
        decreases 64 - i,
    {
        if v[i] != 0 {
            let ghost before = out@;
            put_uvarint(i as u64, out);
            put_svarint_i32(v[i], out);
            proof {
                assert(before + syntax::value_bytes(list, i as int) =~= out@ + syntax::value_bytes(
                    list,
                    i + 1,
                ));
            }
        }
        i = i + 1;
    }
    assert(out@ + Seq::<u8>::empty() =~= out@);
    assert(out@ =~= old(out)@ + syntax::block_bytes(list));
}

proof fn lemma_value_bytes_len(v: Seq<int>, i: int)
    requires
        v.len() == 64,
        0 <= i <= 64,
        forall|j: int| 0 <= j < 64 ==> i32::MIN <= #[trigger] v[j] <= i32::MAX,
    ensures
        syntax::value_bytes(v, i).len() <= 11 * (64 - i),
    decreases 64 - i,
{
    if i < 64 {
        lemma_value_bytes_len(v, i + 1);
        bitstream::syntax::lemma_uvarint_bytes_len(i as nat);
        bitstream::syntax::lemma_uvarint_bytes_len(bitstream::syntax::zigzag(v[i]));
    }
}

/// Quantizes the transform of a block.
fn quantize(v: &[i32; 64], q: u16) -> (r: [i32; 64])
    requires
        syntax::within(scalar::ints(v@), 131_070),
    ensures
        scalar::ints(r@) == syntax::quantized(scalar::ints(v@), q as int),
{
    let mut r: [i32; 64] = [0;64];
    let mut i: usize = 0;
    while i < 64
        invariant
            i <= 64,
            v@.len() == 64,
            r@.len() == 64,
            syntax::within(scalar::ints(v@), 131_070),
            forall|j: int|
                0 <= j < i ==> #[trigger] r@[j] == syntax::quantized(scalar::ints(v@), q as int)[j],
        decreases 64 - i,
    {
        assert(scalar::ints(v@)[i as int] == v@[i as int]);
        r[i] = div_round(v[i], q_for(i, q as i32));
        i = i + 1;
    }
    assert(scalar::ints(r@) =~= syntax::quantized(scalar::ints(v@), q as int));
    r
}

/// The tokens of a packet.
pub fn encode_tokens(pcm: &[i16], opt: &EncodeOptions) -> (r: Vec<u8>)
    requires
        laws::codable(pcm@, *opt),
    ensures
        r@ == syntax::tokens(pcm@, *opt),
        r@.len() <= 400_000,
{
    let n: usize = opt.channels as usize;
    let frames: usize = pcm.len() / n;
    let blocks: usize = (frames + 63) / 64;
    let ghost list = syntax::coded_blocks(pcm@, *opt);
    proof {
        laws::lemma_frames(pcm@, *opt);
        assert(n * blocks <= 512) by (nonlinear_arith)
            requires
                n <= 8,
                blocks <= 64,
        ;
        bitstream::syntax::lemma_uvarint_bytes_len(blocks as nat);
    }
    let mut out: Vec<u8> = Vec::new();
    put_uvarint(blocks as u64, &mut out);
    let ghost head = out@;
    let total: usize = n * blocks;
    let mut k: usize = 0;
    assert(out@ =~= head + syntax::blocks_bytes(list, 0));
    while k < total
        invariant
            laws::codable(pcm@, *opt),
            n == opt.channels,
            frames == pcm@.len() as int / opt.channels as int,
            blocks == syntax::block_count(frames as int),
            total == n * blocks,
            total <= 512,
            list == syntax::coded_blocks(pcm@, *opt),
            list.len() == total,
            k <= total,
            out@ == head + syntax::blocks_bytes(list, k as int),
            head.len() <= 10,
            out@.len() <= 10 + 714 * k,
        decreases total - k,
    {
        let mut v: [i32; 64] = gather(pcm, opt, frames, blocks, k);
        proof {
            syntax::lemma_haar_bound(scalar::ints(v@), 65535);
            syntax::lemma_haar_len(scalar::ints(v@));
        }
        fwd_haar(&mut v);
        let coeff: [i32; 64] = quantize(&v, opt.qstep);
        assert(scalar::ints(coeff@) == list[k as int]);
        put_block(&coeff, &mut out);
        proof {
            assert(out@ =~= head + syntax::blocks_bytes(list, k + 1));
            lemma_value_bytes_len(scalar::ints(coeff@), 0);
            assert(syntax::nonzero_from(scalar::ints(coeff@), 0) <= 64) by {
                laws::lemma_nonzero(scalar::ints(coeff@), 0);
            }
            bitstream::syntax::lemma_uvarint_bytes_len(
                syntax::nonzero_from(scalar::ints(coeff@), 0),
            );
        }
        k = k + 1;
    }
    assert(out@ =~= syntax::tokens(pcm@, *opt));
    out
}

/// Checks options and samples.
pub fn check_options(pcm: &[i16], opt: &EncodeOptions) -> (r: Result<(), AudioError>)
    ensures
        match r {
            Ok(()) => syntax::encode_error(pcm@, *opt) is None,
            Err(e) => syntax::encode_error(pcm@, *opt) == Some(e),
        },
{
    let n: usize = opt.channels as usize;
    if n == 0 || n > 8 {
        return Err(AudioError::BadChannels);
    }
    if opt.sample_rate < 8_000 || opt.sample_rate > 384_000 {
        return Err(AudioError::BadRate);
    }
    if opt.qstep == 0 {
        return Err(AudioError::BadQuantizer);
    }
    if pcm.len() % n != 0 || pcm.len() == 0 || pcm.len() / n > 4096 {
        return Err(AudioError::BadFrames);
    }
    Ok(())
}

/// A packet around compressed tokens.
pub fn wrap(pcm: &[i16], opt: &EncodeOptions, coded: &Vec<u8>) -> (r: Vec<u8>)
    requires
        laws::codable(pcm@, *opt),
        coded@.len() <= u32::MAX,
    ensures
        r@ == syntax::packet_with(pcm@, *opt, coded@),
{
    proof {
        laws::lemma_frames(pcm@, *opt);
    }
    let n: usize = opt.channels as usize;
    let frames: usize = pcm.len() / n;
    let mut out: Vec<u8> = vec![65, 76, 65, 49];
    out.push(opt.channels);
    out.push(
        if opt.mid_side && n == 2 {
            1
        } else {
            0
        },
    );
    put_u16_le(opt.qstep, &mut out);
    put_u32_le(opt.sample_rate, &mut out);
    put_u16_le(frames as u16, &mut out);
    put_u16_le(0, &mut out);
    put_u32_le(coded.len() as u32, &mut out);
    put_slice(coded, &mut out);
    assert(out@ =~= syntax::packet_with(pcm@, *opt, coded@));
    out
}

// ---------------------------------------------------------------------------------------------
// Decoding

/// Reads the coefficients of one block, scaled by their steps.
fn read_values(tok: &[u8], pos: &mut usize, count: u64, q: u16) -> (r: Result<
    [i32; 64],
    AudioError,
>)
    requires
        count <= 64,
    ensures
        match r {
            Ok(v) => syntax::read_values(
                tok@,
                *old(pos) as int,
                count as nat,
                -1,
                q as int,
                syntax::silence(),
            ) == Ok::<(Seq<int>, int), AudioError>((scalar::ints(v@), *final(pos) as int)),
            Err(e) => syntax::read_values(
                tok@,
                *old(pos) as int,
                count as nat,
                -1,
                q as int,
                syntax::silence(),
            ) == Err::<(Seq<int>, int), AudioError>(e),
        },
{
    let mut v: [i32; 64] = [0;64];
    let mut left: u64 = count;
    let mut last: i64 = -1;
    let ghost goal = syntax::read_values(
        tok@,
        *old(pos) as int,
        count as nat,
        -1,
        q as int,
        syntax::silence(),
    );
    assert(scalar::ints(v@) =~= syntax::silence());
    while left > 0
        invariant
            left <= 64,
            -1 <= last < 64,
            v@.len() == 64,
            goal == syntax::read_values(
                tok@,
                *old(pos) as int,
                count as nat,
                -1,
                q as int,
                syntax::silence(),
            ),
            goal == syntax::read_values(
                tok@,
                *pos as int,
                left as nat,
                last as int,
                q as int,
                scalar::ints(v@),
            ),
        decreases left,
    {
        let i: u64 = match get_uvarint(tok, pos) {
            Ok(i) => i,
            Err(e) => {
                return Err(AudioError::Bitstream(e));
            },
        };
        if i >= 64 || i as i64 <= last {
            return Err(AudioError::BadCoefficient);
        }
        let c: i32 = match get_svarint_i32(tok, pos) {
            Ok(c) => c,
            Err(e) => {
                return Err(AudioError::Bitstream(e));
            },
        };
        if c < -2_000_000 || c > 2_000_000 {
            return Err(AudioError::BadCoefficient);
        }
        let s: i32 = q_for(i as usize, q as i32);
        proof {
            assert(-400_000_000_000 <= c * s <= 400_000_000_000) by (nonlinear_arith)
                requires
                    -2_000_000 <= c <= 2_000_000,
                    1 <= s <= 196_605,
            ;
        }
        let scaled: i64 = c as i64 * s as i64;
        if scaled < -0x8000_0000 || scaled > 0x7fff_ffff {
            return Err(AudioError::BadCoefficient);
        }
        let ghost before = scalar::ints(v@);
        v[i as usize] = scaled as i32;
        assert(scalar::ints(v@) =~= before.update(i as int, scaled as int));
        last = i as i64;
        left = left - 1;
    }
    Ok(v)
}

/// Reads one block.
fn read_block(tok: &[u8], pos: &mut usize, q: u16) -> (r: Result<[i32; 64], AudioError>)
    ensures
        match r {
            Ok(v) => syntax::read_block(tok@, *old(pos) as int, q as int) == Ok::<
                (Seq<int>, int),
                AudioError,
            >((scalar::ints(v@), *final(pos) as int)),
            Err(e) => syntax::read_block(tok@, *old(pos) as int, q as int) == Err::<
                (Seq<int>, int),
                AudioError,
            >(e),
        },
{
    let count: u64 = match get_uvarint(tok, pos) {
        Ok(count) => count,
        Err(e) => {
            return Err(AudioError::Bitstream(e));
        },
    };
    if count > 64 {
        return Err(AudioError::BadCoefficient);
    }
    let mut v: [i32; 64] = match read_values(tok, pos, count, q) {
        Ok(v) => v,
        Err(e) => {
            return Err(e);
        },
    };
    match inv_haar(&mut v) {
        Ok(()) => Ok(v),
        Err(e) => Err(e),
    }
}

/// What blocks hold.
pub open spec fn block_values(list: Seq<[i32; 64]>) -> Seq<Seq<int>> {
    Seq::new(list.len(), |k: int| scalar::ints(list[k]@))
}

/// Reads all blocks of a packet.
fn read_blocks(tok: &[u8], pos: &mut usize, total: usize, q: u16) -> (r: Result<
    Vec<[i32; 64]>,
    AudioError,
>)
    ensures
        match r {
            Ok(list) => syntax::read_blocks(
                tok@,
                *old(pos) as int,
                total as nat,
                q as int,
                Seq::empty(),
            ) == Ok::<(Seq<Seq<int>>, int), AudioError>((block_values(list@), *final(pos) as int))
                && list@.len() == total,
            Err(e) => syntax::read_blocks(
                tok@,
                *old(pos) as int,
                total as nat,
                q as int,
                Seq::empty(),
            ) == Err::<(Seq<Seq<int>>, int), AudioError>(e),
        },
{
    let ghost goal = syntax::read_blocks(
        tok@,
        *old(pos) as int,
        total as nat,
        q as int,
        Seq::empty(),
    );
    let mut list: Vec<[i32; 64]> = Vec::new();
    let mut k: usize = 0;
    assert(block_values(list@) =~= Seq::empty());
    while k < total
        invariant
            k <= total,
            list@.len() == k,
            goal == syntax::read_blocks(
                tok@,
                *old(pos) as int,
                total as nat,
                q as int,
                Seq::empty(),
            ),
            goal == syntax::read_blocks(
                tok@,
                *pos as int,
                (total - k) as nat,
                q as int,
                block_values(list@),
            ),
        decreases total - k,
    {
        let ghost before = block_values(list@);
        match read_block(tok, pos, q) {
            Ok(v) => {
                list.push(v);
                assert(block_values(list@) =~= before.push(scalar::ints(v@)));
            },
            Err(e) => {
                return Err(e);
            },
        }
        k = k + 1;
    }
    Ok(list)
}

/// The samples that blocks hold, interleaved.
fn interleave(list: &Vec<[i32; 64]>, frames: usize, channels: usize, coupled: bool) -> (r: Result<
    Vec<i16>,
    AudioError,
>)
    requires
        1 <= frames <= 4096,
        1 <= channels <= 8,
        list@.len() == channels * syntax::block_count(frames as int),
        coupled ==> channels == 2,
    ensures
        ({
            let samples = syntax::interleaved(
                block_values(list@),
                frames as int,
                channels as int,
                coupled,
            );
            match r {
                Ok(pcm) => syntax::audible(samples) && pcm@ == syntax::to_pcm(samples),
                Err(e) => !syntax::audible(samples) && e == AudioError::SampleOverflow,
            }
        }),
{
    let blocks: usize = (frames + 63) / 64;
    let ghost values = block_values(list@);
    let ghost samples = syntax::interleaved(values, frames as int, channels as int, coupled);
    proof {
        assert(frames * channels <= 4096 * 8) by (nonlinear_arith)
            requires
                frames <= 4096,
                channels <= 8,
        ;
    }
    let total: usize = frames * channels;
    let mut pcm: Vec<i16> = Vec::new();
    let mut i: usize = 0;
    while i < total
        invariant
            1 <= frames <= 4096,
            1 <= channels <= 8,
            blocks == syntax::block_count(frames as int),
            list@.len() == channels * blocks,
            coupled ==> channels == 2,
            values == block_values(list@),
            samples == syntax::interleaved(values, frames as int, channels as int, coupled),
            total == frames * channels,
            i <= total,
            pcm@.len() == i,
            forall|j: int|
                0 <= j < i ==> pcm@[j] == #[trigger] samples[j] && i16::MIN <= samples[j]
                    <= i16::MAX,
        decreases total - i,
    {
        let c: usize = i % channels;
        let f: usize = i / channels;
        proof {
            assert(channels * frames == frames * channels) by (nonlinear_arith);
            assert(blocks * channels == channels * blocks) by (nonlinear_arith);
            v1::syntax::lemma_index_inverse(channels as int, frames as int, i as int);
            v1::syntax::lemma_index(blocks as int, channels as int, f as int / 64, c as int);
            v1::syntax::lemma_index(blocks as int, channels as int, f as int / 64, 0);
            v1::syntax::lemma_index(blocks as int, channels as int, f as int / 64, channels - 1);
            assert(c * blocks <= 8 * 64) by (nonlinear_arith)
                requires
                    c <= 8,
                    blocks <= 64,
            ;
        }
        let sample: i64 = if coupled {
            let mid: i64 = list[f / 64][f % 64] as i64;
            let side: i64 = list[blocks + f / 64][f % 64] as i64;
            let left: i64 = mid - half(side);
            assert(values[0 * blocks + f as int / 64] == scalar::ints(list@[f as int / 64]@));
            assert(values[1 * blocks + f as int / 64] == scalar::ints(
                list@[blocks + f as int / 64]@,
            ));
            if c == 0 {
                left
            } else {
                side + left
            }
        } else {
            assert(values[c * blocks + f as int / 64] == scalar::ints(
                list@[c * blocks + f as int / 64]@,
            ));
            list[c * blocks + f / 64][f % 64] as i64
        };
        assert(sample == samples[i as int]);
        if sample < -32768 || sample > 32767 {
            return Err(AudioError::SampleOverflow);
        }
        pcm.push(sample as i16);
        i = i + 1;
    }
    assert(pcm@ =~= syntax::to_pcm(samples));
    Ok(pcm)
}

/// Decodes the tokens of a packet.
pub fn decode_tokens(tok: &[u8], frames: usize, channels: usize, q: u16, coupled: bool) -> (r: Result<
    Vec<i16>,
    AudioError,
>)
    requires
        1 <= frames <= 4096,
        1 <= channels <= 8,
    ensures
        match r {
            Ok(pcm) => syntax::decoded_tokens(
                tok@,
                frames as int,
                channels as int,
                q as int,
                coupled,
            ) == Ok::<Seq<i16>, AudioError>(pcm@),
            Err(e) => syntax::decoded_tokens(
                tok@,
                frames as int,
                channels as int,
                q as int,
                coupled,
            ) == Err::<Seq<i16>, AudioError>(e),
        },
{
    let mut pos: usize = 0;
    let blocks: u64 = match get_uvarint(tok, &mut pos) {
        Ok(blocks) => blocks,
        Err(e) => {
            return Err(AudioError::Bitstream(e));
        },
    };
    let count: usize = (frames + 63) / 64;
    if blocks != count as u64 {
        return Err(AudioError::BadHeader);
    }
    proof {
        assert(channels * count <= 512) by (nonlinear_arith)
            requires
                channels <= 8,
                count <= 64,
        ;
    }
    let list: Vec<[i32; 64]> = match read_blocks(tok, &mut pos, channels * count, q) {
        Ok(list) => list,
        Err(e) => {
            return Err(e);
        },
    };
    if pos != tok.len() {
        return Err(AudioError::TrailingData);
    }
    if coupled && channels != 2 {
        return Err(AudioError::BadHeader);
    }
    interleave(&list, frames, channels, coupled)
}

/// What the header of a packet says.
#[derive(Debug, Clone, Copy, PartialEq, Eq, Structural)]
pub struct Header {
    pub sample_rate: u32,
    pub channels: u8,
    pub coupled: bool,
    pub qstep: u16,
    pub frames: u16,
}

/// The packet whose header reads so comes out as its tokens do.
pub open spec fn opens(input: Seq<u8>, bounds: syntax::Bounds, h: Header) -> bool {
    &&& 1 <= h.channels <= 8
    &&& 1 <= h.frames <= 4096
    &&& input.len() >= 20
    &&& syntax::decoded_packet(input, bounds) == (match bitstream::syntax::decompressed(
        input.skip(20),
        bounds.max_entropy,
        bounds.fixed,
    ) {
        Err(e) => Err::<(u32, u8, Seq<i16>), AudioError>(AudioError::Bitstream(e)),
        Ok(tok) => match syntax::decoded_tokens(
            tok,
            h.frames as int,
            h.channels as int,
            h.qstep as int,
            h.coupled,
        ) {
            Err(e) => Err(e),
            Ok(pcm) => Ok((h.sample_rate, h.channels, pcm)),
        },
    })
}

/// Whether a packet starts with the codec magic.
fn has_magic(input: &[u8]) -> (r: bool)
    requires
        input@.len() >= 4,
    ensures
        r == (input@.take(4) == syntax::magic()),
{
    let r: bool = input[0] == 65 && input[1] == 76 && input[2] == 65 && input[3] == 49;
    proof {
        if r {
            assert(input@.take(4) =~= syntax::magic());
        } else {
            let (a, b) = (input@.take(4), syntax::magic());
            assert(a[0] != b[0] || a[1] != b[1] || a[2] != b[2] || a[3] != b[3]);
        }
    }
    r
}

/// Reads and validates the header of a packet.
pub(crate) fn read_header(
    input: &[u8],
    expected: Option<(u32, u8)>,
    strict: bool,
    Ghost(max_entropy): Ghost<nat>,
    Ghost(fixed): Ghost<bool>,
) -> (r: Result<Header, AudioError>)
    ensures
        ({
            let bounds = syntax::Bounds { max_entropy, expected, strict, fixed };
            match r {
                Ok(h) => opens(input@, bounds, h),
                Err(e) => syntax::decoded_packet(input@, bounds) == Err::<
                    (u32, u8, Seq<i16>),
                    AudioError,
                >(e),
            }
        }),
{
    if input.len() < 20 {
        return Err(AudioError::UnexpectedEof);
    }
    if !has_magic(input) {
        return Err(AudioError::BadHeader);
    }
    let channels: u8 = input[4];
    if channels == 0 || channels > 8 {
        return Err(AudioError::BadChannels);
    }
    match expected {
        Some((_, c)) => {
            if c != channels {
                return Err(AudioError::BadChannels);
            }
        },
        None => {},
    }
    if input[5] > 1 {
        return Err(AudioError::BadHeader);
    }
    let qstep: u16 = get_u16_le(input, 6);
    if qstep == 0 {
        return Err(AudioError::BadQuantizer);
    }
    let sample_rate: u32 = get_u32_le(input, 8);
    if sample_rate < 8_000 || sample_rate > 384_000 {
        return Err(AudioError::BadRate);
    }
    match expected {
        Some((rate, _)) => {
            if rate != sample_rate {
                return Err(AudioError::BadRate);
            }
        },
        None => {},
    }
    let frames: u16 = get_u16_le(input, 12);
    if frames == 0 || frames > 4096 {
        return Err(AudioError::BadFrames);
    }
    if strict && (input[14] != 0 || input[15] != 0) {
        return Err(AudioError::BadHeader);
    }
    let n: u32 = get_u32_le(input, 16);
    let body: u64 = input.len() as u64 - 20;
    if body < n as u64 {
        return Err(AudioError::UnexpectedEof);
    }
    if body > n as u64 {
        return Err(AudioError::TrailingData);
    }
    Ok(Header { sample_rate, channels, coupled: input[5] == 1, qstep, frames })
}

/// What decoding a packet gives.
pub open spec fn decode_result(
    spec: Result<(u32, u8, Seq<i16>), AudioError>,
    r: Result<(u32, u8, Vec<i16>), AudioError>,
) -> bool {
    match r {
        Ok((rate, channels, pcm)) => spec == Ok::<(u32, u8, Seq<i16>), AudioError>(
            (rate, channels, pcm@),
        ),
        Err(e) => spec == Err::<(u32, u8, Seq<i16>), AudioError>(e),
    }
}

/// What a decoder with this ceiling, for this stream, asks of a packet.
pub open spec fn bounds(max_entropy_bytes: usize, expected: Option<(u32, u8)>) -> syntax::Bounds {
    syntax::Bounds {
        max_entropy: max_entropy_bytes as nat,
        expected,
        strict: true,
        fixed: false,
    }
}

/// Decodes one packet with explicit limits.
fn decode_with(
    input: &[u8],
    max_entropy_bytes: usize,
    expected: Option<(u32, u8)>,
    scratch: &mut EntropyScratch,
) -> (r: Result<(u32, u8, Vec<i16>), AudioError>)
    ensures
        decode_result(syntax::decoded_packet(input@, bounds(max_entropy_bytes, expected)), r),
{
    let h: Header = match read_header(
        input,
        expected,
        true,
        Ghost(max_entropy_bytes as nat),
        Ghost(false),
    ) {
        Ok(h) => h,
        Err(e) => {
            return Err(e);
        },
    };
    assert(input@.subrange(20, input@.len() as int) =~= input@.skip(20));
    match entropy_decompress_with_scratch(&input[20..input.len()], max_entropy_bytes, scratch) {
        Err(e) => Err(AudioError::Bitstream(e)),
        Ok(tok) => match decode_tokens(
            tok,
            h.frames as usize,
            h.channels as usize,
            h.qstep,
            h.coupled,
        ) {
            Ok(pcm) => Ok((h.sample_rate, h.channels, pcm)),
            Err(e) => Err(e),
        },
    }
}

/// Decodes one complete ALA1 packet to `(sample_rate, channels, interleaved_pcm)`.
pub fn decode(input: &[u8]) -> (r: Result<(u32, u8, Vec<i16>), AudioError>)
    ensures
        decode_result(syntax::decoded_packet(input@, bounds(8_388_608, None)), r),
{
    let limits: Limits = Limits::default();
    let mut scratch: EntropyScratch = EntropyScratch::new();
    decode_with(input, limits.max_entropy_bytes, None, &mut scratch)
}

/// Why samples are refused, if they are: also where their reconstruction leaves the 16-bit range.
pub open spec fn refused(pcm: Seq<i16>, opt: EncodeOptions) -> Option<AudioError> {
    match syntax::encode_error(pcm, opt) {
        Some(e) => Some(e),
        None => if syntax::audible(laws::reconstruction(pcm, opt)) {
            None
        } else {
            Some(AudioError::SampleOverflow)
        },
    }
}

/// The packet of samples.
pub open spec fn packet_bytes(pcm: Seq<i16>, opt: EncodeOptions) -> Seq<u8> {
    syntax::packet_with(pcm, opt, bitstream::syntax::compressed(syntax::tokens(pcm, opt)))
}

/// Whatever is encoded can be decoded: the packet gives the reconstruction, with the rate and
/// channel count of the samples; and a quantizer step of one gives the samples themselves.
pub proof fn law_encode_decode(
    pcm: Seq<i16>,
    opt: EncodeOptions,
    max_entropy_bytes: usize,
    expected: Option<(u32, u8)>,
)
    requires
        refused(pcm, opt) is None,
        syntax::tokens(pcm, opt).len() <= max_entropy_bytes,
        expected matches Some((rate, channels)) ==> rate == opt.sample_rate && channels
            == opt.channels,
    ensures
        syntax::decoded_packet(packet_bytes(pcm, opt), bounds(max_entropy_bytes, expected)) == Ok::<
            (u32, u8, Seq<i16>),
            AudioError,
        >(
            (
                opt.sample_rate,
                opt.channels,
                syntax::to_pcm(laws::reconstruction(pcm, opt)),
            ),
        ),
        opt.qstep == 1 ==> syntax::to_pcm(laws::reconstruction(pcm, opt)) == pcm,
{
    law_tokens_short(pcm, opt);
    let tok = syntax::tokens(pcm, opt);
    let b = bounds(max_entropy_bytes, expected);
    bitstream::syntax::law_entropy_round_trip(tok, b.max_entropy, false);
    laws::law_packet_decodes(pcm, opt, bitstream::syntax::compressed(tok), b);
    if opt.qstep == 1 {
        laws::law_lossless(pcm, opt);
    }
}

/// At a quantizer step of one no samples are refused that the options allow.
pub proof fn law_lossless_taken(pcm: Seq<i16>, opt: EncodeOptions)
    requires
        syntax::encode_error(pcm, opt) is None,
        opt.qstep == 1,
    ensures
        refused(pcm, opt) is None,
{
    laws::law_lossless(pcm, opt);
}

proof fn lemma_blocks_short(pcm: Seq<i16>, opt: EncodeOptions, k: int)
    requires
        laws::codable(pcm, opt),
        0 <= k <= syntax::coded_blocks(pcm, opt).len(),
    ensures
        syntax::blocks_bytes(syntax::coded_blocks(pcm, opt), k).len() <= 714 * k,
    decreases k,
{
    if k > 0 {
        lemma_blocks_short(pcm, opt, k - 1);
        let frames = pcm.len() as int / opt.channels as int;
        let v = syntax::coded_block(pcm, opt, frames, k - 1);
        laws::lemma_coded_block(pcm, opt, frames, k - 1);
        laws::lemma_nonzero(v, 0);
        lemma_value_bytes_len(v, 0);
        bitstream::syntax::lemma_uvarint_bytes_len(syntax::nonzero_from(v, 0));
    }
}

/// The tokens of a packet never take more than 400 000 bytes.
pub proof fn law_tokens_short(pcm: Seq<i16>, opt: EncodeOptions)
    requires
        laws::codable(pcm, opt),
    ensures
        syntax::tokens(pcm, opt).len() <= 400_000,
{
    let list = syntax::coded_blocks(pcm, opt);
    let frames = pcm.len() as int / opt.channels as int;
    let n = opt.channels as int;
    let blocks = syntax::block_count(frames);
    laws::lemma_frames(pcm, opt);
    assert(n * blocks <= 512) by (nonlinear_arith)
        requires
            0 <= n <= 8,
            0 <= blocks <= 64,
    ;
    bitstream::syntax::lemma_uvarint_bytes_len(blocks as nat);
    lemma_blocks_short(pcm, opt, list.len() as int);
}

/// Encodes one interleaved signed-16 PCM packet into ALA1.
pub fn encode(interleaved: &[i16], opt: EncodeOptions) -> (r: Result<Vec<u8>, AudioError>)
    ensures
        match r {
            Ok(packet) => refused(interleaved@, opt) is None && packet@ == packet_bytes(
                interleaved@,
                opt,
            ),
            Err(e) => refused(interleaved@, opt) == Some(e),
        },
{
    match check_options(interleaved, &opt) {
        Ok(()) => {},
        Err(e) => {
            return Err(e);
        },
    }
    let tok: Vec<u8> = encode_tokens(interleaved, &opt);
    proof {
        bitstream::syntax::law_entropy_round_trip(tok@, 8_388_608, false);
        laws::law_packet_decodes(
            interleaved@,
            opt,
            bitstream::syntax::compressed(tok@),
            bounds(8_388_608, None),
        );
    }
    let coded: Vec<u8> = entropy_compress(&tok);
    let packet: Vec<u8> = wrap(interleaved, &opt, &coded);
    match decode(&packet) {
        Ok(_) => Ok(packet),
        Err(e) => Err(e),
    }
}

/// Stateful decoder: limits, what the stream declares, and storage to reuse.
#[derive(Debug)]
pub struct AudioDecoder {
    pub scratch: EntropyScratch,
    pub max_entropy_bytes: usize,
    pub expected: Option<(u32, u8)>,
}

impl Default for AudioDecoder {
    fn default() -> (r: Self)
        ensures
            r.bounds() == bounds(8_388_608, None),
    {
        AudioDecoder::new()
    }
}

impl AudioDecoder {
    pub open spec fn bounds(&self) -> syntax::Bounds {
        bounds(self.max_entropy_bytes, self.expected)
    }

    /// Creates a decoder with default limits.
    pub fn new() -> (r: Self)
        ensures
            r.bounds() == bounds(8_388_608, None),
    {
        AudioDecoder::with_limits(Limits::default())
    }

    /// Creates a decoder with explicit limits.
    pub fn with_limits(limits: Limits) -> (r: Self)
        ensures
            r.bounds() == bounds(limits.max_entropy_bytes, None),
    {
        AudioDecoder {
            scratch: EntropyScratch::new(),
            max_entropy_bytes: limits.max_entropy_bytes,
            expected: None,
        }
    }

    /// Creates a decoder for a stream that declares its rate and channel count: no others are taken.
    pub fn for_stream(limits: Limits, sample_rate: u32, channels: u8) -> (r: Self)
        ensures
            r.bounds() == bounds(limits.max_entropy_bytes, Some((sample_rate, channels))),
    {
        AudioDecoder {
            scratch: EntropyScratch::new(),
            max_entropy_bytes: limits.max_entropy_bytes,
            expected: Some((sample_rate, channels)),
        }
    }

    /// Decodes one packet.
    pub fn decode(&mut self, packet: &[u8]) -> (r: Result<(u32, u8, Vec<i16>), AudioError>)
        ensures
            decode_result(syntax::decoded_packet(packet@, old(self).bounds()), r),
            final(self).bounds() == old(self).bounds(),
    {
        decode_with(packet, self.max_entropy_bytes, self.expected, &mut self.scratch)
    }
}

} // verus!
