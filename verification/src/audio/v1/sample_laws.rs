//! What coded samples mean.
use crate::audio::v1::syntax;
use crate::audio::v1::{AudioError, EncodeOptions};
use crate::bitstream;
use crate::container::v1::layout_laws;
use vstd::prelude::*;

verus! {

// ---------------------------------------------------------------------------------------------
// Packets

/// A packet that is accepted: `ALA1`, the number of channels, whether two channels are coupled, the
/// quantizer step, the sample rate, the number of samples of a channel, two bytes that are zero for a
/// strict reader, and the length of the rest. The samples are those of all channels.
pub proof fn law_packet_layout(
    input: Seq<u8>,
    bounds: syntax::Bounds,
    rate: u32,
    channels: u8,
    pcm: Seq<i16>,
)
    requires
        syntax::decoded_packet(input, bounds) == Ok::<(u32, u8, Seq<i16>), AudioError>(
            (rate, channels, pcm),
        ),
    ensures
        input.len() >= 20,
        input[0] == 65 && input[1] == 76 && input[2] == 65 && input[3] == 49,
        input[4] == channels,
        1 <= channels <= 8,
        input[5] <= 1,
        input[5] == 1 ==> channels == 2,
        layout_laws::two(input, 6) > 0,
        layout_laws::four(input, 8) == rate,
        8000 <= rate <= 384000,
        layout_laws::two(input, 12) * channels == pcm.len(),
        1 <= layout_laws::two(input, 12) <= 4096,
        bounds.strict ==> input[14] == 0 && input[15] == 0,
        layout_laws::four(input, 16) == input.len() - 20,
        bounds.expected matches Some((r, c)) ==> r == rate && c == channels,
        bitstream::syntax::decompressed(input.skip(20), bounds.max_entropy, bounds.fixed) matches Ok(
            tokens,
        ) && syntax::decoded_tokens(
            tokens,
            layout_laws::two(input, 12),
            channels as int,
            layout_laws::two(input, 6),
            input[5] == 1,
        ) == Ok::<Seq<i16>, AudioError>(pcm),
{
    layout_laws::law_numbers(input, 6);
    layout_laws::law_numbers(input, 8);
    layout_laws::law_numbers(input, 12);
    layout_laws::law_numbers(input, 16);
    let t = input.take(4);
    assert(t[0] == input[0] && t[1] == input[1] && t[2] == input[2] && t[3] == input[3]);
    let n = layout_laws::two(input, 12);
    let c = channels as int;
    assert(n * c >= 0) by (nonlinear_arith)
        requires
            n >= 0,
            c >= 0,
    ;
}

// ---------------------------------------------------------------------------------------------
// Channels

/// The sample of channel `c` at time `f` stands behind those of earlier times and of lower channels.
/// Channels that are not coupled are what their blocks of 64 hold, channel after channel.
pub proof fn law_channels(list: Seq<Seq<int>>, frames: int, channels: int, c: int, f: int)
    requires
        0 <= c < channels,
        0 <= f < frames,
    ensures
        ({
            let s = syntax::interleaved(list, frames, channels, false);
            &&& s.len() == frames * channels
            &&& 0 <= f * channels + c < s.len()
            &&& s[f * channels + c] == list[c * ((frames + 63) / 64) + f / 64][f % 64]
        }),
{
    lemma_place(frames, channels, c, f);
}

proof fn lemma_place(frames: int, channels: int, c: int, f: int)
    requires
        0 <= c < channels,
        0 <= f < frames,
    ensures
        0 <= f * channels + c < frames * channels,
        (f * channels + c) % channels == c,
        (f * channels + c) / channels == f,
{
    assert(0 <= f * channels + c < frames * channels) by (nonlinear_arith)
        requires
            0 <= c < channels,
            0 <= f,
            f + 1 <= frames,
    ;
    vstd::arithmetic::div_mod::lemma_fundamental_div_mod_converse(f * channels + c, channels, f, c);
}

/// Coupled channels are coded by their mean, rounded down, and by how much the right one is above the
/// left one.
pub proof fn law_coupled_channels(list: Seq<Seq<int>>, frames: int, f: int)
    requires
        0 <= f < frames,
    ensures
        ({
            let s = syntax::interleaved(list, frames, 2, true);
            let blocks = (frames + 63) / 64;
            let (left, right) = (s[2 * f], s[2 * f + 1]);
            &&& s.len() == 2 * frames
            &&& right - left == list[blocks + f / 64][f % 64]
            &&& (left + right) / 2 == list[f / 64][f % 64]
        }),
{
    lemma_place(frames, 2, 0, f);
    lemma_place(frames, 2, 1, f);
    let blocks = (frames + 63) / 64;
    assert(0 * blocks + f / 64 == f / 64);
    assert(1 * blocks + f / 64 == blocks + f / 64);
}

/// What is coded of samples: each as it is, or coupled the mean of left and right, rounded down, and
/// how much the right one is above the left one.
pub proof fn law_source(pcm: Seq<i16>, opt: EncodeOptions, c: int, f: int)
    requires
        0 <= c < opt.channels,
    ensures
        opt.mid_side && opt.channels == 2 ==> syntax::source(pcm, opt, 0, f) == (pcm[2 * f] + pcm[2 * f
            + 1]) / 2 && syntax::source(pcm, opt, 1, f) == pcm[2 * f + 1] - pcm[2 * f],
        !(opt.mid_side && opt.channels == 2) ==> syntax::source(pcm, opt, c, f) == pcm[f * opt.channels
            + c],
{
}

/// The samples of a channel are coded 64 at a time; where they end, zeros fill the last block. All
/// blocks of a channel come before those of the next.
pub proof fn law_source_blocks(
    pcm: Seq<i16>,
    opt: EncodeOptions,
    frames: int,
    blocks: int,
    c: int,
    k: int,
    i: int,
)
    requires
        1 <= frames,
        64 * (blocks - 1) < frames <= 64 * blocks,
        0 <= c,
        0 <= k < blocks,
        0 <= i < 64,
    ensures
        ({
            let b = syntax::source_block(pcm, opt, frames, c * blocks + k);
            &&& b.len() == 64
            &&& 64 * k + i < frames ==> b[i] == syntax::source(pcm, opt, c, 64 * k + i)
            &&& 64 * k + i >= frames ==> b[i] == 0
        }),
{
    assert(syntax::block_count(frames) == blocks);
    vstd::arithmetic::div_mod::lemma_fundamental_div_mod_converse(c * blocks + k, blocks, c, k);
    assert(k * 64 + i == 64 * k + i);
}

/// What is written of a packet is, for each block in turn, its transform, quantized.
pub proof fn law_coded_blocks(pcm: Seq<i16>, opt: EncodeOptions, frames: int, k: int)
    requires
        opt.channels > 0,
        pcm.len() == frames * opt.channels,
        0 <= k < opt.channels * ((frames + 63) / 64),
    ensures
        ({
            let list = syntax::coded_blocks(pcm, opt);
            &&& list.len() == opt.channels * ((frames + 63) / 64)
            &&& list[k] == syntax::quantized(
                syntax::haar(syntax::source_block(pcm, opt, frames, k)),
                opt.qstep as int,
            )
        }),
{
    let n = opt.channels as int;
    vstd::arithmetic::div_mod::lemma_fundamental_div_mod_converse(frames * n, n, frames, 0);
}

// ---------------------------------------------------------------------------------------------
// Transform

/// The transform of a block: its upper half is by how much the second of each pair is above the first;
/// its lower half is the transform of the means of the pairs, rounded down.
pub proof fn law_transform(v: Seq<int>, means: Seq<int>, i: int)
    requires
        syntax::is_block_len(v.len() as int),
        v.len() >= 2,
        means.len() == v.len() / 2,
        forall|j: int| 0 <= j < means.len() ==> #[trigger] means[j] == (v[2 * j] + v[2 * j + 1]) / 2,
        0 <= i < v.len() / 2,
    ensures
        syntax::haar(v).len() == v.len(),
        syntax::haar(v)[v.len() / 2 + i] == v[2 * i + 1] - v[2 * i],
        syntax::haar(v)[i] == syntax::haar(means)[i],
{
    assert(syntax::lows(v) =~= means);
    syntax::lemma_haar_len(v);
    syntax::lemma_haar_len(means);
}

/// A single value is its own transform.
pub proof fn law_transform_of_one(v: Seq<int>)
    requires
        v.len() == 1,
    ensures
        syntax::haar(v) == v,
        syntax::unhaar(v) == Some(v),
{
}

/// What a block is put together from: the second of each pair is above the first by what the upper
/// half says, and the means of the pairs, rounded down, are what the lower half gives.
pub proof fn law_inverse_transform(v: Seq<int>, block: Seq<int>, i: int)
    requires
        syntax::is_block_len(v.len() as int),
        v.len() >= 2,
        syntax::unhaar(v) == Some(block),
        0 <= i < v.len() / 2,
    ensures
        block.len() == v.len(),
        block[2 * i + 1] - block[2 * i] == v[v.len() / 2 + i],
        syntax::unhaar(v.take(v.len() as int / 2)) matches Some(means) && means.len() == v.len() / 2
            && means[i] == (block[2 * i] + block[2 * i + 1]) / 2,
{
    let half = v.len() as int / 2;
    lemma_unhaar_len(v.take(half));
    let s = syntax::unhaar(v.take(half))->Some_0;
    let d = v.subrange(half, 2 * half);
    assert(block == syntax::merged(s, d));
    assert((2 * i) % 2 == 0 && (2 * i) / 2 == i);
    assert((2 * i + 1) % 2 == 1 && (2 * i + 1) / 2 == i);
    assert(d[i] == v[half + i]);
}

proof fn lemma_unhaar_len(v: Seq<int>)
    requires
        syntax::is_block_len(v.len() as int),
    ensures
        syntax::unhaar(v) matches Some(block) ==> block.len() == v.len(),
    decreases v.len(),
{
    if v.len() >= 2 {
        lemma_unhaar_len(v.take(v.len() as int / 2));
    }
}

// ---------------------------------------------------------------------------------------------
// Quantization

/// The quantizer step is the same for the first four coefficients, twice as large for the next twelve,
/// and three times as large for the rest; at a step of one nothing is lost anywhere.
pub proof fn law_steps(i: int, q: int)
    requires
        0 <= i < 64,
        1 <= q,
    ensures
        q == 1 ==> syntax::step(i, q) == 1,
        q > 1 && i <= 3 ==> syntax::step(i, q) == q,
        q > 1 && 4 <= i <= 15 ==> syntax::step(i, q) == q + q,
        q > 1 && 16 <= i ==> syntax::step(i, q) == q + q + q,
{
}

/// A coefficient is coded by the nearest number of steps; of two the one that is farther from zero.
pub proof fn law_quantized(v: Seq<int>, q: int, i: int)
    requires
        v.len() == 64,
        0 <= i < 64,
        1 <= q,
    ensures
        ({
            let n = syntax::quantized(v, q)[i];
            let d = syntax::step(i, q);
            &&& v[i] >= 0 ==> -d < 2 * (v[i] - n * d) + 1 && 2 * (v[i] - n * d) < d && n >= 0
            &&& v[i] < 0 ==> -d < 2 * (v[i] - n * d) && 2 * (v[i] - n * d) - 1 < d && n <= 0
        }),
{
    let d = syntax::step(i, q);
    let a = if v[i] >= 0 {
        v[i]
    } else {
        -v[i]
    };
    let m = (a + d / 2) / d;
    vstd::arithmetic::div_mod::lemma_fundamental_div_mod(a + d / 2, d);
    vstd::arithmetic::div_mod::lemma_mod_bound(a + d / 2, d);
    assert(d * m == m * d) by (nonlinear_arith);
    assert((-m) * d == -(m * d)) by (nonlinear_arith);
    assert(m >= 0) by (nonlinear_arith)
        requires
            a + d / 2 >= 0,
            m * d + (a + d / 2) % d == a + d / 2,
            (a + d / 2) % d < d,
            d > 0,
    ;
}

} // verus!
