//! How near coded samples are to their source.
use crate::audio::v1::laws;
use crate::audio::v1::syntax;
use crate::audio::v1::EncodeOptions;
use crate::video;
use vstd::prelude::*;

verus! {

/// Each value of a list is at most `e` away from that of another.
pub open spec fn near(a: Seq<int>, b: Seq<int>, e: int) -> bool {
    a.len() == b.len() && forall|i: int| 0 <= i < a.len() ==> -e <= #[trigger] a[i] - b[i] <= e
}

proof fn lemma_pairs(v: Seq<int>, s: Seq<int>, d: Seq<int>, e: int, f: int)
    requires
        v.len() == 2 * s.len(),
        near(s, syntax::lows(v), e),
        near(d, syntax::highs(v), f),
        0 <= f,
    ensures
        near(syntax::merged(s, d), v, e + (f + 1) / 2),
{
    let out = syntax::merged(s, d);
    let (low, high) = (syntax::lows(v), syntax::highs(v));
    assert forall|i: int| 0 <= i < out.len() implies -(e + (f + 1) / 2) <= #[trigger] out[i] - v[i] <= e
        + (f + 1) / 2 by {
        let k = i / 2;
        assert(-e <= s[k] - low[k] <= e);
        assert(-f <= d[k] - high[k] <= f);
        assert(v[2 * k + 1] - v[2 * k] == high[k]);
        assert(low[k] == v[2 * k] + high[k] / 2);
        if i % 2 == 0 {
            assert(i == 2 * k);
        } else {
            assert(i == 2 * k + 1);
        }
    }
}

/// The step of the upper half of `n` coefficients.
spec fn upper(n: int, q: int) -> int {
    if q <= 1 {
        1
    } else if n <= 4 {
        q
    } else if n <= 16 {
        2 * q
    } else {
        3 * q
    }
}

/// How far away values can be that come from `n` coefficients, each within half a step.
spec fn slack(n: int, q: int) -> int
    decreases n,
{
    if n < 2 {
        upper(1, q) / 2
    } else {
        slack(n / 2, q) + (upper(n, q) / 2 + 1) / 2
    }
}

proof fn lemma_undone(v: Seq<int>, c: Seq<int>, q: int)
    requires
        syntax::is_block_len(v.len() as int),
        c.len() == v.len(),
        q >= 1,
        forall|i: int|
            0 <= i < c.len() ==> -(syntax::step(i, q) / 2) <= #[trigger] c[i] - syntax::haar(v)[i]
                <= syntax::step(i, q) / 2,
    ensures
        syntax::unhaar(c) matches Some(out) ==> near(out, v, slack(v.len() as int, q)),
    decreases v.len(),
{
    let n = v.len() as int;
    let h = syntax::haar(v);
    syntax::lemma_haar_len(v);
    if n >= 2 {
        let half = n / 2;
        let low = syntax::lows(v);
        syntax::lemma_haar_len(low);
        let t = c.take(half);
        assert forall|i: int| 0 <= i < t.len() implies -(syntax::step(i, q) / 2) <= #[trigger] t[i]
            - syntax::haar(low)[i] <= syntax::step(i, q) / 2 by {
            assert(t[i] - syntax::haar(low)[i] == c[i] - h[i]);
        }
        lemma_undone(low, t, q);
        let d = c.subrange(half, 2 * half);
        if let Some(s) = syntax::unhaar(t) {
            let f = upper(n, q) / 2;
            let high = syntax::highs(v);
            assert forall|i: int| 0 <= i < d.len() implies -f <= #[trigger] d[i] - high[i] <= f by {
                assert(d[i] - high[i] == c[half + i] - h[half + i]);
                assert(syntax::step(half + i, q) <= upper(n, q));
            }
            lemma_pairs(v, s, d, slack(half, q), f);
        }
    } else {
        assert(h == v);
        assert forall|i: int| 0 <= i < c.len() implies -(upper(1, q) / 2) <= #[trigger] c[i] - v[i]
            <= upper(1, q) / 2 by {
            assert(c[i] - h[i] == c[i] - v[i]);
        }
    }
}

proof fn lemma_slack(q: int)
    requires
        q >= 1,
    ensures
        2 * slack(64, q) <= 7 * q + 6,
        q == 1 ==> slack(64, q) == 0,
        slack(64, q) >= 0,
{
    reveal_with_fuel(slack, 7);
}

/// What is left of a block of samples after the transform, the quantizer and back is at most three and a
/// half quantizer steps and three away from it, and the block itself at a step of one.
pub proof fn law_block_close(v: Seq<int>, q: int, i: int)
    requires
        v.len() == 64,
        q >= 1,
        0 <= i < 64,
    ensures
        syntax::unhaar(laws::scaled(syntax::quantized(syntax::haar(v), q), q)) matches Some(out) ==> {
            &&& out.len() == 64
            &&& 2 * (out[i] - v[i]) <= 7 * q + 6
            &&& 2 * (v[i] - out[i]) <= 7 * q + 6
            &&& q == 1 ==> out[i] == v[i]
        },
{
    let h = syntax::haar(v);
    syntax::lemma_haar_len(v);
    let c = laws::scaled(syntax::quantized(h, q), q);
    assert forall|j: int| 0 <= j < c.len() implies -(syntax::step(j, q) / 2) <= #[trigger] c[j] - h[j]
        <= syntax::step(j, q) / 2 by {
        video::v1::close_laws::law_rounded(h[j], syntax::step(j, q));
    }
    lemma_undone(v, c, q);
    lemma_slack(q);
    if let Some(out) = syntax::unhaar(c) {
        assert(-slack(64, q) <= out[i] - v[i] <= slack(64, q));
    }
}

/// Samples come out near what they were: at most three and a half quantizer steps and three away, and
/// half as much more, and one half, where two channels are coupled; at a step of one they are the same.
pub proof fn law_samples_close(pcm: Seq<i16>, opt: EncodeOptions, i: int)
    requires
        laws::codable(pcm, opt),
        0 <= i < pcm.len(),
    ensures
        ({
            let all = laws::reconstruction(pcm, opt);
            let q = opt.qstep as int;
            let coupled = opt.mid_side && opt.channels == 2;
            &&& all.len() == pcm.len()
            &&& !coupled ==> 2 * (all[i] - pcm[i]) <= 7 * q + 6 && 2 * (pcm[i] - all[i]) <= 7 * q + 6
            &&& coupled ==> 4 * (all[i] - pcm[i]) <= 21 * q + 20 && 4 * (pcm[i] - all[i]) <= 21 * q + 20
            &&& q == 1 ==> all[i] == pcm[i]
        }),
{
    let n = opt.channels as int;
    let frames = pcm.len() as int / n;
    let shown = laws::shown_blocks(pcm, opt);
    laws::lemma_frames(pcm, opt);
    let all = laws::reconstruction(pcm, opt);
    assert(n * frames == frames * n) by (nonlinear_arith);
    video::v1::syntax::lemma_index_inverse(n, frames, i);
    let (c, f) = (i % n, i / n);
    if syntax::coupling(opt) {
        lemma_plane_close(pcm, opt, frames, 0, f);
        lemma_plane_close(pcm, opt, frames, 1, f);
        assert(c == 0 || c == 1);
    } else {
        lemma_plane_close(pcm, opt, frames, c, f);
    }
}

proof fn lemma_plane_close(pcm: Seq<i16>, opt: EncodeOptions, frames: int, c: int, f: int)
    requires
        laws::codable(pcm, opt),
        frames == pcm.len() as int / opt.channels as int,
        0 <= c < opt.channels,
        0 <= f < frames,
    ensures
        ({
            let (a, b) = (
                syntax::plane_sample(laws::shown_blocks(pcm, opt), frames, c, f),
                syntax::source(pcm, opt, c, f),
            );
            let q = opt.qstep as int;
            &&& 2 * (a - b) <= 7 * q + 6
            &&& 2 * (b - a) <= 7 * q + 6
            &&& q == 1 ==> a == b
        }),
{
    let n = opt.channels as int;
    let blocks = syntax::block_count(frames);
    let k = c * blocks + f / 64;
    laws::lemma_frames(pcm, opt);
    video::v1::syntax::lemma_index(blocks, n, f / 64, c);
    assert(blocks * n == n * blocks) by (nonlinear_arith);
    laws::lemma_coded_block(pcm, opt, frames, k);
    let v = syntax::source_block(pcm, opt, frames, k);
    law_block_close(v, opt.qstep as int, f % 64);
    assert((f / 64) * 64 + f % 64 == f);
}

} // verus!
