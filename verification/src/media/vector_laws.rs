//! What the vectors are made from.
use crate::media::encode;
use crate::media::vectors;
use crate::media::Backend;
use crate::video::v1::EncoderPreset;
use vstd::prelude::*;

verus! {

/// The slope starts at zero; each sample is nine more than the one on its left and thirteen more than
/// the one above, and goes round at 256.
#[verifier::spinoff_prover]
pub proof fn law_slope(x: int, y: int)
    requires
        0 <= x < 32,
        0 <= y < 24,
    ensures
        ({
            let s = vectors::slope();
            let v = s[32 * y + x] as int;
            &&& s.len() == 768
            &&& s[0] == 0
            &&& x + 1 < 32 ==> s[32 * y + (x + 1)] == v + 9 || s[32 * y + (x + 1)] == v + 9 - 256
            &&& y + 1 < 24 ==> s[32 * (y + 1) + x] == v + 13 || s[32 * (y + 1) + x] == v + 13 - 256
        }),
{
    let a = 9 * x + 13 * y;
    lemma_slope(x, y, a);
    lemma_slope(0, 0, 0);
    if x + 1 < 32 {
        lemma_slope(x + 1, y, a + 9);
        lemma_round(a, 9);
    }
    if y + 1 < 24 {
        lemma_slope(x, y + 1, a + 13);
        lemma_round(a, 13);
    }
}

proof fn lemma_round(a: int, d: int)
    requires
        0 <= d < 256,
    ensures
        (a + d) % 256 == a % 256 + d || (a + d) % 256 == a % 256 + d - 256,
        0 <= a % 256 < 256,
        0 <= (a + d) % 256 < 256,
{
}

proof fn lemma_slope(x: int, y: int, a: int)
    requires
        0 <= x < 32,
        0 <= y < 24,
        a == 9 * x + 13 * y,
    ensures
        vectors::slope()[32 * y + x] == a % 256,
{
    let i = 32 * y + x;
    assert(i % 32 == x && i / 32 == y);
}

/// The second picture shows the slope one sample further to the right.
pub proof fn law_moved(x: int, y: int)
    requires
        0 <= x < 32,
        0 <= y < 24,
    ensures
        vectors::moved().len() == 768,
        x > 0 ==> vectors::moved()[32 * y + x] == vectors::slope()[32 * y + x - 1],
        x == 0 ==> vectors::moved()[32 * y] == vectors::slope()[32 * y],
{
    let i = 32 * y + x;
    assert(i % 32 == x);
}

/// The stripes go through four values again and again, and every eight samples start one further.
pub proof fn law_stripes(i: int)
    requires
        0 <= i < 768,
    ensures
        ({
            let s = vectors::stripes();
            let next = if s[i] == 16 {
                64int
            } else if s[i] == 64 {
                160
            } else if s[i] == 160 {
                235
            } else {
                16
            };
            &&& s.len() == 768
            &&& s[0] == 16
            &&& s[i] == 16 || s[i] == 64 || s[i] == 160 || s[i] == 235
            &&& i % 8 != 7 ==> s[i + 1] == next
            &&& i + 8 < 768 ==> s[i + 8] == next
        }),
{
    let k = (i / 8 + i % 8) % 4;
    if i % 8 != 7 {
        assert((i + 1) / 8 == i / 8 && (i + 1) % 8 == i % 8 + 1);
    }
    assert((i + 8) / 8 == i / 8 + 1 && (i + 8) % 8 == i % 8);
}

/// The samples start at -30000; each is 127 more than the one before, and 60000 less where that would
/// reach 30000.
pub proof fn law_samples(i: int)
    requires
        0 <= i < 1919,
    ensures
        ({
            let s = vectors::source_samples();
            &&& s.len() == 1920
            &&& s[0] == -30000
            &&& s[i + 1] == if s[i] + 127 < 30000 {
                s[i] + 127
            } else {
                s[i] + 127 - 60000
            }
        }),
{
    assert((i + 1) * 127 == i * 127 + 127);
}

/// The clip has four pictures of 32 by 24 at 30 a second: the slope, the slope moved, the slope again
/// and the stripes, on even chroma; its metadata name Rec. 709 and chroma to the left.
pub proof fn law_clip()
    ensures
        ({
            let c = vectors::source_clip();
            &&& c.width == 32 && c.height == 24 && c.fps_n == 30 && c.fps_d == 1
            &&& c.meta0 == 2 + 16 * 1 + 256 * 2 + 8192 * 1
            &&& c.frames.len() == 4
            &&& c.frames[0].y == vectors::slope() && c.frames[1].y == vectors::moved()
            &&& c.frames[2] == c.frames[0] && c.frames[3].y == vectors::stripes()
            &&& forall|k: int, i: int|
                #![trigger c.frames[k].u[i]]
                0 <= k < 4 && 0 <= i < 192 ==> c.frames[k].u[i] == if k < 3 {
                    96u8
                } else {
                    128
                }
            &&& forall|k: int, i: int|
                #![trigger c.frames[k].v[i]]
                0 <= k < 4 && 0 <= i < 192 ==> c.frames[k].v[i] == if k < 3 {
                    160u8
                } else {
                    128
                }
            &&& forall|k: int|
                0 <= k < 4 ==> (#[trigger] c.frames[k]).width == 32 && c.frames[k].height == 24
                    && c.frames[k].u.len() == 192 && c.frames[k].v.len() == 192
        }),
{
    crate::media::probe_laws::law_meta_word(vectors::source_meta());
}

/// The vectors are coded with the quality preset in epochs of 60 frames, and in stereo at 48 kHz with
/// coupled channels.
pub proof fn law_recipe(q: u16)
    ensures
        vectors::recipe(q) == (encode::Recipe {
            backend: Backend::Production,
            preset: EncoderPreset::Quality,
            video_q: q,
            audio_q: 1,
            epoch_frames: 60,
        }),
        ({
            let o = vectors::sample_options(q);
            o.sample_rate == 48000 && o.channels == 2 && o.qstep == q && o.mid_side
        }),
{
}

/// Damage changes the last byte by 128 and nothing else.
pub proof fn law_damage(b: Seq<u8>)
    requires
        b.len() > 0,
    ensures
        ({
            let d = vectors::damaged(b);
            &&& d.len() == b.len()
            &&& d.drop_last() == b.drop_last()
            &&& d.last() == if b.last() < 128 {
                b.last() + 128
            } else {
                b.last() - 128
            }
        }),
{
    let v = b.last();
    assert(v ^ 0x80u8 == if v < 128 { v + 128 } else { v - 128 }) by (bit_vector);
    assert(vectors::damaged(b).drop_last() =~= b.drop_last());
}

} // verus!
