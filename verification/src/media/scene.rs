//! Where epochs start: every so many frames, and where the scene changes.
use crate::reference::frame::Frame420;
use crate::video::v1::syntax;
use vstd::prelude::*;

verus! {

/// How far apart two samples are.
pub open spec fn apart(a: u8, b: u8) -> int {
    if a < b {
        b - a
    } else {
        a - b
    }
}

/// The sum of differences of the first `k` samples that are looked at, `step` apart.
pub open spec fn difference(a: Seq<u8>, b: Seq<u8>, step: int, k: int) -> int
    decreases k,
{
    if k <= 0 {
        0
    } else {
        difference(a, b, step, k - 1) + apart(a[(k - 1) * step], b[(k - 1) * step])
    }
}

/// The distance of the samples that are looked at: about four thousand are.
pub open spec fn sample_step(len: int) -> int {
    if len / 4096 > 1 {
        len / 4096
    } else {
        1
    }
}

/// How many samples are looked at.
pub open spec fn sample_count(len: int) -> int {
    (len + sample_step(len) - 1) / sample_step(len)
}

/// The scene changes between two frames: luma differs by more than 48 on average.
pub open spec fn cut(a: syntax::Picture, b: syntax::Picture) -> bool {
    let len = a.y.len() as int;
    let n = sample_count(len);
    difference(a.y, b.y, sample_step(len), n) / if n > 1 {
        n
    } else {
        1
    } > 48
}

/// Whether the scene changes between two frames. The second must have as much luma as the first.
pub fn scene_cut(a: &Frame420, b: &Frame420) -> (r: bool)
    requires
        a.y@.len() <= b.y@.len(),
    ensures
        r == cut(a.picture(), b.picture()),
{
    let len: usize = a.y.len();
    let step: usize = if len / 4096 > 1 {
        len / 4096
    } else {
        1
    };
    let mut sum: u64 = 0;
    let mut n: u64 = 0;
    let mut i: usize = 0;
    while i < len
        invariant
            len == a.y@.len(),
            len <= b.y@.len(),
            step == sample_step(len as int),
            i <= len,
            i < len ==> i == n * step,
            i == len ==> n * step >= len && (n == 0 || (n - 1) * step < len),
            n <= i,
            sum == difference(a.y@, b.y@, step as int, n as int),
            0 <= sum <= 255 * n,
        decreases len - i,
    {
        let (x, y): (u8, u8) = (a.y[i], b.y[i]);
        let d: u8 = if x < y {
            y - x
        } else {
            x - y
        };
        proof {
            assert((n + 1) * step == n * step + step) by (nonlinear_arith);
            assert(n < 8192) by (nonlinear_arith)
                requires
                    n * step < len,
                    len <= 4096 * step + 4095 || (step == 1 && len <= 8191),
                    1 <= step,
            ;
        }
        sum = sum + d as u64;
        n = n + 1;
        if len - i > step {
            i = i + step;
        } else {
            i = len;
        }
    }
    proof {
        lemma_count(len as int, step as int, n as int);
    }
    sum / (if n > 1 {
        n
    } else {
        1
    }) > 48
}

proof fn lemma_count(len: int, step: int, n: int)
    requires
        0 <= len,
        1 <= step,
        0 <= n,
        n * step >= len,
        n == 0 || (n - 1) * step < len,
        n == 0 ==> len == 0,
    ensures
        (len + step - 1) / step == n,
{
    assert((n - 1) * step == n * step - step) by (nonlinear_arith);
    let r = len + step - 1 - n * step;
    if n > 0 {
        vstd::arithmetic::div_mod::lemma_fundamental_div_mod_converse(len + step - 1, step, n, r);
    } else {
        vstd::arithmetic::div_mod::lemma_fundamental_div_mod_converse(len + step - 1, step, 0, step - 1);
    }
}

/// An epoch starts with frame `i`, which is not the first.
pub open spec fn begins(frames: Seq<syntax::Picture>, epoch_frames: int, i: int) -> bool {
    i % epoch_frames == 0 || cut(frames[i - 1], frames[i])
}

/// Where the epochs of the first `k` frames start.
pub open spec fn starts(frames: Seq<syntax::Picture>, epoch_frames: int, k: int) -> Seq<int>
    decreases k,
{
    if k <= 1 {
        seq![0]
    } else if begins(frames, epoch_frames, k - 1) {
        starts(frames, epoch_frames, k - 1).push(k - 1)
    } else {
        starts(frames, epoch_frames, k - 1)
    }
}

/// No frame has less luma than the one before it.
pub open spec fn comparable(frames: Seq<syntax::Picture>) -> bool {
    forall|i: int| 0 < i < frames.len() ==> frames[i - 1].y.len() <= (#[trigger] frames[i]).y.len()
}

/// What positions are.
pub open spec fn positions(list: Seq<usize>) -> Seq<int> {
    Seq::new(list.len(), |i: int| list[i] as int)
}

/// Epochs follow one another: the first starts with the first frame, each starts after the one
/// before it, and every one within the clip.
pub proof fn law_starts(frames: Seq<syntax::Picture>, epoch_frames: int, k: int)
    requires
        epoch_frames > 0,
    ensures
        starts(frames, epoch_frames, k).len() >= 1,
        starts(frames, epoch_frames, k)[0] == 0,
        forall|i: int, j: int|
            0 <= i < j < starts(frames, epoch_frames, k).len() ==> (#[trigger] starts(
                frames,
                epoch_frames,
                k,
            )[i]) < #[trigger] starts(frames, epoch_frames, k)[j],
        forall|i: int|
            0 < i < starts(frames, epoch_frames, k).len() ==> (#[trigger] starts(
                frames,
                epoch_frames,
                k,
            )[i]) < k,
        starts(frames, epoch_frames, k).len() <= if k > 1 {
            k
        } else {
            1
        },
    decreases k,
{
    if k > 1 {
        law_starts(frames, epoch_frames, k - 1);
    }
}

/// Every frame whose number is a multiple of the epoch length starts an epoch.
pub proof fn law_multiples_start(frames: Seq<syntax::Picture>, epoch_frames: int, k: int, i: int)
    requires
        epoch_frames > 0,
        0 <= i < k,
        i % epoch_frames == 0,
    ensures
        starts(frames, epoch_frames, k).contains(i),
    decreases k,
{
    let s = starts(frames, epoch_frames, k);
    if i == 0 {
        law_starts(frames, epoch_frames, k);
        assert(s[0] == 0);
    } else if i == k - 1 {
        assert(s[s.len() - 1] == i);
    } else {
        law_multiples_start(frames, epoch_frames, k - 1, i);
        let before = starts(frames, epoch_frames, k - 1);
        let j = choose|j: int| 0 <= j < before.len() && before[j] == i;
        assert(s[j] == i);
    }
}

/// No epoch is longer than the epoch length.
pub proof fn law_epoch_length(frames: Seq<syntax::Picture>, epoch_frames: int, k: int, j: int)
    requires
        epoch_frames > 0,
        0 <= j < starts(frames, epoch_frames, k).len(),
    ensures
        ({
            let s = starts(frames, epoch_frames, k);
            let end = if j + 1 < s.len() {
                s[j + 1]
            } else {
                k
            };
            end - s[j] <= epoch_frames
        }),
{
    law_starts(frames, epoch_frames, k);
    let s = starts(frames, epoch_frames, k);
    let end = if j + 1 < s.len() {
        s[j + 1]
    } else {
        k
    };
    if end - s[j] > epoch_frames {
        let r = s[j] % epoch_frames;
        let m = s[j] + epoch_frames - r;
        vstd::arithmetic::div_mod::lemma_fundamental_div_mod(s[j], epoch_frames);
        vstd::arithmetic::div_mod::lemma_mod_bound(s[j], epoch_frames);
        let q = s[j] / epoch_frames;
        assert(m == (q + 1) * epoch_frames + 0) by (nonlinear_arith)
            requires
                m == s[j] + epoch_frames - r,
                s[j] == epoch_frames * q + r,
        ;
        vstd::arithmetic::div_mod::lemma_fundamental_div_mod_converse(m, epoch_frames, q + 1, 0);
        assert(s[j] == s[0] || s[0] < s[j]);
        law_multiples_start(frames, epoch_frames, k, m);
        let i = choose|i: int| 0 <= i < s.len() && s[i] == m;
        if i > j + 1 {
            assert(s[j + 1] < s[i]);
        } else if i < j {
            assert(s[i] < s[j]);
        }
    }
}

/// Where the epochs of a clip start.
pub fn epoch_starts(frames: &Vec<Frame420>, epoch_frames: u64) -> (r: Vec<usize>)
    requires
        epoch_frames > 0,
        comparable(crate::media::pictures(frames@)),
    ensures
        positions(r@) == starts(
            crate::media::pictures(frames@),
            epoch_frames as int,
            frames@.len() as int,
        ),
{
    let ghost all = crate::media::pictures(frames@);
    let mut r: Vec<usize> = vec![0];
    let mut i: usize = 1;
    assert(positions(r@) =~= starts(all, epoch_frames as int, 1));
    while i < frames.len()
        invariant
            all == crate::media::pictures(frames@),
            epoch_frames > 0,
            comparable(all),
            1 <= i,
            i <= frames@.len() || i == 1,
            positions(r@) == starts(all, epoch_frames as int, i as int),
        decreases frames@.len() - i,
    {
        let ghost before = positions(r@);
        proof {
            assert(all[i - 1].y.len() <= all[i as int].y.len());
        }
        if i as u64 % epoch_frames == 0 || scene_cut(&frames[i - 1], &frames[i]) {
            r.push(i);
            assert(positions(r@) =~= before.push(i as int));
        }
        i = i + 1;
    }
    r
}

} // verus!
