//! What counts as a change of scene, told from the pictures alone.
use crate::media::scene;
use crate::video::v1::syntax;
use vstd::prelude::*;

verus! {

/// How far apart two numbers are.
pub open spec fn gap(a: u8, b: u8) -> int {
    if a <= b {
        b - a
    } else {
        a - b
    }
}

/// The differences of every `step`th sample of the first `n`, added up.
pub open spec fn added(a: Seq<u8>, b: Seq<u8>, step: int, n: int) -> int
    decreases n,
{
    if n <= 0 {
        0
    } else if (n - 1) % step == 0 {
        added(a, b, step, n - 1) + gap(a[n - 1], b[n - 1])
    } else {
        added(a, b, step, n - 1)
    }
}

/// How many of the first `n` numbers are multiples of `step`.
pub open spec fn counted(step: int, n: int) -> int
    decreases n,
{
    if n <= 0 {
        0
    } else if (n - 1) % step == 0 {
        counted(step, n - 1) + 1
    } else {
        counted(step, n - 1)
    }
}

/// `step` samples apart, a plane of `len` samples is looked at in at least 4096 places, or in all;
/// and one more sample apart it would not be.
pub open spec fn dense(step: int, len: int) -> bool {
    &&& step >= 1
    &&& step == 1 || 4096 * step <= len
    &&& len < 4096 * (step + 1)
}

proof fn lemma_step(len: int, step: int)
    requires
        0 <= len,
        dense(step, len),
    ensures
        step == scene::sample_step(len),
{
    if step > 1 {
        vstd::arithmetic::div_mod::lemma_fundamental_div_mod_converse(
            len,
            4096,
            step,
            len - 4096 * step,
        );
    }
}

/// The places up to `n`: those of the first `k` that are looked at.
proof fn lemma_added(a: Seq<u8>, b: Seq<u8>, step: int, k: int, n: int)
    requires
        step >= 1,
        0 <= k,
        k == 0 ==> n == 0,
        k > 0 ==> (k - 1) * step < n <= k * step,
    ensures
        added(a, b, step, n) == scene::difference(a, b, step, k),
        counted(step, n) == k,
    decreases n,
{
    if n > 0 {
        let r = n - 1 - (k - 1) * step;
        assert((k - 1) * step == k * step - step) by (nonlinear_arith);
        vstd::arithmetic::div_mod::lemma_fundamental_div_mod_converse(n - 1, step, k - 1, r);
        if r == 0 {
            if k > 1 {
                assert((k - 2) * step == (k - 1) * step - step) by (nonlinear_arith);
            }
            if k == 1 {
                assert((k - 1) * step == 0) by (nonlinear_arith)
                    requires
                        k == 1,
                ;
            }
            lemma_added(a, b, step, k - 1, n - 1);
        } else {
            lemma_added(a, b, step, k, n - 1);
        }
    }
}

/// The number of samples that are looked at.
proof fn lemma_places(len: int, step: int)
    requires
        0 < len,
        step == scene::sample_step(len),
    ensures
        ({
            let k = scene::sample_count(len);
            k > 0 && (k - 1) * step < len <= k * step
        }),
{
    let k = scene::sample_count(len);
    vstd::arithmetic::div_mod::lemma_fundamental_div_mod(len + step - 1, step);
    vstd::arithmetic::div_mod::lemma_mod_bound(len + step - 1, step);
    assert(step * k == k * step) by (nonlinear_arith);
    assert((k - 1) * step == k * step - step) by (nonlinear_arith);
    assert(k > 0) by (nonlinear_arith)
        requires
            0 < len,
            len <= k * step,
            step >= 1,
    ;
}

/// A scene changes where every so many samples of luma, spread over the whole picture, differ by at
/// least 49 on average: as many samples apart as leaves 4096 of them, or all where there are fewer.
pub proof fn law_cut(a: syntax::Picture, b: syntax::Picture, step: int)
    requires
        a.y.len() > 0,
        dense(step, a.y.len() as int),
    ensures
        scene::cut(a, b) <==> added(a.y, b.y, step, a.y.len() as int) >= 49 * counted(
            step,
            a.y.len() as int,
        ),
{
    let len = a.y.len() as int;
    lemma_step(len, step);
    lemma_places(len, step);
    let k = scene::sample_count(len);
    lemma_added(a.y, b.y, step, k, len);
    let d = scene::difference(a.y, b.y, step, k);
    vstd::arithmetic::div_mod::lemma_fundamental_div_mod(d, k);
    vstd::arithmetic::div_mod::lemma_mod_bound(d, k);
    let q = d / k;
    assert(q > 48 <==> d >= 49 * k) by (nonlinear_arith)
        requires
            d == k * q + d % k,
            0 <= d % k < k,
    ;
}

proof fn lemma_small(a: Seq<u8>, b: Seq<u8>, step: int, n: int, most: int)
    requires
        forall|i: int| 0 <= i < n ==> gap(#[trigger] a[i], b[i]) <= most,
    ensures
        added(a, b, step, n) <= most * counted(step, n),
    decreases n,
{
    if n > 0 {
        lemma_small(a, b, step, n - 1, most);
        let c = counted(step, n - 1);
        assert(gap(a[n - 1], b[n - 1]) <= most);
        assert(most * (c + 1) == most * c + most) by (nonlinear_arith);
    }
}

/// Pictures whose luma differs by no more than 48 anywhere are of one scene.
pub proof fn law_alike_is_no_cut(a: syntax::Picture, b: syntax::Picture)
    requires
        a.y.len() > 0,
        forall|i: int| 0 <= i < a.y.len() ==> gap(#[trigger] a.y[i], b.y[i]) <= 48,
    ensures
        !scene::cut(a, b),
{
    let len = a.y.len() as int;
    let step = scene::sample_step(len);
    lemma_dense(len);
    law_cut(a, b, step);
    lemma_small(a.y, b.y, step, len, 48);
    lemma_counted(step, len);
}

proof fn lemma_dense(len: int)
    requires
        0 < len,
    ensures
        dense(scene::sample_step(len), len),
{
    vstd::arithmetic::div_mod::lemma_fundamental_div_mod(len, 4096);
}

/// At least as many samples are looked at as there are, or 4096.
proof fn lemma_counted(step: int, len: int)
    requires
        0 < len,
        dense(step, len),
    ensures
        counted(step, len) > 0,
        counted(step, len) >= 4096 || counted(step, len) == len,
{
    lemma_step(len, step);
    lemma_places(len, step);
    let k = scene::sample_count(len);
    lemma_added(Seq::empty(), Seq::empty(), step, k, len);
    if step > 1 {
        assert(k >= 4096) by (nonlinear_arith)
            requires
                4096 * step <= len,
                len <= k * step,
                step > 1,
        ;
    } else {
        assert(k * step == k && (k - 1) * step == k - 1) by (nonlinear_arith)
            requires
                step == 1,
        ;
    }
}

/// The differences of the places that are not among the spots are large.
proof fn lemma_large(a: Seq<u8>, b: Seq<u8>, step: int, n: int, spots: Set<int>) -> (met: Set<int>)
    requires
        step >= 1,
        spots.finite(),
        forall|i: int| 0 <= i < n && !spots.contains(i) ==> gap(#[trigger] a[i], b[i]) >= 50,
    ensures
        met.subset_of(spots),
        met.finite(),
        forall|i: int| met.contains(i) ==> i < n,
        added(a, b, step, n) >= 50 * counted(step, n) - 50 * met.len(),
    decreases n,
{
    if n <= 0 {
        Set::empty()
    } else {
        let before = lemma_large(a, b, step, n - 1, spots);
        if spots.contains(n - 1) {
            before.insert(n - 1)
        } else {
            assert(gap(a[n - 1], b[n - 1]) >= 50);
            before
        }
    }
}

/// Pictures whose luma differs by 50 or more, but for a few spots, are of two scenes: a spot for each
/// hundred samples, and no more than a hundredth of 4096.
pub proof fn law_change_is_a_cut(a: syntax::Picture, b: syntax::Picture, spots: Set<int>)
    requires
        a.y.len() > 0,
        spots.finite(),
        100 * spots.len() <= a.y.len(),
        100 * spots.len() <= 4096,
        forall|i: int| 0 <= i < a.y.len() && !spots.contains(i) ==> gap(#[trigger] a.y[i], b.y[i]) >= 50,
    ensures
        scene::cut(a, b),
{
    let len = a.y.len() as int;
    let step = scene::sample_step(len);
    lemma_dense(len);
    law_cut(a, b, step);
    lemma_counted(step, len);
    let met = lemma_large(a.y, b.y, step, len, spots);
    vstd::set_lib::lemma_len_subset(met, spots);
}

/// A change of one sample is no change of scene.
pub proof fn law_one_sample_is_no_cut(a: syntax::Picture, b: syntax::Picture, at: int)
    requires
        a.y.len() > 5,
        forall|i: int| 0 <= i < a.y.len() && i != at ==> #[trigger] a.y[i] == b.y[i],
    ensures
        !scene::cut(a, b),
{
    let len = a.y.len() as int;
    let step = scene::sample_step(len);
    lemma_dense(len);
    law_cut(a, b, step);
    lemma_counted(step, len);
    lemma_one(a.y, b.y, step, len, at);
}

proof fn lemma_one(a: Seq<u8>, b: Seq<u8>, step: int, n: int, at: int)
    requires
        forall|i: int| 0 <= i < n && i != at ==> #[trigger] a[i] == b[i],
    ensures
        added(a, b, step, n) <= 255,
        n <= at ==> added(a, b, step, n) == 0,
    decreases n,
{
    if n > 0 {
        lemma_one(a, b, step, n - 1, at);
        if n - 1 != at {
            assert(a[n - 1] == b[n - 1]);
        }
    }
}

/// An epoch starts with the first frame, with every frame whose number is a multiple of the epoch
/// length, with every frame that opens a scene, and with no other.
pub proof fn law_epoch_starts(
    frames: Seq<syntax::Picture>,
    epoch_frames: int,
    k: int,
    i: int,
)
    requires
        epoch_frames > 0,
        0 <= i < k,
    ensures
        scene::starts(frames, epoch_frames, k).contains(i) <==> i == 0 || i % epoch_frames == 0
            || scene::cut(frames[i - 1], frames[i]),
    decreases k,
{
    let s = scene::starts(frames, epoch_frames, k);
    scene::law_starts(frames, epoch_frames, k);
    if i == 0 {
        assert(s[0] == 0);
    } else if i == k - 1 {
        let before = scene::starts(frames, epoch_frames, k - 1);
        scene::law_starts(frames, epoch_frames, k - 1);
        assert(!before.contains(i)) by {
            if before.contains(i) {
                let j = choose|j: int| 0 <= j < before.len() && before[j] == i;
                assert(before[0] == 0);
            }
        }
        if s != before {
            assert(s[s.len() - 1] == i);
        }
    } else {
        law_epoch_starts(frames, epoch_frames, k - 1, i);
        let before = scene::starts(frames, epoch_frames, k - 1);
        if before.contains(i) {
            let j = choose|j: int| 0 <= j < before.len() && before[j] == i;
            assert(s[j] == i);
        }
        if s.contains(i) {
            let j = choose|j: int| 0 <= j < s.len() && s[j] == i;
            assert(before[j] == i);
        }
    }
}

} // verus!
