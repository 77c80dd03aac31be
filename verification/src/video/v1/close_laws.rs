//! How near a coded picture is to its source.
use crate::kernels::scalar;
use crate::reference::planes;
use crate::video::v1::choice;
use crate::video::v1::encoder;
use crate::video::v1::packets;
use crate::video::v1::syntax;
use crate::video::v1::EncodeOptions;
use vstd::prelude::*;

verus! {

/// No further apart than half a quantizer step.
pub open spec fn close(a: int, b: int, q: int) -> bool {
    2 * (a - b) <= q && 2 * (b - a) <= q
}

// ---------------------------------------------------------------------------------------------
// Rounding

/// A quotient times its divisor is no further from the dividend than half the divisor, and where it is
/// just as far, it is the one further from zero.
pub proof fn law_rounded(v: int, q: int)
    requires
        q >= 1,
    ensures
        close(scalar::rounded_div(v, q) * q, v, q),
        v >= 0 ==> 2 * (v - scalar::rounded_div(v, q) * q) < q,
        v < 0 ==> 2 * (scalar::rounded_div(v, q) * q - v) < q,
{
    let a = if v >= 0 {
        v
    } else {
        -v
    };
    let n = a + q / 2;
    let r = n / q;
    vstd::arithmetic::div_mod::lemma_fundamental_div_mod(n, q);
    vstd::arithmetic::div_mod::lemma_mod_bound(n, q);
    assert(q * r == r * q) by (nonlinear_arith);
    assert((-r) * q == -(r * q)) by (nonlinear_arith);
}

/// Quantized coefficients are the nearest ones.
pub proof fn law_quantized(coeff: Seq<int>, q: int, i: int)
    requires
        coeff.len() == 64,
        q >= 1,
        0 <= i < 64,
    ensures
        choice::quantized(coeff, q).len() == 64,
        close(choice::quantized(coeff, q)[i] * q, coeff[i], q),
        coeff[i] >= 0 ==> 2 * (coeff[i] - choice::quantized(coeff, q)[i] * q) < q,
        coeff[i] < 0 ==> 2 * (choice::quantized(coeff, q)[i] * q - coeff[i]) < q,
{
    law_rounded(coeff[i], q);
}

// ---------------------------------------------------------------------------------------------
// Sums of blocks

/// The sum of two blocks.
spec fn sum(a: Seq<int>, b: Seq<int>) -> Seq<int> {
    Seq::new(64, |i: int| a[i] + b[i])
}

proof fn lemma_had_sum(
    k: int,
    a: (int, int, int, int, int, int, int, int),
    b: (int, int, int, int, int, int, int, int),
)
    ensures
        scalar::had(
            k,
            a.0 + b.0,
            a.1 + b.1,
            a.2 + b.2,
            a.3 + b.3,
            a.4 + b.4,
            a.5 + b.5,
            a.6 + b.6,
            a.7 + b.7,
        ) == scalar::had(k, a.0, a.1, a.2, a.3, a.4, a.5, a.6, a.7) + scalar::had(
            k,
            b.0,
            b.1,
            b.2,
            b.3,
            b.4,
            b.5,
            b.6,
            b.7,
        ),
{
    reveal(scalar::had);
}

proof fn lemma_line_sum(k: int, a: Seq<int>, b: Seq<int>, v: int)
    requires
        0 <= v < 8,
    ensures
        scalar::had_line(k, sum(a, b), 8 * v, 1) == scalar::had_line(k, a, 8 * v, 1)
            + scalar::had_line(k, b, 8 * v, 1),
{
    reveal(scalar::had_line);
    let s = 8 * v;
    lemma_had_sum(
        k,
        (a[s], a[s + 1], a[s + 2], a[s + 3], a[s + 4], a[s + 5], a[s + 6], a[s + 7]),
        (b[s], b[s + 1], b[s + 2], b[s + 3], b[s + 4], b[s + 5], b[s + 6], b[s + 7]),
    );
}

proof fn lemma_wht_sum(a: Seq<int>, b: Seq<int>, x: int, y: int)
    requires
        0 <= x < 8,
        0 <= y < 8,
    ensures
        scalar::wht(sum(a, b))[8 * y + x] == scalar::wht(a)[8 * y + x] + scalar::wht(b)[8 * y + x],
{
    scalar::lemma_wht_at(sum(a, b), y, x);
    scalar::lemma_wht_at(a, y, x);
    scalar::lemma_wht_at(b, y, x);
    lemma_line_sum(x, a, b, 0);
    lemma_line_sum(x, a, b, 1);
    lemma_line_sum(x, a, b, 2);
    lemma_line_sum(x, a, b, 3);
    lemma_line_sum(x, a, b, 4);
    lemma_line_sum(x, a, b, 5);
    lemma_line_sum(x, a, b, 6);
    lemma_line_sum(x, a, b, 7);
    let f = |m: Seq<int>, v: int| scalar::had_line(x, m, 8 * v, 1);
    lemma_had_sum(
        y,
        (f(a, 0), f(a, 1), f(a, 2), f(a, 3), f(a, 4), f(a, 5), f(a, 6), f(a, 7)),
        (f(b, 0), f(b, 1), f(b, 2), f(b, 3), f(b, 4), f(b, 5), f(b, 6), f(b, 7)),
    );
}

// ---------------------------------------------------------------------------------------------
// Blocks

/// What is left of a block after the transform, the quantizer and back is no further from the block
/// than half a quantizer step.
pub proof fn law_residual_close(m: Seq<int>, q: int, x: int, y: int)
    requires
        m.len() == 64,
        q >= 1,
        0 <= x < 8,
        0 <= y < 8,
    ensures
        close(
            scalar::inverse_wht(syntax::scaled(choice::quantized(scalar::wht(m), q), q))[8 * y + x],
            m[8 * y + x],
            q,
        ),
{
    let t = scalar::wht(m);
    scalar::lemma_wht_shape(m);
    let c = choice::quantized(t, q);
    let s = syntax::scaled(c, q);
    let e = Seq::new(64, |i: int| s[i] - t[i]);
    let i = 8 * y + x;
    assert forall|j: int| 0 <= j < 64 implies -(q / 2) <= #[trigger] e[j] <= q / 2 by {
        law_rounded(t[j], q);
    }
    scalar::lemma_wht_bound(e, q / 2);
    assert(sum(t, e) =~= s);
    lemma_wht_sum(t, e, x, y);
    scalar::law_wht_twice(m, i);
    scalar::lemma_wht_shape(s);
    reveal(scalar::inverse_wht);
    law_rounded(scalar::wht(s)[i], 64);
    assert(-64 * (q / 2) <= scalar::wht(e)[i] <= 64 * (q / 2));
}

/// Whatever prediction is coded with its residual, each sample that a decoder shows is no further from
/// the source than half a quantizer step.
pub proof fn law_block_close(site: choice::Site, c: choice::Candidate, x: int, y: int)
    requires
        site.wf(),
        site.covers(x, y),
    ensures
        close((site.shown(site.residual_block(c)))(x, y) as int, site.source(x, y) as int, site.q),
{
    let m = site.residual(c);
    law_residual_close(m, site.q, x, y);
    let i = 8 * y + x;
    assert(i % 8 == x && i / 8 == y);
    assert(m[i] == site.source(x, y) - site.predicted(c, x, y));
}

/// Whatever is decided on, each sample that a decoder shows is no further from the source than half a
/// quantizer step.
pub proof fn law_decision_close(
    site: choice::Site,
    opt: EncodeOptions,
    used: Seq<bool>,
    x: int,
    y: int,
)
    requires
        site.wf(),
        site.covers(x, y),
    ensures
        close(
            (site.shown(site.decided(opt, used)))(x, y) as int,
            site.source(x, y) as int,
            site.q,
        ),
{
    let block = site.decided(opt, used);
    choice::lemma_palette_block(site, opt);
    law_block_close(site, site.chosen(opt, used), x, y);
    if site.palette(opt) == Some(block) {
        assert((site.shown(block))(x, y) == site.source(x, y));
    } else {
        assert(block == site.residual_block(site.chosen(opt, used)));
    }
}

/// The same of the reference encoder.
pub proof fn law_reference_decision_close(
    site: choice::Site,
    opt: planes::EncodeOptions,
    x: int,
    y: int,
)
    requires
        site.wf(),
        site.covers(x, y),
    ensures
        close(
            (site.shown(planes::decided(site, opt)))(x, y) as int,
            site.source(x, y) as int,
            site.q,
        ),
{
    let block = planes::decided(site, opt);
    let c = planes::chosen(site, opt.motion_radius as int).1;
    choice::lemma_palette_block(site, planes::palette_options(opt));
    assert(planes::palette(site, opt) == site.palette(planes::palette_options(opt)));
    law_block_close(site, c, x, y);
    if planes::palette(site, opt) == Some(block) {
        assert((site.shown(block))(x, y) == site.source(x, y));
    } else {
        assert(block == site.residual_block(c));
    }
}

// ---------------------------------------------------------------------------------------------
// Planes

#[verifier::spinoff_prover]
#[verifier::rlimit(40)]
proof fn lemma_state_close(
    src: Seq<u8>,
    refs: Seq<Seq<u8>>,
    w: int,
    h: int,
    opt: EncodeOptions,
    k: int,
    x: int,
    y: int,
)
    requires
        encoder::plane_ok(src, refs, w, h, opt),
        opt.qstep >= 1,
        0 <= k <= syntax::block_count(w, h),
        0 <= x < w,
        0 <= y < h,
        0 <= encoder::block_of(w, x, y) < k,
    ensures
        close(
            encoder::plane_state(src, refs, w, h, opt, k).recon[y * w + x] as int,
            src[y * w + x] as int,
            opt.qstep as int,
        ),
    decreases k,
{
    let q = opt.qstep as int;
    let before = encoder::plane_state(src, refs, w, h, opt, k - 1);
    encoder::lemma_state_ok(src, refs, w, h, opt, k - 1);
    let site = encoder::site_at(src, before.recon, refs, w, h, k - 1, q);
    let block = site.decided(opt, before.used);
    encoder::lemma_with_block_at(before.recon, refs, w, h, k - 1, q, block, x, y);
    if encoder::block_of(w, x, y) == k - 1 {
        syntax::lemma_block_place(w, h, k - 1);
        encoder::lemma_block_of(w, h, k - 1, x, y);
        let (sx, sy) = (x - site.bx, y - site.by);
        assert(site.covers(sx, sy));
        assert(site.source(sx, sy) == src[y * w + x]);
        law_decision_close(site, opt, before.used, sx, sy);
    } else {
        lemma_state_close(src, refs, w, h, opt, k - 1, x, y);
    }
}

/// Each sample of a coded plane is no further from its source than half a quantizer step, whatever
/// the preset, the references and the other options.
pub proof fn law_plane_close(
    src: Seq<u8>,
    refs: Seq<Seq<u8>>,
    w: int,
    h: int,
    opt: EncodeOptions,
    i: int,
)
    requires
        encoder::plane_ok(src, refs, w, h, opt),
        opt.qstep >= 1,
        0 <= i < src.len(),
    ensures
        close(
            encoder::coded_plane(src, refs, w, h, opt).recon[i] as int,
            src[i] as int,
            opt.qstep as int,
        ),
{
    let n = syntax::block_count(w, h);
    syntax::lemma_block_count(w, h);
    syntax::lemma_index_inverse(w, h, i);
    encoder::lemma_block_of(w, h, 0, i % w, i / w);
    lemma_state_close(src, refs, w, h, opt, n, i % w, i / w);
}

/// A frame that is coded comes out as a picture of its size, no sample of which is further from the frame
/// than half a quantizer step, in any plane.
pub proof fn law_frame_close(
    frame_id: u64,
    picture: syntax::Picture,
    references: Seq<(u64, syntax::Picture)>,
    opt: EncodeOptions,
    p: int,
    i: int,
)
    requires
        packets::encode_error(frame_id, picture, references, opt) is None,
        0 <= p < 3,
        0 <= i < picture.plane(p).len(),
    ensures
        ({
            let shown = packets::reconstruction(picture, packets::considered(references, opt), opt);
            &&& shown.width == picture.width && shown.height == picture.height
            &&& shown.plane(p).len() == picture.plane(p).len()
            &&& close(shown.plane(p)[i] as int, picture.plane(p)[i] as int, opt.qstep as int)
        }),
{
    let refs = packets::considered(references, opt);
    packets::law_reconstruction_valid(frame_id, picture, references, opt);
    packets::lemma_accepted(frame_id, picture, refs, opt, p);
    reveal(packets::coded);
    law_plane_close(
        picture.plane(p),
        syntax::planes_of(packets::pictures_of(refs), p),
        syntax::plane_len(picture.width, p),
        syntax::plane_len(picture.height, p),
        opt,
        i,
    );
}

#[verifier::spinoff_prover]
#[verifier::rlimit(40)]
proof fn lemma_reference_state_close(
    src: Seq<u8>,
    refs: Seq<Seq<u8>>,
    w: int,
    h: int,
    opt: planes::EncodeOptions,
    k: int,
    x: int,
    y: int,
)
    requires
        planes::plane_ok(src, refs, w, h),
        opt.qstep >= 1,
        0 <= k <= syntax::block_count(w, h),
        0 <= x < w,
        0 <= y < h,
        0 <= encoder::block_of(w, x, y) < k,
    ensures
        close(
            planes::plane_state(src, refs, w, h, opt, k).recon[y * w + x] as int,
            src[y * w + x] as int,
            opt.qstep as int,
        ),
    decreases k,
{
    let q = opt.qstep as int;
    let before = planes::plane_state(src, refs, w, h, opt, k - 1);
    planes::lemma_state_shaped(src, refs, w, h, opt, k - 1);
    let site = encoder::site_at(src, before.recon, refs, w, h, k - 1, q);
    let block = planes::decided(site, opt);
    encoder::lemma_with_block_at(before.recon, refs, w, h, k - 1, q, block, x, y);
    if encoder::block_of(w, x, y) == k - 1 {
        syntax::lemma_block_place(w, h, k - 1);
        encoder::lemma_block_of(w, h, k - 1, x, y);
        let (sx, sy) = (x - site.bx, y - site.by);
        assert(site.covers(sx, sy));
        assert(site.source(sx, sy) == src[y * w + x]);
        law_reference_decision_close(site, opt, sx, sy);
    } else {
        lemma_reference_state_close(src, refs, w, h, opt, k - 1, x, y);
    }
}

/// The same of the reference encoder.
pub proof fn law_reference_plane_close(
    src: Seq<u8>,
    refs: Seq<Seq<u8>>,
    w: int,
    h: int,
    opt: planes::EncodeOptions,
    i: int,
)
    requires
        planes::plane_ok(src, refs, w, h),
        opt.qstep >= 1,
        0 <= i < src.len(),
    ensures
        close(
            planes::coded_plane(src, refs, w, h, opt).recon[i] as int,
            src[i] as int,
            opt.qstep as int,
        ),
{
    let n = syntax::block_count(w, h);
    syntax::lemma_block_count(w, h);
    syntax::lemma_index_inverse(w, h, i);
    encoder::lemma_block_of(w, h, 0, i % w, i / w);
    lemma_reference_state_close(src, refs, w, h, opt, n, i % w, i / w);
}

} // verus!
