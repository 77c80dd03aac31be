//! How the reference encoder codes a plane: every motion within the radius is tried, the
//! prediction with the least error is coded, and a palette where that error is large.
use crate::kernels::KernelSet;
use crate::video::v1::blocks;
use crate::video::v1::blocks::BlockRec;
use crate::video::v1::choice;
use crate::video::v1::choice::{evaluate_residual_candidate, palette_for, InterCandidate, ResidualEval};
use crate::video::v1::encoder;
use crate::video::v1::prediction;
use crate::video::v1::search;
use crate::video::v1::syntax;
use crate::video::v1::writing;
use vstd::prelude::*;

verus! {

/// Encoder search options.
#[derive(Debug, Clone, Copy, PartialEq, Eq, Structural)]
pub struct EncodeOptions {
    /// Quantizer step. `1` selects mathematically lossless residual coding.
    pub qstep: u16,
    /// Integer-pixel motion-search radius before half-sample refinement.
    pub motion_radius: u8,
    /// Maximum reference frames considered by the encoder.
    pub max_refs: u8,
    /// Whether exact small-palette blocks may be considered.
    pub allow_palette: bool,
}

impl Default for EncodeOptions {
    fn default() -> (r: Self)
        ensures
            r == (EncodeOptions {
                qstep: 96,
                motion_radius: 4,
                max_refs: 1,
                allow_palette: true,
            }),
    {
        EncodeOptions { qstep: 96, motion_radius: 4, max_refs: 1, allow_palette: true }
    }
}

/// The quantizer step that options ask for.
pub open spec fn step_of(opt: EncodeOptions) -> int {
    if opt.qstep == 0 {
        1
    } else {
        opt.qstep as int
    }
}

// ---------------------------------------------------------------------------------------------
// Motion

/// Tries the half-sample motions around a whole-sample one, from number `i` of nine on.
pub open spec fn refined(
    cost: spec_fn(int, int) -> nat,
    dx: int,
    dy: int,
    best: (nat, int, int),
    i: int,
) -> (nat, int, int)
    decreases 9 - i,
{
    if i >= 9 {
        best
    } else {
        let (dx2, dy2) = (2 * dx + i % 3 - 1, 2 * dy + i / 3 - 1);
        let next = if cost(dx2, dy2) < best.0 {
            (cost(dx2, dy2), dx2, dy2)
        } else {
            best
        };
        refined(cost, dx, dy, next, i + 1)
    }
}

/// The motion that the search settles on: its error and its components in half samples.
pub open spec fn best_motion(cost: spec_fn(int, int) -> nat, radius: int) -> (nat, int, int) {
    if cost(0, 0) == 0 {
        (0, 0, 0)
    } else {
        let whole = search::full_search(cost, radius, (2 * radius + 1) * (2 * radius + 1));
        let start = (whole.0, 2 * whole.1, 2 * whole.2);
        if whole.0 == 0 {
            start
        } else {
            refined(cost, whole.1, whole.2, start, 0)
        }
    }
}

proof fn lemma_refined(
    cost: spec_fn(int, int) -> nat,
    dx: int,
    dy: int,
    best: (nat, int, int),
    i: int,
    radius: int,
)
    requires
        -radius <= dx <= radius,
        -radius <= dy <= radius,
        search::within(best, 2 * radius + 1),
        0 <= i,
    ensures
        search::within(refined(cost, dx, dy, best, i), 2 * radius + 1),
    decreases 9 - i,
{
    if i < 9 {
        let (dx2, dy2) = (2 * dx + i % 3 - 1, 2 * dy + i / 3 - 1);
        let next = if cost(dx2, dy2) < best.0 {
            (cost(dx2, dy2), dx2, dy2)
        } else {
            best
        };
        lemma_refined(cost, dx, dy, next, i + 1, radius);
    }
}

/// No motion goes further than half a sample beyond the radius.
pub proof fn law_motion_range(cost: spec_fn(int, int) -> nat, radius: int)
    requires
        0 <= radius,
    ensures
        search::within(best_motion(cost, radius), 2 * radius + 1),
{
    if cost(0, 0) != 0 {
        let n = (2 * radius + 1) * (2 * radius + 1);
        search::lemma_full_search(cost, radius, n);
        let whole = search::full_search(cost, radius, n);
        let start = (whole.0, 2 * whole.1, 2 * whole.2);
        lemma_refined(cost, whole.1, whole.2, start, 0, radius);
    }
}

/// Tries the half-sample motions around a motion by whole samples.
fn refine(
    src: &[u8],
    reference: &[u8],
    w: usize,
    h: usize,
    bx: usize,
    by: usize,
    whole: (u32, i32, i32),
) -> (r: (u32, i32, i32))
    requires
        prediction::placed(src@.len(), w, h, bx, by),
        reference@.len() == src@.len(),
        search::within(search::motion_view(whole), 255),
    ensures
        search::motion_view(r) == refined(
            search::motion_cost(src@, reference@, w as int, h as int, bx as int, by as int),
            whole.1 as int,
            whole.2 as int,
            (whole.0 as nat, 2 * whole.1, 2 * whole.2),
            0,
        ),
{
    let ghost cost = search::motion_cost(
        src@,
        reference@,
        w as int,
        h as int,
        bx as int,
        by as int,
    );
    let ghost goal = refined(
        cost,
        whole.1 as int,
        whole.2 as int,
        (whole.0 as nat, 2 * whole.1, 2 * whole.2),
        0,
    );
    let mut sub: (u32, i32, i32) = (whole.0, 2 * whole.1, 2 * whole.2);
    let mut i: i32 = 0;
    while i < 9
        invariant
            prediction::placed(src@.len(), w, h, bx, by),
            reference@.len() == src@.len(),
            search::within(search::motion_view(whole), 255),
            cost == search::motion_cost(
                src@,
                reference@,
                w as int,
                h as int,
                bx as int,
                by as int,
            ),
            0 <= i <= 9,
            goal == refined(cost, whole.1 as int, whole.2 as int, search::motion_view(sub), i as int),
        decreases 9 - i,
    {
        let dx2: i32 = 2 * whole.1 + i % 3 - 1;
        let dy2: i32 = 2 * whole.2 + i / 3 - 1;
        let d: u32 = search::sad_inter(
            src,
            reference,
            w,
            h,
            bx,
            by,
            dx2,
            dy2,
            KernelSet::scalar(),
        );
        if d < sub.0 {
            sub = (d, dx2, dy2);
        }
        i = i + 1;
    }
    sub
}

/// Searches for the motion that predicts a block best.
fn search_motion(
    src: &[u8],
    reference: &[u8],
    w: usize,
    h: usize,
    bx: usize,
    by: usize,
    radius: i32,
) -> (r: (u32, i32, i32))
    requires
        prediction::placed(src@.len(), w, h, bx, by),
        reference@.len() == src@.len(),
        0 <= radius <= 255,
    ensures
        search::motion_view(r) == best_motion(
            search::motion_cost(src@, reference@, w as int, h as int, bx as int, by as int),
            radius as int,
        ),
        search::within(search::motion_view(r), 511),
{
    let ghost cost = search::motion_cost(
        src@,
        reference@,
        w as int,
        h as int,
        bx as int,
        by as int,
    );
    proof {
        law_motion_range(cost, radius as int);
        search::lemma_full_search(cost, radius as int, (2 * radius + 1) * (2 * radius + 1));
    }
    let zero: u32 = search::sad_inter(src, reference, w, h, bx, by, 0, 0, KernelSet::scalar());
    if zero == 0 {
        return (0, 0, 0);
    }
    let whole: (u32, i32, i32) = search::search_full(
        src,
        reference,
        w,
        h,
        bx,
        by,
        radius,
        zero,
        KernelSet::scalar(),
    );
    if whole.0 == 0 {
        (0, 2 * whole.1, 2 * whole.2)
    } else {
        refine(src, reference, w, h, bx, by, whole)
    }
}

// ---------------------------------------------------------------------------------------------
// Decisions

/// The motion that is found in reference `i`.
pub open spec fn motion(site: choice::Site, i: int, radius: int) -> (nat, int, int) {
    best_motion(
        search::motion_cost(site.src, site.refs[i], site.w, site.h, site.bx, site.by),
        radius,
    )
}

/// The best motion in the first `n` references, the first of equals, and its error.
pub open spec fn best_inter(site: choice::Site, radius: int, n: int) -> Option<
    (nat, choice::Candidate),
>
    decreases n,
{
    if n <= 0 {
        None
    } else {
        let m = motion(site, n - 1, radius);
        let found = Some(
            (m.0, choice::Candidate { mode: 3, reference: n - 1, dx: m.1, dy: m.2 }),
        );
        match best_inter(site, radius, n - 1) {
            None => found,
            Some((least, c)) => if m.0 < least {
                found
            } else {
                Some((least, c))
            },
        }
    }
}

/// The prediction with the least error; intra on a tie.
pub open spec fn chosen(site: choice::Site, radius: int) -> (nat, choice::Candidate) {
    match best_inter(site, radius, site.refs.len() as int) {
        Some((least, c)) => if least < site.best_intra().0 {
            (least, c)
        } else {
            (site.best_intra().0, site.intra_candidate())
        },
        None => (site.best_intra().0, site.intra_candidate()),
    }
}

/// The palette of the block, if one may be used and there is one.
pub open spec fn palette(site: choice::Site, opt: EncodeOptions) -> Option<syntax::Block> {
    if opt.allow_palette {
        choice::palette_of(
            choice::block_samples(site.src, site.w, site.h, site.bx, site.by),
        )
    } else {
        None
    }
}

/// What is coded: a palette where the best prediction misses by more than four per sample.
pub open spec fn decided(site: choice::Site, opt: EncodeOptions) -> syntax::Block {
    let (error, c) = chosen(site, opt.motion_radius as int);
    match palette(site, opt) {
        Some(block) => if error > 4 * site.count() {
            block
        } else {
            site.residual_block(c)
        },
        None => site.residual_block(c),
    }
}

/// The options of the production encoder that decide on palettes in the same way.
pub open spec fn palette_options(opt: EncodeOptions) -> crate::video::v1::EncodeOptions {
    crate::video::v1::EncodeOptions {
        qstep: opt.qstep,
        motion_radius: 0,
        max_refs: 0,
        preset: crate::video::v1::EncoderPreset::Fast,
        allow_palette: opt.allow_palette,
    }
}

proof fn lemma_best_inter(site: choice::Site, radius: int, n: int)
    requires
        0 <= n <= site.refs.len(),
        0 <= radius <= 255,
    ensures
        best_inter(site, radius, n) matches Some((least, c)) ==> site.reaches(c) && c.mode == 3
            && -(2 * radius + 1) <= c.dx <= 2 * radius + 1 && -(2 * radius + 1) <= c.dy <= 2 * radius
            + 1,
    decreases n,
{
    if n > 0 {
        lemma_best_inter(site, radius, n - 1);
        law_motion_range(
            search::motion_cost(site.src, site.refs[n - 1], site.w, site.h, site.bx, site.by),
            radius,
        );
    }
}

proof fn lemma_chosen(site: choice::Site, radius: int)
    requires
        0 <= radius <= 255,
    ensures
        site.reaches(chosen(site, radius).1),
        radius <= 31 ==> site.admits(chosen(site, radius).1),
{
    lemma_best_inter(site, radius, site.refs.len() as int);
}

/// A block that the writers take.
pub open spec fn shaped(block: syntax::Block, refs: nat) -> bool {
    match block {
        syntax::Block::Palette { colors, index } => colors.len() <= 4 && index.len() <= 64,
        syntax::Block::Residual { mode, reference, dx, dy, coeff } => mode == 3 ==> 0 <= reference
            < refs,
    }
}

/// Whatever is decided on is a block that the writers take; within a radius of 31 it can be read
/// back; and at a quantizer step of one it shows the source.
pub proof fn law_decision(site: choice::Site, opt: EncodeOptions)
    requires
        site.wf(),
    ensures
        shaped(decided(site, opt), site.refs.len()),
        opt.motion_radius <= 31 ==> writing::writable(
            decided(site, opt),
            site.refs.len(),
            site.count(),
            site.q,
        ),
        site.q == 1 ==> forall|x: int, y: int|
            site.covers(x, y) ==> #[trigger] (site.shown(decided(site, opt)))(x, y) == site.source(
                x,
                y,
            ),
{
    let c = chosen(site, opt.motion_radius as int).1;
    lemma_chosen(site, opt.motion_radius as int);
    choice::lemma_palette_block(site, palette_options(opt));
    choice::lemma_count(site);
    assert(palette(site, opt) == site.palette(palette_options(opt)));
    if opt.motion_radius <= 31 {
        choice::law_residual_writable(site, c);
    }
    if site.q == 1 {
        assert forall|x: int, y: int| site.covers(x, y) implies #[trigger] (site.shown(
            decided(site, opt),
        ))(x, y) == site.source(x, y) by {
            choice::law_lossless_block(site, c, x, y);
        }
    }
}

/// The best motion in any of the references.
fn find_best_inter(
    src: &[u8],
    refs: &[&[u8]],
    w: usize,
    h: usize,
    bx: usize,
    by: usize,
    radius: i32,
    Ghost(site): Ghost<choice::Site>,
) -> (r: Option<InterCandidate>)
    requires
        prediction::placed(src@.len(), w, h, bx, by),
        site.wf(),
        site.src == src@ && site.refs == blocks::views(refs@),
        site.w == w && site.h == h && site.bx == bx && site.by == by,
        0 <= radius <= 255,
    ensures
        match r {
            Some(c) => best_inter(site, radius as int, refs@.len() as int) == Some(c.model()),
            None => best_inter(site, radius as int, refs@.len() as int) is None,
        },
{
    let mut best: Option<InterCandidate> = None;
    let mut i: usize = 0;
    while i < refs.len()
        invariant
            prediction::placed(src@.len(), w, h, bx, by),
            site.wf(),
            site.src == src@ && site.refs == blocks::views(refs@),
            site.w == w && site.h == h && site.bx == bx && site.by == by,
            0 <= radius <= 255,
            i <= refs@.len(),
            match best {
                Some(c) => best_inter(site, radius as int, i as int) == Some(c.model()),
                None => best_inter(site, radius as int, i as int) is None,
            },
        decreases refs@.len() - i,
    {
        assert(site.refs[i as int] == refs@[i as int]@);
        let (sad, dx2, dy2): (u32, i32, i32) = search_motion(src, refs[i], w, h, bx, by, radius);
        let better: bool = match &best {
            None => true,
            Some(c) => sad < c.sad,
        };
        if better {
            best = Some(InterCandidate { sad, ref_idx: i, dx2, dy2 });
        }
        i = i + 1;
    }
    best
}

/// Decides what to code for a block and gives the samples that it will show.
fn decide(
    src: &[u8],
    recon: &[u8],
    refs: &[&[u8]],
    w: usize,
    h: usize,
    bx: usize,
    by: usize,
    opt: EncodeOptions,
    q: i32,
) -> (r: (BlockRec, [u8; 64]))
    requires
        prediction::placed(src@.len(), w, h, bx, by),
        choice::site_of(src, recon, refs, w, h, bx, by, q).wf(),
    ensures
        r.0.model() == decided(choice::site_of(src, recon, refs, w, h, bx, by, q), opt),
        forall|x: int, y: int|
            choice::site_of(src, recon, refs, w, h, bx, by, q).covers(x, y)
                ==> #[trigger] r.1@[8 * y + x] == (choice::site_of(
                src,
                recon,
                refs,
                w,
                h,
                bx,
                by,
                q,
            ).shown(r.0.model()))(x, y),
{
    let ghost site = choice::site_of(src, recon, refs, w, h, bx, by, q);
    let radius: i32 = opt.motion_radius as i32;
    proof {
        choice::lemma_palette_block(site, palette_options(opt));
        assert(palette(site, opt) == site.palette(palette_options(opt)));
        choice::lemma_count(site);
        lemma_chosen(site, radius as int);
    }
    let (intra_error, intra_mode): (u32, u8) = choice::find_best_intra(
        src,
        recon,
        w,
        h,
        bx,
        by,
        Ghost(site),
    );
    let inter: Option<InterCandidate> = find_best_inter(
        src,
        refs,
        w,
        h,
        bx,
        by,
        radius,
        Ghost(site),
    );
    let (error, mode, ref_idx, dx2, dy2): (u32, u8, usize, i32, i32) = match &inter {
        Some(c) => if c.sad < intra_error {
            (c.sad, 3, c.ref_idx, c.dx2, c.dy2)
        } else {
            (intra_error, intra_mode, 0, 0, 0)
        },
        None => (intra_error, intra_mode, 0, 0, 0),
    };
    if opt.allow_palette {
        match palette_for(src, w, h, bx, by) {
            Some((colors, idx)) => {
                let bw: usize = prediction::cut_len(w, bx);
                let bh: usize = prediction::cut_len(h, by);
                assert(bw * bh == site.count());
                if error as usize > 4 * (bw * bh) {
                    let samples: [u8; 64] = blocks::palette_samples(&colors, &idx, bw, bh);
                    let block: BlockRec = BlockRec::Palette { colors, idx };
                    proof {
                        assert forall|x: int, y: int| site.covers(x, y) implies #[trigger] samples@[8
                            * y + x] == (site.shown(block.model()))(x, y) by {
                            assert(samples@[8 * y + x] == colors@[idx@[y * bw + x] as int]);
                        }
                    }
                    return (block, samples);
                }
            },
            None => {},
        }
    }
    let eval: ResidualEval = evaluate_residual_candidate(
        src,
        recon,
        refs,
        w,
        h,
        bx,
        by,
        mode,
        ref_idx,
        dx2,
        dy2,
        q,
        KernelSet::scalar(),
    );
    let block: BlockRec = BlockRec::Residual {
        mode: eval.mode,
        ref_idx: eval.ref_idx,
        dx2: eval.dx2,
        dy2: eval.dy2,
        qcoeff: eval.qcoeff,
    };
    (block, eval.samples)
}

// ---------------------------------------------------------------------------------------------
// Planes

/// The state after the first `k` blocks.
pub open spec fn plane_state(
    src: Seq<u8>,
    refs: Seq<Seq<u8>>,
    w: int,
    h: int,
    opt: EncodeOptions,
    k: int,
) -> encoder::PlaneState
    decreases k,
{
    if k <= 0 {
        encoder::PlaneState {
            list: Seq::empty(),
            recon: syntax::gray(w, h),
            used: Seq::new(refs.len(), |i: int| false),
        }
    } else {
        let before = plane_state(src, refs, w, h, opt, k - 1);
        let q = step_of(opt);
        let block = decided(encoder::site_at(src, before.recon, refs, w, h, k - 1, q), opt);
        encoder::PlaneState {
            list: before.list.push(block),
            recon: syntax::with_block(
                before.recon,
                refs,
                w,
                h,
                syntax::block_x(w, k - 1),
                syntax::block_y(w, k - 1),
                q,
                block,
            ),
            used: encoder::marked(before.used, block),
        }
    }
}

/// The state after the whole plane.
pub open spec fn coded_plane(
    src: Seq<u8>,
    refs: Seq<Seq<u8>>,
    w: int,
    h: int,
    opt: EncodeOptions,
) -> encoder::PlaneState {
    plane_state(src, refs, w, h, opt, syntax::block_count(w, h))
}

/// Sizes fit.
pub open spec fn plane_ok(src: Seq<u8>, refs: Seq<Seq<u8>>, w: int, h: int) -> bool {
    &&& prediction::plane_fits(w, h)
    &&& src.len() == w * h
    &&& forall|i: int| 0 <= i < refs.len() ==> #[trigger] refs[i].len() == w * h
}

/// The list of the first `k` blocks is as long, the writers take all of it, and every reference in
/// use is marked.
pub open spec fn state_shaped(state: encoder::PlaneState, refs: nat, w: int, h: int, k: int) -> bool {
    &&& state.list.len() == k
    &&& state.recon.len() == w * h
    &&& state.used.len() == refs
    &&& forall|i: int| 0 <= i < k ==> shaped(#[trigger] state.list[i], refs)
    &&& forall|i: int| 0 <= i < k ==> encoder::marked_in(state.used, #[trigger] state.list[i])
}

pub proof fn lemma_state_shaped(
    src: Seq<u8>,
    refs: Seq<Seq<u8>>,
    w: int,
    h: int,
    opt: EncodeOptions,
    k: int,
)
    requires
        plane_ok(src, refs, w, h),
        0 <= k <= syntax::block_count(w, h),
    ensures
        state_shaped(plane_state(src, refs, w, h, opt, k), refs.len(), w, h, k),
        opt.motion_radius <= 31 ==> encoder::state_ok(
            plane_state(src, refs, w, h, opt, k),
            refs.len(),
            w,
            h,
            step_of(opt),
            k,
        ),
    decreases k,
{
    let q = step_of(opt);
    let state = plane_state(src, refs, w, h, opt, k);
    if k > 0 {
        let before = plane_state(src, refs, w, h, opt, k - 1);
        lemma_state_shaped(src, refs, w, h, opt, k - 1);
        syntax::lemma_block_place(w, h, k - 1);
        let site = encoder::site_at(src, before.recon, refs, w, h, k - 1, q);
        let block = decided(site, opt);
        law_decision(site, opt);
        assert(state.list == before.list.push(block));
        assert(state.used == encoder::marked(before.used, block));
        assert forall|i: int| 0 <= i < k implies shaped(#[trigger] state.list[i], refs.len())
            && encoder::marked_in(state.used, state.list[i]) by {
            if i < k - 1 {
                assert(state.list[i] == before.list[i]);
                assert(encoder::marked_in(before.used, before.list[i]));
            }
        }
        if opt.motion_radius <= 31 {
            assert forall|i: int| 0 <= i < k implies writing::writable(
                #[trigger] state.list[i],
                refs.len(),
                syntax::cut(w, syntax::block_x(w, i)) * syntax::cut(h, syntax::block_y(w, i)),
                q,
            ) by {
                if i < k - 1 {
                    assert(state.list[i] == before.list[i]);
                }
            }
        }
    }
}

/// The reconstruction is what a decoder that read the blocks would have.
pub proof fn lemma_state_rendered(
    src: Seq<u8>,
    refs: Seq<Seq<u8>>,
    w: int,
    h: int,
    opt: EncodeOptions,
    k: int,
)
    requires
        plane_ok(src, refs, w, h),
        0 <= k <= syntax::block_count(w, h),
    ensures
        plane_state(src, refs, w, h, opt, k).recon == writing::rendered(
            plane_state(src, refs, w, h, opt, k).list,
            k,
            refs,
            w,
            h,
            step_of(opt),
        ),
    decreases k,
{
    if k > 0 {
        let q = step_of(opt);
        let state = plane_state(src, refs, w, h, opt, k);
        let before = plane_state(src, refs, w, h, opt, k - 1);
        lemma_state_rendered(src, refs, w, h, opt, k - 1);
        lemma_state_shaped(src, refs, w, h, opt, k - 1);
        encoder::lemma_rendered_prefix(before.list, state.list, k - 1, refs, w, h, q);
    }
}

proof fn lemma_state_lossless(
    src: Seq<u8>,
    refs: Seq<Seq<u8>>,
    w: int,
    h: int,
    opt: EncodeOptions,
    k: int,
    x: int,
    y: int,
)
    requires
        plane_ok(src, refs, w, h),
        step_of(opt) == 1,
        0 <= k <= syntax::block_count(w, h),
        0 <= x < w,
        0 <= y < h,
        0 <= encoder::block_of(w, x, y) < k,
    ensures
        plane_state(src, refs, w, h, opt, k).recon[y * w + x] == src[y * w + x],
    decreases k,
{
    let before = plane_state(src, refs, w, h, opt, k - 1);
    lemma_state_shaped(src, refs, w, h, opt, k - 1);
    let site = encoder::site_at(src, before.recon, refs, w, h, k - 1, 1);
    let block = decided(site, opt);
    encoder::lemma_with_block_at(before.recon, refs, w, h, k - 1, 1, block, x, y);
    if encoder::block_of(w, x, y) == k - 1 {
        syntax::lemma_block_place(w, h, k - 1);
        encoder::lemma_block_of(w, h, k - 1, x, y);
        law_decision(site, opt);
        let (bx, by) = (site.bx, site.by);
        assert(site.covers(x - bx, y - by));
        assert((site.shown(block))(x - bx, y - by) == site.source(x - bx, y - by));
        assert(site.source(x - bx, y - by) == src[y * w + x]);
    } else {
        lemma_state_lossless(src, refs, w, h, opt, k - 1, x, y);
    }
}

/// Coding a plane at a quantizer step of one loses nothing.
pub proof fn law_plane_lossless(
    src: Seq<u8>,
    refs: Seq<Seq<u8>>,
    w: int,
    h: int,
    opt: EncodeOptions,
)
    requires
        plane_ok(src, refs, w, h),
        opt.qstep == 1,
    ensures
        coded_plane(src, refs, w, h, opt).recon == src,
{
    let n = syntax::block_count(w, h);
    syntax::lemma_block_count(w, h);
    lemma_state_shaped(src, refs, w, h, opt, n);
    let recon = coded_plane(src, refs, w, h, opt).recon;
    assert forall|i: int| 0 <= i < src.len() implies recon[i] == src[i] by {
        syntax::lemma_index_inverse(w, h, i);
        encoder::lemma_block_of(w, h, 0, i % w, i / w);
        lemma_state_lossless(src, refs, w, h, opt, n, i % w, i / w);
    }
    assert(recon =~= src);
}

/// Encodes one plane: what is coded for each block, the reconstruction, and which references are
/// used.
pub fn encode_plane(src: &[u8], refs: &[&[u8]], w: usize, h: usize, opt: EncodeOptions) -> (r: (
    Vec<BlockRec>,
    Vec<u8>,
    Vec<bool>,
))
    requires
        plane_ok(src@, blocks::views(refs@), w as int, h as int),
    ensures
        ({
            let state = coded_plane(src@, blocks::views(refs@), w as int, h as int, opt);
            &&& writing::models(r.0@) == state.list
            &&& r.1@ == state.recon
            &&& r.2@ == state.used
        }),
{
    let ghost planes = blocks::views(refs@);
    let ghost count = syntax::block_count(w as int, h as int);
    proof {
        prediction::lemma_fits(w as int, h as int);
        syntax::lemma_block_count(w as int, h as int);
    }
    let mut recon: Vec<u8> = vec![128u8; w * h];
    assert(recon@ =~= syntax::gray(w as int, h as int));
    let q: i32 = if opt.qstep == 0 {
        1
    } else {
        opt.qstep as i32
    };
    let mut list: Vec<BlockRec> = Vec::new();
    let mut used: Vec<bool> = vec![false; refs.len()];
    let ghost mut k: int = 0;
    let mut bx: usize = 0;
    let mut by: usize = 0;
    proof {
        let start = plane_state(src@, planes, w as int, h as int, opt, 0);
        assert(used@ =~= start.used);
        assert(writing::models(list@) =~= start.list);
    }
    while by < h
        invariant
            plane_ok(src@, planes, w as int, h as int),
            w <= 0x400_0000,
            h <= 0x400_0000,
            planes == blocks::views(refs@),
            count == syntax::block_count(w as int, h as int),
            q == step_of(opt),
            1 <= q <= 65535,
            recon@.len() == w * h,
            0 <= k <= count,
            by < h <==> k < count,
            bx == syntax::block_x(w as int, k),
            by == syntax::block_y(w as int, k),
            writing::models(list@) == plane_state(src@, planes, w as int, h as int, opt, k).list,
            recon@ == plane_state(src@, planes, w as int, h as int, opt, k).recon,
            used@ == plane_state(src@, planes, w as int, h as int, opt, k).used,
            used@.len() == refs@.len(),
        decreases count - k,
    {
        proof {
            syntax::lemma_block_place(w as int, h as int, k);
            syntax::lemma_next_place(w as int, h as int, k);
        }
        let ghost before = plane_state(src@, planes, w as int, h as int, opt, k);
        let ghost after = plane_state(src@, planes, w as int, h as int, opt, k + 1);
        let ghost site = encoder::site_at(src@, recon@, planes, w as int, h as int, k, q as int);
        let (block, samples): (BlockRec, [u8; 64]) = decide(
            src,
            recon.as_slice(),
            refs,
            w,
            h,
            bx,
            by,
            opt,
            q,
        );
        blocks::store_block(recon.as_mut_slice(), w, h, bx, by, &samples);
        proof {
            law_decision(site, opt);
            let f = |x: int, y: int| samples@[8 * y + x];
            let g = |x: int, y: int|
                syntax::block_sample(
                    before.recon,
                    planes,
                    w as int,
                    h as int,
                    bx as int,
                    by as int,
                    q as int,
                    block.model(),
                    x,
                    y,
                );
            assert forall|x: int, y: int|
                0 <= x < syntax::cut(w as int, bx as int) && 0 <= y < syntax::cut(
                    h as int,
                    by as int,
                ) implies #[trigger] f(x, y) == g(x, y) by {
                assert(site.covers(x, y));
                assert(samples@[8 * y + x] == (site.shown(block.model()))(x, y));
            }
            syntax::lemma_stored_agree(
                before.recon,
                w as int,
                h as int,
                bx as int,
                by as int,
                f,
                g,
            );
            assert(recon@ == after.recon);
        }
        match &block {
            BlockRec::Residual { mode, ref_idx, dx2, dy2, qcoeff } => {
                if *mode == 3 {
                    used.set(*ref_idx, true);
                }
            },
            BlockRec::Palette { colors, idx } => {},
        }
        let ghost prior = list@;
        list.push(block);
        proof {
            assert(writing::models(list@) =~= writing::models(prior).push(block.model()));
            k = k + 1;
        }
        bx = bx + 8;
        if bx >= w {
            bx = 0;
            by = by + 8;
        }
    }
    (list, recon, used)
}

/// No number of a block that is decided on is large.
pub proof fn lemma_decision_bounded(site: choice::Site, opt: EncodeOptions)
    requires
        site.wf(),
    ensures
        writing::bounded(decided(site, opt)),
{
    let c = chosen(site, opt.motion_radius as int).1;
    lemma_chosen(site, opt.motion_radius as int);
    choice::lemma_palette_block(site, palette_options(opt));
    choice::lemma_count(site);
    assert(palette(site, opt) == site.palette(palette_options(opt)));
    choice::law_residual_scales(site, c);
}

} // verus!
