//! Encoding of one plane of an ALV1 frame.
use crate::kernels::KernelSet;
use crate::video::v1::blocks;
use crate::video::v1::blocks::BlockRec;
use crate::video::v1::choice;
use crate::video::v1::prediction;
use crate::video::v1::syntax;
use crate::video::v1::writing;
use crate::video::v1::{EncodeOptions, VideoError};
use vstd::prelude::*;

verus! {

// ---------------------------------------------------------------------------------------------
// Planes

/// What the encoder knows after some blocks of a plane.
pub struct PlaneState {
    /// What was decided for each block.
    pub list: Seq<syntax::Block>,
    /// The plane as a decoder will see it.
    pub recon: Seq<u8>,
    /// Which references some block uses.
    pub used: Seq<bool>,
}

/// The place of block `k` in a plane.
pub open spec fn site_at(
    src: Seq<u8>,
    recon: Seq<u8>,
    refs: Seq<Seq<u8>>,
    w: int,
    h: int,
    k: int,
    q: int,
) -> choice::Site {
    choice::Site {
        src,
        recon,
        refs,
        w,
        h,
        bx: syntax::block_x(w, k),
        by: syntax::block_y(w, k),
        q,
    }
}

/// Notes the reference that a block uses.
pub open spec fn marked(used: Seq<bool>, block: syntax::Block) -> Seq<bool> {
    match block {
        syntax::Block::Palette { colors, index } => used,
        syntax::Block::Residual { mode, reference, dx, dy, coeff } => if mode == 3 {
            used.update(reference, true)
        } else {
            used
        },
    }
}

/// The state after the first `k` blocks.
pub open spec fn plane_state(
    src: Seq<u8>,
    refs: Seq<Seq<u8>>,
    w: int,
    h: int,
    opt: EncodeOptions,
    k: int,
) -> PlaneState
    decreases k,
{
    if k <= 0 {
        PlaneState {
            list: Seq::empty(),
            recon: syntax::gray(w, h),
            used: Seq::new(refs.len(), |i: int| false),
        }
    } else {
        let before = plane_state(src, refs, w, h, opt, k - 1);
        let q = choice::step_of(opt);
        let block = site_at(src, before.recon, refs, w, h, k - 1, q).decided(opt, before.used);
        PlaneState {
            list: before.list.push(block),
            recon: syntax::with_block(
                before.recon,
                refs,
                w,
                h,
                syntax::block_x(w, k - 1),
                syntax::block_y(w, k - 1),
                q,
                block,
            ),
            used: marked(before.used, block),
        }
    }
}

/// The state after the whole plane.
pub open spec fn coded_plane(
    src: Seq<u8>,
    refs: Seq<Seq<u8>>,
    w: int,
    h: int,
    opt: EncodeOptions,
) -> PlaneState {
    plane_state(src, refs, w, h, opt, syntax::block_count(w, h))
}

/// Sizes agree and the options are within range.
pub open spec fn plane_ok(src: Seq<u8>, refs: Seq<Seq<u8>>, w: int, h: int, opt: EncodeOptions) -> bool {
    &&& 0 < w && 0 < h
    &&& src.len() == w * h
    &&& forall|i: int| 0 <= i < refs.len() ==> #[trigger] refs[i].len() == w * h
    &&& opt.motion_radius <= 32
    &&& refs.len() <= 4
}

pub proof fn lemma_rendered_prefix(
    a: Seq<syntax::Block>,
    b: Seq<syntax::Block>,
    k: int,
    refs: Seq<Seq<u8>>,
    w: int,
    h: int,
    q: int,
)
    requires
        0 <= k <= a.len(),
        k <= b.len(),
        forall|i: int| 0 <= i < k ==> a[i] == b[i],
    ensures
        writing::rendered(a, k, refs, w, h, q) == writing::rendered(b, k, refs, w, h, q),
    decreases k,
{
    if k > 0 {
        lemma_rendered_prefix(a, b, k - 1, refs, w, h, q);
    }
}

/// The block that holds the sample (`x`, `y`).
pub open spec fn block_of(w: int, x: int, y: int) -> int {
    (y / 8) * syntax::block_columns(w) + x / 8
}

pub proof fn lemma_block_of(w: int, h: int, k: int, x: int, y: int)
    requires
        0 < w,
        0 < h,
        0 <= k < syntax::block_count(w, h),
        0 <= x < w,
        0 <= y < h,
    ensures
        (syntax::block_x(w, k) <= x < syntax::block_x(w, k) + 8 && syntax::block_y(w, k) <= y
            < syntax::block_y(w, k) + 8) <==> block_of(w, x, y) == k,
        0 <= block_of(w, x, y) < syntax::block_count(w, h),
{
    let c = syntax::block_columns(w);
    let r = syntax::block_columns(h);
    syntax::lemma_index(c, r, x / 8, y / 8);
    syntax::lemma_index_inverse(c, r, k);
}

/// The list of the first `k` blocks is as long, all of it can be written, and every reference in
/// use is marked.
pub open spec fn state_ok(state: PlaneState, refs: nat, w: int, h: int, q: int, k: int) -> bool {
    &&& state.list.len() == k
    &&& state.recon.len() == w * h
    &&& state.used.len() == refs
    &&& forall|i: int|
        0 <= i < k ==> writing::writable(
            #[trigger] state.list[i],
            refs,
            syntax::cut(w, syntax::block_x(w, i)) * syntax::cut(h, syntax::block_y(w, i)),
            q,
        )
    &&& forall|i: int| 0 <= i < k ==> marked_in(state.used, #[trigger] state.list[i])
}

/// The reference of the block, if it has one, is marked.
pub open spec fn marked_in(used: Seq<bool>, block: syntax::Block) -> bool {
    match block {
        syntax::Block::Palette { colors, index } => true,
        syntax::Block::Residual { mode, reference, dx, dy, coeff } => mode == 3 ==> 0 <= reference
            < used.len() && used[reference],
    }
}

pub proof fn lemma_state_ok(
    src: Seq<u8>,
    refs: Seq<Seq<u8>>,
    w: int,
    h: int,
    opt: EncodeOptions,
    k: int,
)
    requires
        plane_ok(src, refs, w, h, opt),
        0 <= k <= syntax::block_count(w, h),
    ensures
        state_ok(
            plane_state(src, refs, w, h, opt, k),
            refs.len(),
            w,
            h,
            choice::step_of(opt),
            k,
        ),
    decreases k,
{
    let q = choice::step_of(opt);
    let state = plane_state(src, refs, w, h, opt, k);
    if k > 0 {
        let before = plane_state(src, refs, w, h, opt, k - 1);
        lemma_state_ok(src, refs, w, h, opt, k - 1);
        syntax::lemma_block_place(w, h, k - 1);
        let site = site_at(src, before.recon, refs, w, h, k - 1, q);
        let block = site.decided(opt, before.used);
        choice::law_decision_writable(site, opt, before.used);
        assert(state.list == before.list.push(block));
        assert(state.used == marked(before.used, block));
        assert forall|i: int| 0 <= i < k implies writing::writable(
            #[trigger] state.list[i],
            refs.len(),
            syntax::cut(w, syntax::block_x(w, i)) * syntax::cut(h, syntax::block_y(w, i)),
            q,
        ) by {
            if i < k - 1 {
                assert(state.list[i] == before.list[i]);
            }
        }
        assert forall|i: int| 0 <= i < k implies marked_in(state.used, #[trigger] state.list[i]) by {
            if i < k - 1 {
                assert(state.list[i] == before.list[i]);
                assert(marked_in(before.used, before.list[i]));
            }
        }
    }
}

/// The encoder's reconstruction is what a decoder that read the blocks would have.
pub proof fn lemma_state_rendered(
    src: Seq<u8>,
    refs: Seq<Seq<u8>>,
    w: int,
    h: int,
    opt: EncodeOptions,
    k: int,
)
    requires
        plane_ok(src, refs, w, h, opt),
        0 <= k <= syntax::block_count(w, h),
    ensures
        plane_state(src, refs, w, h, opt, k).recon == writing::rendered(
            plane_state(src, refs, w, h, opt, k).list,
            k,
            refs,
            w,
            h,
            choice::step_of(opt),
        ),
    decreases k,
{
    if k > 0 {
        let q = choice::step_of(opt);
        let state = plane_state(src, refs, w, h, opt, k);
        let before = plane_state(src, refs, w, h, opt, k - 1);
        lemma_state_rendered(src, refs, w, h, opt, k - 1);
        lemma_state_ok(src, refs, w, h, opt, k - 1);
        lemma_rendered_prefix(before.list, state.list, k - 1, refs, w, h, q);
    }
}

/// A sample of the plane with one more block: the block's, if it lies in the block.
pub proof fn lemma_with_block_at(
    plane: Seq<u8>,
    refs: Seq<Seq<u8>>,
    w: int,
    h: int,
    k: int,
    q: int,
    block: syntax::Block,
    x: int,
    y: int,
)
    requires
        0 < w,
        0 < h,
        plane.len() == w * h,
        0 <= k < syntax::block_count(w, h),
        0 <= x < w,
        0 <= y < h,
    ensures
        ({
            let (bx, by) = (syntax::block_x(w, k), syntax::block_y(w, k));
            syntax::with_block(plane, refs, w, h, bx, by, q, block)[y * w + x] == if block_of(
                w,
                x,
                y,
            ) == k {
                syntax::block_sample(plane, refs, w, h, bx, by, q, block, x - bx, y - by)
            } else {
                plane[y * w + x]
            }
        }),
{
    syntax::lemma_index(w, h, x, y);
    lemma_block_of(w, h, k, x, y);
}

/// A block decided on at a quantizer step of one shows the source.
proof fn lemma_block_lossless(
    src: Seq<u8>,
    recon: Seq<u8>,
    refs: Seq<Seq<u8>>,
    w: int,
    h: int,
    opt: EncodeOptions,
    used: Seq<bool>,
    x: int,
    y: int,
)
    requires
        plane_ok(src, refs, w, h, opt),
        recon.len() == w * h,
        choice::step_of(opt) == 1,
        0 <= x < w,
        0 <= y < h,
        0 <= block_of(w, x, y) < syntax::block_count(w, h),
    ensures
        ({
            let k = block_of(w, x, y);
            let (bx, by) = (syntax::block_x(w, k), syntax::block_y(w, k));
            let block = site_at(src, recon, refs, w, h, k, 1).decided(opt, used);
            syntax::block_sample(recon, refs, w, h, bx, by, 1, block, x - bx, y - by) == src[y * w + x]
        }),
{
    let k = block_of(w, x, y);
    syntax::lemma_block_place(w, h, k);
    lemma_block_of(w, h, k, x, y);
    let site = site_at(src, recon, refs, w, h, k, 1);
    choice::law_decision_lossless(site, opt, used, x - site.bx, y - site.by);
    assert(site.source(x - site.bx, y - site.by) == src[y * w + x]);
}

/// At a quantizer step of one the samples of the blocks so far are the source's.
proof fn lemma_state_lossless(
    src: Seq<u8>,
    refs: Seq<Seq<u8>>,
    w: int,
    h: int,
    opt: EncodeOptions,
    k: int,
    x: int,
    y: int,
)
    requires
        plane_ok(src, refs, w, h, opt),
        choice::step_of(opt) == 1,
        0 <= k <= syntax::block_count(w, h),
        0 <= x < w,
        0 <= y < h,
        0 <= block_of(w, x, y) < k,
    ensures
        plane_state(src, refs, w, h, opt, k).recon[y * w + x] == src[y * w + x],
    decreases k,
{
    let before = plane_state(src, refs, w, h, opt, k - 1);
    lemma_state_ok(src, refs, w, h, opt, k - 1);
    let block = site_at(src, before.recon, refs, w, h, k - 1, 1).decided(opt, before.used);
    lemma_with_block_at(before.recon, refs, w, h, k - 1, 1, block, x, y);
    if block_of(w, x, y) == k - 1 {
        lemma_block_lossless(src, before.recon, refs, w, h, opt, before.used, x, y);
    } else {
        lemma_state_lossless(src, refs, w, h, opt, k - 1, x, y);
    }
}

/// Coding a plane at a quantizer step of one loses nothing.
pub proof fn law_plane_lossless(
    src: Seq<u8>,
    refs: Seq<Seq<u8>>,
    w: int,
    h: int,
    opt: EncodeOptions,
)
    requires
        plane_ok(src, refs, w, h, opt),
        opt.qstep == 1,
    ensures
        coded_plane(src, refs, w, h, opt).recon == src,
{
    let n = syntax::block_count(w, h);
    syntax::lemma_block_count(w, h);
    lemma_state_ok(src, refs, w, h, opt, n);
    let recon = coded_plane(src, refs, w, h, opt).recon;
    assert forall|i: int| 0 <= i < src.len() implies recon[i] == src[i] by {
        syntax::lemma_index_inverse(w, h, i);
        lemma_block_of(w, h, 0, i % w, i / w);
        lemma_state_lossless(src, refs, w, h, opt, n, i % w, i / w);
    }
    assert(recon =~= src);
}

/// A decoder reconstructs a plane exactly as the encoder did, from either token layout.
pub proof fn law_plane_decodes(
    src: Seq<u8>,
    refs: Seq<Seq<u8>>,
    w: int,
    h: int,
    opt: EncodeOptions,
    split: bool,
)
    requires
        plane_ok(src, refs, w, h, opt),
    ensures
        syntax::decoded_plane(
            writing::written(coded_plane(src, refs, w, h, opt).list, split),
            refs,
            w,
            h,
            choice::step_of(opt),
        ) == Ok::<Seq<u8>, VideoError>(coded_plane(src, refs, w, h, opt).recon),
{
    let n = syntax::block_count(w, h);
    syntax::lemma_block_count(w, h);
    lemma_state_ok(src, refs, w, h, opt, n);
    lemma_state_rendered(src, refs, w, h, opt, n);
    writing::law_plane_write_read(
        coded_plane(src, refs, w, h, opt).list,
        split,
        refs,
        w,
        h,
        choice::step_of(opt),
    );
}

/// Encodes one plane: what is coded for each block, the reconstruction, and which references are
/// used.
pub fn encode_plane(
    src: &[u8],
    refs: &[&[u8]],
    w: usize,
    h: usize,
    opt: EncodeOptions,
    kernels: KernelSet,
    recon: &mut [u8],
) -> (r: (Vec<BlockRec>, Vec<bool>))
    requires
        prediction::plane_fits(w as int, h as int),
        plane_ok(src@, blocks::views(refs@), w as int, h as int, opt),
        old(recon)@.len() == w * h,
    ensures
        ({
            let state = coded_plane(src@, blocks::views(refs@), w as int, h as int, opt);
            &&& writing::models(r.0@) == state.list
            &&& final(recon)@ == state.recon
            &&& r.1@ == state.used
        }),
        final(recon)@.len() == w * h,
{
    let ghost planes = blocks::views(refs@);
    let ghost count = syntax::block_count(w as int, h as int);
    proof {
        prediction::lemma_fits(w as int, h as int);
        syntax::lemma_block_count(w as int, h as int);
    }
    let len: usize = recon.len();
    let mut i: usize = 0;
    while i < len
        invariant
            len == recon@.len(),
            i <= len,
            forall|j: int| 0 <= j < i ==> #[trigger] recon@[j] == 128,
        decreases len - i,
    {
        recon[i] = 128;
        i = i + 1;
    }
    assert(recon@ =~= syntax::gray(w as int, h as int));
    let q: i32 = if opt.qstep == 0 {
        1
    } else {
        opt.qstep as i32
    };
    let weight: u64 = choice::rdo_lambda(q);
    let mut list: Vec<BlockRec> = Vec::new();
    let mut used: Vec<bool> = vec![false; refs.len()];
    let ghost mut k: int = 0;
    let mut bx: usize = 0;
    let mut by: usize = 0;
    proof {
        let start = plane_state(src@, planes, w as int, h as int, opt, 0);
        assert(used@ =~= start.used);
        assert(writing::models(list@) =~= start.list);
    }
    while by < h
        invariant
            prediction::plane_fits(w as int, h as int),
            plane_ok(src@, planes, w as int, h as int, opt),
            w <= 0x400_0000,
            h <= 0x400_0000,
            planes == blocks::views(refs@),
            count == syntax::block_count(w as int, h as int),
            q == choice::step_of(opt),
            1 <= q <= 65535,
            weight == choice::lambda(q as int),
            1 <= weight <= 8_388_352,
            recon@.len() == w * h,
            0 <= k <= count,
            by < h <==> k < count,
            bx == syntax::block_x(w as int, k),
            by == syntax::block_y(w as int, k),
            writing::models(list@) == plane_state(src@, planes, w as int, h as int, opt, k).list,
            recon@ == plane_state(src@, planes, w as int, h as int, opt, k).recon,
            used@ == plane_state(src@, planes, w as int, h as int, opt, k).used,
            used@.len() == refs@.len(),
        decreases count - k,
    {
        proof {
            syntax::lemma_block_place(w as int, h as int, k);
            syntax::lemma_next_place(w as int, h as int, k);
        }
        let ghost before = plane_state(src@, planes, w as int, h as int, opt, k);
        let ghost after = plane_state(src@, planes, w as int, h as int, opt, k + 1);
        let ghost site = site_at(src@, recon@, planes, w as int, h as int, k, q as int);
        let (block, samples): (BlockRec, [u8; 64]) = choice::decide(
            src,
            recon,
            refs,
            w,
            h,
            bx,
            by,
            opt,
            q,
            weight,
            &used,
            kernels,
        );
        blocks::store_block(recon, w, h, bx, by, &samples);
        proof {
            choice::law_decision_writable(site, opt, used@);
            let f = |x: int, y: int| samples@[8 * y + x];
            let g = |x: int, y: int|
                syntax::block_sample(
                    before.recon,
                    planes,
                    w as int,
                    h as int,
                    bx as int,
                    by as int,
                    q as int,
                    block.model(),
                    x,
                    y,
                );
            assert forall|x: int, y: int|
                0 <= x < syntax::cut(w as int, bx as int) && 0 <= y < syntax::cut(
                    h as int,
                    by as int,
                ) implies #[trigger] f(x, y) == g(x, y) by {
                assert(site.covers(x, y));
                assert(samples@[8 * y + x] == (site.shown(block.model()))(x, y));
            }
            syntax::lemma_stored_agree(
                before.recon,
                w as int,
                h as int,
                bx as int,
                by as int,
                f,
                g,
            );
            assert(recon@ == after.recon);
        }
        match &block {
            BlockRec::Residual { mode, ref_idx, dx2, dy2, qcoeff } => {
                if *mode == 3 {
                    used.set(*ref_idx, true);
                }
            },
            BlockRec::Palette { colors, idx } => {},
        }
        let ghost prior = list@;
        list.push(block);
        proof {
            assert(writing::models(list@) =~= writing::models(prior).push(block.model()));
            k = k + 1;
        }
        bx = bx + 8;
        if bx >= w {
            bx = 0;
            by = by + 8;
        }
    }
    (list, used)
}

} // verus!
