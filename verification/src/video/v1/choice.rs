//! How the encoder decides what to code for a block.
use crate::bitstream;
use crate::kernels::scalar;
use crate::kernels::KernelSet;
use crate::video::v1::blocks;
use crate::video::v1::blocks::BlockRec;
use crate::video::v1::prediction;
use crate::video::v1::search;
use crate::video::v1::syntax;
use crate::video::v1::writing;
use crate::video::v1::{EncodeOptions, EncoderPreset};
use vstd::prelude::*;

verus! {

// ---------------------------------------------------------------------------------------------
// Palettes

/// The samples of a block, row by row.
pub open spec fn block_samples(src: Seq<u8>, w: int, h: int, bx: int, by: int) -> Seq<u8> {
    Seq::new(
        (syntax::cut(w, bx) * syntax::cut(h, by)) as nat,
        |k: int| src[(by + k / syntax::cut(w, bx)) * w + bx + k % syntax::cut(w, bx)],
    )
}

/// The colors of the first `n` samples, in the order in which they first occur.
pub open spec fn colors_of(samples: Seq<u8>, n: int) -> Seq<u8>
    decreases n,
{
    if n <= 0 {
        Seq::empty()
    } else {
        let colors = colors_of(samples, n - 1);
        if colors.contains(samples[n - 1]) {
            colors
        } else {
            colors.push(samples[n - 1])
        }
    }
}

/// The palette of a block of at least 16 samples in at most four colors.
pub open spec fn palette_of(samples: Seq<u8>) -> Option<syntax::Block> {
    let colors = colors_of(samples, samples.len() as int);
    if colors.len() > 4 || samples.len() < 16 {
        None
    } else {
        Some(
            syntax::Block::Palette {
                colors,
                index: Seq::new(samples.len(), |k: int| colors.index_of(samples[k]) as u8),
            },
        )
    }
}

pub proof fn lemma_colors(samples: Seq<u8>, n: int)
    requires
        0 <= n <= samples.len(),
    ensures
        colors_of(samples, n).no_duplicates(),
        colors_of(samples, n).len() <= n,
        n > 0 ==> colors_of(samples, n).len() > 0,
        forall|k: int| 0 <= k < n ==> #[trigger] colors_of(samples, n).contains(samples[k]),
    decreases n,
{
    if n > 0 {
        lemma_colors(samples, n - 1);
        let colors = colors_of(samples, n - 1);
        let all = colors_of(samples, n);
        assert forall|k: int| 0 <= k < n implies #[trigger] all.contains(samples[k]) by {
            if k < n - 1 {
                assert(colors.contains(samples[k]));
                let i = choose|i: int| 0 <= i < colors.len() && colors[i] == samples[k];
                assert(all[i] == samples[k]);
            } else if !colors.contains(samples[n - 1]) {
                assert(all[colors.len() as int] == samples[n - 1]);
            }
        }
    }
}

pub proof fn lemma_colors_grow(samples: Seq<u8>, m: int, n: int)
    requires
        0 <= m <= n,
    ensures
        colors_of(samples, m).len() <= colors_of(samples, n).len(),
        forall|i: int|
            0 <= i < colors_of(samples, m).len() ==> #[trigger] colors_of(samples, m)[i]
                == colors_of(samples, n)[i],
    decreases n - m,
{
    if m < n {
        lemma_colors_grow(samples, m, n - 1);
    }
}

pub proof fn lemma_index_of(colors: Seq<u8>, i: int)
    requires
        colors.no_duplicates(),
        0 <= i < colors.len(),
    ensures
        colors.index_of(colors[i]) == i,
{
    assert(colors.contains(colors[i]));
}

/// A palette shows exactly the samples that it was made from.
pub proof fn law_palette_exact(samples: Seq<u8>, k: int)
    requires
        0 <= k < samples.len(),
    ensures
        palette_of(samples) matches Some(block) ==> {
            &&& block matches syntax::Block::Palette { colors, index }
            &&& 1 <= colors.len() <= 4
            &&& index.len() == samples.len()
            &&& index[k] < colors.len()
            &&& colors[index[k] as int] == samples[k]
        },
{
    let n = samples.len() as int;
    lemma_colors(samples, n);
    let colors = colors_of(samples, n);
    assert(colors.contains(samples[k]));
    let i = choose|i: int| 0 <= i < colors.len() && colors[i] == samples[k];
    lemma_index_of(colors, i);
}

fn position_of(colors: &Vec<u8>, v: u8) -> (r: Option<usize>)
    requires
        colors@.no_duplicates(),
    ensures
        match r {
            Some(i) => i < colors@.len() && colors@[i as int] == v && colors@.index_of(v) == i,
            None => !colors@.contains(v),
        },
{
    let mut i: usize = 0;
    while i < colors.len()
        invariant
            colors@.no_duplicates(),
            i <= colors@.len(),
            forall|j: int| 0 <= j < i ==> #[trigger] colors@[j] != v,
        decreases colors@.len() - i,
    {
        if colors[i] == v {
            proof {
                lemma_index_of(colors@, i as int);
            }
            return Some(i);
        }
        i = i + 1;
    }
    None
}

/// The palette of a block, if it has few enough colors.
pub fn palette_for(src: &[u8], w: usize, h: usize, bx: usize, by: usize) -> (r: Option<
    (Vec<u8>, Vec<u8>),
>)
    requires
        prediction::placed(src@.len(), w, h, bx, by),
    ensures
        match r {
            Some((colors, idx)) => palette_of(
                block_samples(src@, w as int, h as int, bx as int, by as int),
            ) == Some(syntax::Block::Palette { colors: colors@, index: idx@ }),
            None => palette_of(block_samples(src@, w as int, h as int, bx as int, by as int))
                is None,
        },
{
    let bw: usize = prediction::cut_len(w, bx);
    let bh: usize = prediction::cut_len(h, by);
    let ghost samples = block_samples(src@, w as int, h as int, bx as int, by as int);
    let mut colors: Vec<u8> = Vec::new();
    let mut idx: Vec<u8> = Vec::new();
    proof {
        prediction::lemma_fits(w as int, h as int);
        assert(0 < bw * bh <= 64) by (nonlinear_arith)
            requires
                0 < bw <= 8,
                0 < bh <= 8,
        ;
        assert(0 * bw == 0);
    }
    let mut y: usize = 0;
    while y < bh
        invariant
            prediction::placed(src@.len(), w, h, bx, by),
            src@.len() <= 0x400_0000,
            bw == syntax::cut(w as int, bx as int),
            bh == syntax::cut(h as int, by as int),
            0 < bw <= 8,
            0 < bh <= 8,
            samples == block_samples(src@, w as int, h as int, bx as int, by as int),
            samples.len() == bw * bh <= 64,
            y <= bh,
            idx@.len() == y * bw,
            colors@ == colors_of(samples, (y * bw) as int),
            colors@.len() <= 4,
            forall|k: int|
                0 <= k < idx@.len() ==> idx@[k] < colors@.len() && colors@[#[trigger] idx@[k] as int]
                    == samples[k],
        decreases bh - y,
    {
        proof {
            prediction::lemma_row(w as int, h as int, by + y);
        }
        let row: usize = (by + y) * w + bx;
        let mut x: usize = 0;
        while x < bw
            invariant
                prediction::placed(src@.len(), w, h, bx, by),
                src@.len() <= 0x400_0000,
                bw == syntax::cut(w as int, bx as int),
                bh == syntax::cut(h as int, by as int),
                0 < bw <= 8,
                0 < bh <= 8,
                samples == block_samples(src@, w as int, h as int, bx as int, by as int),
                samples.len() == bw * bh <= 64,
                y < bh,
                x <= bw,
                row == (by + y) * w + bx,
                row + bw <= src@.len(),
                idx@.len() == y * bw + x,
                colors@ == colors_of(samples, y * bw + x),
                colors@.len() <= 4,
                forall|k: int|
                    0 <= k < idx@.len() ==> idx@[k] < colors@.len()
                        && colors@[#[trigger] idx@[k] as int] == samples[k],
            decreases bw - x,
        {
            let v: u8 = src[row + x];
            let ghost k = y * bw + x;
            proof {
                syntax::lemma_index(bw as int, bh as int, x as int, y as int);
                assert(samples[k] == v);
                lemma_colors(samples, k);
            }
            let ghost before = colors@;
            match position_of(&colors, v) {
                Some(i) => {
                    idx.push(i as u8);
                },
                None => {
                    if colors.len() == 4 {
                        proof {
                            assert(colors_of(samples, k + 1).len() == 5);
                            lemma_colors_grow(samples, k + 1, samples.len() as int);
                        }
                        return None;
                    }
                    idx.push(colors.len() as u8);
                    colors.push(v);
                },
            }
            x = x + 1;
        }
        proof {
            assert((y + 1) * bw == y * bw + bw) by (nonlinear_arith);
        }
        y = y + 1;
    }
    if idx.len() >= 16 {
        proof {
            assert(bh * bw == bw * bh) by (nonlinear_arith);
            lemma_colors(samples, samples.len() as int);
            let index = Seq::new(samples.len(), |k: int| colors@.index_of(samples[k]) as u8);
            assert forall|k: int| 0 <= k < samples.len() implies #[trigger] index[k] == idx@[k] by {
                lemma_index_of(colors@, idx@[k] as int);
            }
            assert(index =~= idx@);
        }
        Some((colors, idx))
    } else {
        proof {
            assert(bh * bw == bw * bh) by (nonlinear_arith);
        }
        None
    }
}

// ---------------------------------------------------------------------------------------------
// Residual candidates

/// How to predict a block.
pub struct Candidate {
    pub mode: u8,
    pub reference: int,
    pub dx: int,
    pub dy: int,
}

/// A plane being coded and the block in it that is being decided on.
pub struct Site {
    pub src: Seq<u8>,
    pub recon: Seq<u8>,
    pub refs: Seq<Seq<u8>>,
    pub w: int,
    pub h: int,
    pub bx: int,
    pub by: int,
    pub q: int,
}

impl Site {
    pub open spec fn predicted(self, c: Candidate, x: int, y: int) -> u8 {
        syntax::predicted(
            self.recon,
            self.refs,
            self.w,
            self.h,
            self.bx,
            self.by,
            x,
            y,
            c.mode,
            c.reference,
            c.dx,
            c.dy,
        )
    }

    pub open spec fn source(self, x: int, y: int) -> u8 {
        self.src[(self.by + y) * self.w + self.bx + x]
    }

    pub open spec fn covers(self, x: int, y: int) -> bool {
        0 <= x < syntax::cut(self.w, self.bx) && 0 <= y < syntax::cut(self.h, self.by)
    }

    /// What the prediction misses; nothing outside the plane.
    pub open spec fn residual(self, c: Candidate) -> Seq<int> {
        Seq::new(
            64,
            |i: int|
                if self.covers(i % 8, i / 8) {
                    self.source(i % 8, i / 8) - self.predicted(c, i % 8, i / 8)
                } else {
                    0
                },
        )
    }

    /// The block that codes the candidate: its residual, transformed and quantized.
    pub open spec fn residual_block(self, c: Candidate) -> syntax::Block {
        syntax::Block::Residual {
            mode: c.mode,
            reference: c.reference,
            dx: c.dx,
            dy: c.dy,
            coeff: quantized(scalar::wht(self.residual(c)), self.q),
        }
    }

    /// The samples that a decoder will reconstruct for a block.
    pub open spec fn shown(self, block: syntax::Block) -> spec_fn(int, int) -> u8 {
        |x: int, y: int|
            syntax::block_sample(
                self.recon,
                self.refs,
                self.w,
                self.h,
                self.bx,
                self.by,
                self.q,
                block,
                x,
                y,
            )
    }

    /// The squared error of coding a block so.
    pub open spec fn distortion(self, block: syntax::Block) -> nat {
        search::squared_error(self.src, self.w, self.h, self.bx, self.by, self.shown(block))
    }

    pub open spec fn wf(self) -> bool {
        &&& 0 <= self.bx < self.w
        &&& 0 <= self.by < self.h
        &&& self.src.len() == self.w * self.h
        &&& self.recon.len() == self.w * self.h
        &&& forall|i: int| 0 <= i < self.refs.len() ==> #[trigger] self.refs[i].len() == self.w
            * self.h
        &&& 1 <= self.q <= 65535
    }

    /// The candidate can be worked out here.
    pub open spec fn reaches(self, c: Candidate) -> bool {
        &&& c.mode <= 3
        &&& c.mode == 3 ==> 0 <= c.reference < self.refs.len()
        &&& -1000 <= c.dx <= 1000
        &&& -1000 <= c.dy <= 1000
    }

    /// The candidate can be coded here.
    pub open spec fn admits(self, c: Candidate) -> bool {
        &&& c.mode <= 3
        &&& c.mode == 3 ==> 0 <= c.reference < self.refs.len()
        &&& c.mode < 3 ==> c.reference == 0 && c.dx == 0 && c.dy == 0
        &&& -64 <= c.dx <= 64
        &&& -64 <= c.dy <= 64
    }

    pub open spec fn count(self) -> int {
        syntax::cut(self.w, self.bx) * syntax::cut(self.h, self.by)
    }
}

/// Coefficients divided by the quantizer step.
pub open spec fn quantized(coeff: Seq<int>, q: int) -> Seq<int> {
    Seq::new(64, |i: int| scalar::rounded_div(coeff[i], q))
}

/// The bytes that a block takes: its mode and its data.
pub open spec fn block_rate(block: syntax::Block) -> nat {
    1 + writing::payload_bytes(block).len()
}

pub proof fn lemma_rounded(v: int, q: int)
    requires
        1 <= q,
    ensures
        -scalar::abs(v) <= scalar::rounded_div(v, q) <= scalar::abs(v),
        -scalar::abs(v) - q <= scalar::rounded_div(v, q) * q <= scalar::abs(v) + q,
        q == 1 ==> scalar::rounded_div(v, q) == v,
{
    scalar::lemma_abs(v);
    let a = scalar::abs(v);
    let n = a + q / 2;
    let r = n / q;
    vstd::arithmetic::div_mod::lemma_fundamental_div_mod(n, q);
    vstd::arithmetic::div_mod::lemma_mod_bound(n, q);
    assert(r * q == q * r) by (nonlinear_arith);
    assert(0 <= r) by (nonlinear_arith)
        requires
            n == q * r + n % q,
            n % q < q,
            n >= 0,
            q >= 1,
    ;
    assert(r <= a) by (nonlinear_arith)
        requires
            q * r <= a + q / 2,
            a >= 0,
            q >= 1,
            r >= 0,
    ;
    assert((-r) * q == -(r * q)) by (nonlinear_arith);
    if v >= 0 {
        assert(scalar::rounded_div(v, q) == r);
    } else {
        assert(scalar::rounded_div(v, q) == -r);
    }
    if q == 1 {
        assert(n == a);
        assert(r == a) by (nonlinear_arith)
            requires
                n == q * r + n % q,
                0 <= n % q < q,
                q == 1,
                n == a,
        ;
    }
}

/// Whatever candidate is coded, its coefficients are in range, before and after scaling.
pub proof fn law_residual_scales(site: Site, c: Candidate)
    requires
        site.wf(),
    ensures
        blocks::block_scales(site.residual_block(c), site.q),
        ({
            let coeff = quantized(scalar::wht(site.residual(c)), site.q);
            &&& coeff.len() == 64
            &&& forall|i: int| 0 <= i < 64 ==> -1_000_000 <= #[trigger] coeff[i] <= 1_000_000
        }),
{
    let m = site.residual(c);
    assert forall|i: int| 0 <= i < 64 implies -255 <= #[trigger] m[i] <= 255 by {}
    scalar::lemma_wht_bound(m, 255);
    scalar::lemma_wht_shape(m);
    let t = scalar::wht(m);
    let coeff = quantized(t, site.q);
    assert forall|i: int| 0 <= i < 64 implies -1_000_000 <= #[trigger] coeff[i] <= 1_000_000 by {
        assert(-64 * 255 <= t[i] <= 64 * 255);
        lemma_rounded(t[i], site.q);
        scalar::lemma_abs(t[i]);
    }
    assert forall|i: int| 0 <= i < 64 implies -33_554_431 <= #[trigger] syntax::scaled(
        coeff,
        site.q,
    )[i] <= 33_554_431 by {
        assert(-64 * 255 <= t[i] <= 64 * 255);
        lemma_rounded(t[i], site.q);
        scalar::lemma_abs(t[i]);
    }
}

/// Whatever candidate is coded, the block can be written and read back.
pub proof fn law_residual_writable(site: Site, c: Candidate)
    requires
        site.wf(),
        site.admits(c),
    ensures
        writing::writable(site.residual_block(c), site.refs.len(), site.count(), site.q),
{
    law_residual_scales(site, c);
}

/// At a quantizer step of one, coding any candidate reconstructs the source exactly.
pub proof fn law_lossless_block(site: Site, c: Candidate, x: int, y: int)
    requires
        site.wf(),
        site.q == 1,
        site.covers(x, y),
    ensures
        (site.shown(site.residual_block(c)))(x, y) == site.source(x, y),
{
    let m = site.residual(c);
    let t = scalar::wht(m);
    scalar::lemma_wht_shape(m);
    let coeff = quantized(t, 1);
    assert(syntax::scaled(coeff, 1) =~= t) by {
        assert forall|i: int| 0 <= i < 64 implies #[trigger] syntax::scaled(coeff, 1)[i] == t[i] by {
            lemma_rounded(t[i], 1);
        }
    }
    scalar::law_wht_reversible(m);
    let i = 8 * y + x;
    assert(i % 8 == x && i / 8 == y);
    assert(m[i] == site.source(x, y) - site.predicted(c, x, y));
}

/// The number of bytes of a varint.
pub fn uvarint_len(value: u64) -> (len: usize)
    ensures
        len == bitstream::syntax::uvarint_bytes(value as nat).len(),
        1 <= len <= 10,
{
    proof {
        bitstream::syntax::lemma_uvarint_bytes_len(value as nat);
    }
    let mut rest: u64 = value;
    let mut len: usize = 1;
    while rest >= 0x80
        invariant
            len + bitstream::syntax::uvarint_bytes(rest as nat).len()
                == bitstream::syntax::uvarint_bytes(value as nat).len() + 1,
            bitstream::syntax::uvarint_bytes(value as nat).len() <= 10,
            len >= 1,
        decreases rest,
    {
        proof {
            bitstream::syntax::lemma_uvarint_bytes_len((rest / 128) as nat);
        }
        rest = rest / 128;
        len = len + 1;
    }
    len
}

/// The number of bytes of a signed varint.
pub fn svarint_i32_len(value: i32) -> (len: usize)
    ensures
        len == bitstream::syntax::svarint_bytes(value as int).len(),
        1 <= len <= 10,
{
    uvarint_len(bitstream::v1::zigzag_i32(value) as u64)
}

/// The bytes that a residual block takes.
fn residual_rate(
    mode: u8,
    dx2: i32,
    dy2: i32,
    qcoeff: &[i32; 64],
    Ghost(reference): Ghost<int>,
) -> (r: usize)
    ensures
        r == block_rate(
            syntax::Block::Residual {
                mode,
                reference,
                dx: dx2 as int,
                dy: dy2 as int,
                coeff: scalar::ints(qcoeff@),
            },
        ),
        r <= 2000,
{
    let ghost coeff = scalar::ints(qcoeff@);
    let mut nz: u64 = 0;
    let mut rate: usize = 0;
    let mut i: usize = 64;
    while i > 0
        invariant
            i <= 64,
            coeff == scalar::ints(qcoeff@),
            nz == writing::nonzero_from(coeff, i as int),
            nz <= 64 - i,
            rate == writing::coefficient_bytes(coeff, i as int).len(),
            rate <= 20 * (64 - i),
        decreases i,
    {
        i = i - 1;
        if qcoeff[i] != 0 {
            nz = nz + 1;
            rate = rate + uvarint_len(i as u64) + svarint_i32_len(qcoeff[i]);
        }
    }
    rate = rate + 1 + uvarint_len(nz);
    if mode == 3 {
        rate = rate + 1 + svarint_i32_len(dx2) + svarint_i32_len(dy2);
    }
    rate
}

/// `v / d` rounded to the nearest integer, halves away from zero.
pub fn div_round(v: i32, d: i32) -> (r: i32)
    requires
        0 < d <= 65535,
        -1_000_000_000 <= v <= 1_000_000_000,
    ensures
        r == scalar::rounded_div(v as int, d as int),
{
    proof {
        lemma_rounded(v as int, d as int);
        scalar::lemma_abs(v as int);
    }
    if v >= 0 {
        (v + d / 2) / d
    } else {
        -((-v + d / 2) / d)
    }
}

/// One way to code a block, worked out.
pub struct ResidualEval {
    pub mode: u8,
    pub ref_idx: usize,
    pub dx2: i32,
    pub dy2: i32,
    pub qcoeff: [i32; 64],
    pub samples: [u8; 64],
    pub distortion: u64,
    pub raw_rate: usize,
}

impl ResidualEval {
    pub open spec fn candidate(&self) -> Candidate {
        Candidate {
            mode: self.mode,
            reference: self.ref_idx as int,
            dx: self.dx2 as int,
            dy: self.dy2 as int,
        }
    }

    /// The evaluation is that of its candidate at this site.
    pub open spec fn right(&self, site: Site) -> bool {
        let block = site.residual_block(self.candidate());
        &&& syntax::Block::Residual {
            mode: self.mode,
            reference: self.ref_idx as int,
            dx: self.dx2 as int,
            dy: self.dy2 as int,
            coeff: scalar::ints(self.qcoeff@),
        } == block
        &&& forall|x: int, y: int|
            site.covers(x, y) ==> #[trigger] self.samples@[8 * y + x] == (site.shown(block))(x, y)
        &&& self.distortion == site.distortion(block)
        &&& self.raw_rate == block_rate(block)
        &&& self.distortion <= 4161600
        &&& self.raw_rate <= 2000
    }
}

/// The plane, references and block position that a set of arguments describes.
pub open spec fn site_of(
    src: &[u8],
    recon: &[u8],
    refs: &[&[u8]],
    w: usize,
    h: usize,
    bx: usize,
    by: usize,
    q: i32,
) -> Site {
    Site {
        src: src@,
        recon: recon@,
        refs: blocks::views(refs@),
        w: w as int,
        h: h as int,
        bx: bx as int,
        by: by as int,
        q: q as int,
    }
}

/// What a prediction misses of a block.
fn residual_samples(
    src: &[u8],
    w: usize,
    h: usize,
    bx: usize,
    by: usize,
    pred: &[u8; 64],
    Ghost(site): Ghost<Site>,
    Ghost(c): Ghost<Candidate>,
) -> (r: [i32; 64])
    requires
        prediction::placed(src@.len(), w, h, bx, by),
        site.src == src@,
        site.w == w && site.h == h && site.bx == bx && site.by == by,
        forall|x: int, y: int|
            site.covers(x, y) ==> #[trigger] pred@[8 * y + x] == site.predicted(c, x, y),
    ensures
        scalar::ints(r@) == site.residual(c),
        forall|i: int| 0 <= i < 64 ==> -255 <= #[trigger] r@[i] <= 255,
{
    let mut r: [i32; 64] = [0; 64];
    proof {
        prediction::lemma_fits(w as int, h as int);
    }
    let mut i: usize = 0;
    while i < 64
        invariant
            prediction::placed(src@.len(), w, h, bx, by),
            src@.len() <= 0x400_0000,
            site.src == src@,
            site.w == w && site.h == h && site.bx == bx && site.by == by,
            forall|x: int, y: int|
                site.covers(x, y) ==> #[trigger] pred@[8 * y + x] == site.predicted(c, x, y),
            i <= 64,
            forall|j: int|
                0 <= j < i ==> #[trigger] r@[j] == site.residual(c)[j] && -255 <= r@[j] <= 255,
            forall|j: int| i <= j < 64 ==> #[trigger] r@[j] == 0,
        decreases 64 - i,
    {
        let (x, y): (usize, usize) = (i % 8, i / 8);
        if x < w - bx && y < h - by {
            proof {
                syntax::lemma_index(w as int, h as int, bx + x, by + y);
                prediction::lemma_row(w as int, h as int, by + y);
                assert(site.covers(x as int, y as int));
                assert(pred@[8 * y + x] == site.predicted(c, x as int, y as int));
            }
            r[i] = src[(by + y) * w + bx + x] as i32 - pred[i] as i32;
        }
        i = i + 1;
    }
    assert(scalar::ints(r@) =~= site.residual(c));
    r
}

/// Copies a block out of a plane.
fn copy_block(src: &[u8], w: usize, h: usize, bx: usize, by: usize) -> (r: [u8; 64])
    requires
        prediction::placed(src@.len(), w, h, bx, by),
    ensures
        forall|x: int, y: int|
            0 <= x < syntax::cut(w as int, bx as int) && 0 <= y < syntax::cut(h as int, by as int)
                ==> #[trigger] r@[8 * y + x] == src@[(by + y) * w + bx + x],
{
    let mut r: [u8; 64] = [128; 64];
    proof {
        prediction::lemma_fits(w as int, h as int);
    }
    let mut i: usize = 0;
    while i < 64
        invariant
            prediction::placed(src@.len(), w, h, bx, by),
            src@.len() <= 0x400_0000,
            i <= 64,
            forall|x: int, y: int|
                0 <= x < syntax::cut(w as int, bx as int) && 0 <= y < syntax::cut(
                    h as int,
                    by as int,
                ) && 8 * y + x < i ==> #[trigger] r@[8 * y + x] == src@[(by + y) * w + bx + x],
        decreases 64 - i,
    {
        let (x, y): (usize, usize) = (i % 8, i / 8);
        if x < w - bx && y < h - by {
            proof {
                syntax::lemma_index(w as int, h as int, bx + x, by + y);
                prediction::lemma_row(w as int, h as int, by + y);
            }
            r[i] = src[(by + y) * w + bx + x];
        }
        i = i + 1;
    }
    r
}

/// Divides the coefficients of a block by the quantizer step.
fn quantize(coeff: &[i32; 64], q: i32) -> (r: [i32; 64])
    requires
        1 <= q <= 65535,
        forall|i: int| 0 <= i < 64 ==> -16320 <= #[trigger] coeff@[i] <= 16320,
    ensures
        scalar::ints(r@) == quantized(scalar::ints(coeff@), q as int),
{
    let mut r: [i32; 64] = [0; 64];
    let mut i: usize = 0;
    while i < 64
        invariant
            1 <= q <= 65535,
            forall|i: int| 0 <= i < 64 ==> -16320 <= #[trigger] coeff@[i] <= 16320,
            i <= 64,
            forall|j: int|
                0 <= j < i ==> #[trigger] r@[j] == scalar::rounded_div(coeff@[j] as int, q as int),
        decreases 64 - i,
    {
        r[i] = div_round(coeff[i], q);
        i = i + 1;
    }
    assert(scalar::ints(r@) =~= quantized(scalar::ints(coeff@), q as int));
    r
}

/// Works out what coding a block with one prediction costs and shows.
pub fn evaluate_residual_candidate(
    src: &[u8],
    recon: &[u8],
    refs: &[&[u8]],
    w: usize,
    h: usize,
    bx: usize,
    by: usize,
    mode: u8,
    ref_idx: usize,
    dx2: i32,
    dy2: i32,
    q: i32,
    kernels: KernelSet,
) -> (r: ResidualEval)
    requires
        prediction::placed(src@.len(), w, h, bx, by),
        site_of(src, recon, refs, w, h, bx, by, q).wf(),
        site_of(src, recon, refs, w, h, bx, by, q).reaches(
            Candidate {
                mode,
                reference: ref_idx as int,
                dx: dx2 as int,
                dy: dy2 as int,
            },
        ),
    ensures
        r.mode == mode && r.ref_idx == ref_idx && r.dx2 == dx2 && r.dy2 == dy2,
        r.right(site_of(src, recon, refs, w, h, bx, by, q)),
{
    let ghost site = site_of(src, recon, refs, w, h, bx, by, q);
    let ghost c = Candidate { mode, reference: ref_idx as int, dx: dx2 as int, dy: dy2 as int };
    let ghost block = site.residual_block(c);
    proof {
        if mode == 3 {
            assert(site.refs[ref_idx as int].len() == w * h);
        }
    }
    let pred: [u8; 64] = blocks::predict_block(
        recon,
        refs,
        w,
        h,
        bx,
        by,
        mode,
        ref_idx,
        dx2,
        dy2,
        kernels,
    );
    let residual: [i32; 64] = residual_samples(src, w, h, bx, by, &pred, Ghost(site), Ghost(c));
    proof {
        let m = site.residual(c);
        assert forall|i: int| 0 <= i < 64 implies -255 <= #[trigger] m[i] <= 255 by {}
        scalar::lemma_wht_bound(m, 255);
    }
    let coeff: [i32; 64] = scalar::wht2(residual);
    proof {
        assert forall|i: int| 0 <= i < 64 implies -16320 <= #[trigger] coeff@[i] <= 16320 by {
            assert(scalar::ints(coeff@)[i] == coeff@[i]);
        }
    }
    let qcoeff: [i32; 64] = quantize(&coeff, q);
    let raw_rate: usize = residual_rate(mode, dx2, dy2, &qcoeff, Ghost(ref_idx as int));
    let samples: [u8; 64];
    if q == 1 {
        // The transform is exactly reversible at a step of one, so the block shows its source.
        samples = copy_block(src, w, h, bx, by);
        proof {
            assert forall|x: int, y: int| site.covers(x, y) implies #[trigger] samples@[8 * y + x]
                == (site.shown(block))(x, y) by {
                law_lossless_block(site, c, x, y);
            }
        }
    } else {
        proof {
            law_residual_scales(site, c);
        }
        match blocks::dequantize(&qcoeff, q) {
            Some(deq) => {
                proof {
                    let s = syntax::scaled(scalar::ints(qcoeff@), q as int);
                    assert forall|i: int| 0 <= i < 64 implies -33_554_431 <= #[trigger] deq@[i]
                        <= 33_554_431 by {
                        assert(scalar::ints(deq@)[i] == deq@[i]);
                        assert(-33_554_431 <= s[i] <= 33_554_431);
                    }
                }
                samples = blocks::add_residual(&pred, deq, kernels);
                proof {
                    assert forall|x: int, y: int|
                        site.covers(x, y) implies #[trigger] samples@[8 * y + x] == (site.shown(
                        block,
                    ))(x, y) by {
                        assert(pred@[8 * y + x] == site.predicted(c, x, y));
                        assert(samples@[8 * y + x] == syntax::clip(
                            pred@[8 * y + x] + scalar::inverse_wht(scalar::ints(deq@))[8 * y + x],
                        ));
                    }
                }
            },
            None => {
                samples = pred;
            },
        }
    }
    proof {
        let f = |x: int, y: int| samples@[8 * y + x];
        let g = site.shown(block);
        assert forall|x: int, y: int|
            0 <= x < syntax::cut(site.w, site.bx) && 0 <= y < syntax::cut(
                site.h,
                site.by,
            ) implies #[trigger] f(x, y) == g(x, y) by {
            assert(site.covers(x, y));
            assert(samples@[8 * y + x] == g(x, y));
        }
        search::lemma_error_agree(src@, site.w, site.h, site.bx, site.by, f, g);
    }
    let distortion: u64 = search::block_errors(src, w, h, bx, by, &samples).1;
    ResidualEval { mode, ref_idx, dx2, dy2, qcoeff, samples, distortion, raw_rate }
}

// ---------------------------------------------------------------------------------------------
// Decisions

/// What a byte of tokens weighs against squared sample error.
pub open spec fn lambda(q: int) -> int {
    if q * q / 512 < 1 {
        1
    } else {
        q * q / 512
    }
}

/// The quantizer step that options ask for.
pub open spec fn step_of(opt: EncodeOptions) -> int {
    if opt.qstep == 0 {
        1
    } else {
        opt.qstep as int
    }
}

impl Site {
    pub open spec fn intra_error(self, mode: u8) -> nat {
        search::intra_error(self.src, self.recon, self.w, self.h, self.bx, self.by, mode)
    }

    /// The intra mode with the least error, the first of equals, and that error.
    pub open spec fn best_intra(self) -> (nat, u8) {
        let first = if self.intra_error(1) < self.intra_error(0) {
            (self.intra_error(1), 1u8)
        } else {
            (self.intra_error(0), 0u8)
        };
        if self.intra_error(2) < first.0 {
            (self.intra_error(2), 2u8)
        } else {
            first
        }
    }

    /// The motion that is found in reference `i`.
    pub open spec fn motion(self, i: int, opt: EncodeOptions) -> (nat, int, int) {
        search::best_motion(
            search::motion_cost(self.src, self.refs[i], self.w, self.h, self.bx, self.by),
            opt.motion_radius as int,
            opt.preset,
        )
    }

    /// The best motion in the first `n` references, the first of equals, and its error.
    pub open spec fn best_inter(self, opt: EncodeOptions, n: int) -> Option<(nat, Candidate)>
        decreases n,
    {
        if n <= 0 {
            None
        } else {
            let m = self.motion(n - 1, opt);
            let found = Some((m.0, Candidate { mode: 3, reference: n - 1, dx: m.1, dy: m.2 }));
            match self.best_inter(opt, n - 1) {
                None => found,
                Some((least, c)) => if m.0 < least {
                    found
                } else {
                    Some((least, c))
                },
            }
        }
    }

    pub open spec fn intra_candidate(self) -> Candidate {
        Candidate { mode: self.best_intra().1, reference: 0, dx: 0, dy: 0 }
    }

    /// The prediction with the least error; intra on a tie.
    pub open spec fn primary(self, opt: EncodeOptions) -> (nat, Candidate) {
        match self.best_inter(opt, self.refs.len() as int) {
            Some((least, c)) => if least < self.best_intra().0 {
                (least, c)
            } else {
                (self.best_intra().0, self.intra_candidate())
            },
            None => (self.best_intra().0, self.intra_candidate()),
        }
    }

    /// The best prediction of the other sort, if there is one.
    pub open spec fn alternate(self, opt: EncodeOptions) -> Option<(nat, Candidate)> {
        match self.best_inter(opt, self.refs.len() as int) {
            Some((least, c)) => if least < self.best_intra().0 {
                Some((self.best_intra().0, self.intra_candidate()))
            } else {
                Some((least, c))
            },
            None => None,
        }
    }

    /// What coding a candidate costs: squared error and weighted bytes, with eight bytes more for
    /// a reference that nothing used so far.
    pub open spec fn score(self, c: Candidate, used: Seq<bool>) -> int {
        self.distortion(self.residual_block(c)) + lambda(self.q) * (block_rate(
            self.residual_block(c),
        ) + (if c.mode == 3 && !used[c.reference] {
            8int
        } else {
            0
        }))
    }

    /// Whether the alternate prediction is worth working out.
    pub open spec fn compares(self, opt: EncodeOptions) -> bool {
        match self.alternate(opt) {
            None => false,
            Some((error, c)) => {
                ||| self.q == 1
                ||| opt.preset == EncoderPreset::Quality
                ||| error - self.primary(opt).0 <= 2 * self.q
            },
        }
    }

    /// The prediction that is coded if no palette is.
    pub open spec fn chosen(self, opt: EncodeOptions, used: Seq<bool>) -> Candidate {
        let p = self.primary(opt).1;
        if opt.preset != EncoderPreset::Fast && self.compares(opt) && self.score(
            (self.alternate(opt)->0).1,
            used,
        ) < self.score(p, used) {
            (self.alternate(opt)->0).1
        } else {
            p
        }
    }

    /// The palette of the block, if one may be used and there is one.
    pub open spec fn palette(self, opt: EncodeOptions) -> Option<syntax::Block> {
        if opt.allow_palette {
            palette_of(block_samples(self.src, self.w, self.h, self.bx, self.by))
        } else {
            None
        }
    }

    /// A palette is coded where prediction does badly: by its error in fast mode, else by its
    /// cost.
    pub open spec fn decided(self, opt: EncodeOptions, used: Seq<bool>) -> syntax::Block {
        let c = self.chosen(opt, used);
        match self.palette(opt) {
            None => self.residual_block(c),
            Some(block) => if (if opt.preset == EncoderPreset::Fast {
                self.primary(opt).0 > 4 * self.count()
            } else {
                lambda(self.q) * block_rate(block) < self.score(c, used)
            }) {
                block
            } else {
                self.residual_block(c)
            },
        }
    }
}

pub proof fn lemma_best_inter(site: Site, opt: EncodeOptions, n: int)
    requires
        site.wf(),
        0 <= n <= site.refs.len(),
        opt.motion_radius <= 32,
    ensures
        n > 0 ==> site.best_inter(opt, n) is Some,
        site.best_inter(opt, n) matches Some((least, c)) ==> site.admits(c) && c.mode == 3,
    decreases n,
{
    if n > 0 {
        lemma_best_inter(site, opt, n - 1);
        search::law_motion_range(
            search::motion_cost(site.src, site.refs[n - 1], site.w, site.h, site.bx, site.by),
            opt.motion_radius as int,
            opt.preset,
        );
    }
}

pub proof fn lemma_chosen_admitted(site: Site, opt: EncodeOptions, used: Seq<bool>)
    requires
        site.wf(),
        opt.motion_radius <= 32,
    ensures
        site.admits(site.primary(opt).1),
        site.alternate(opt) matches Some((error, c)) ==> site.admits(c) && error
            >= site.primary(opt).0,
        site.admits(site.chosen(opt, used)),
{
    lemma_best_inter(site, opt, site.refs.len() as int);
}

pub proof fn lemma_count(site: Site)
    requires
        site.wf(),
    ensures
        0 < site.count() <= 64,
{
    let (bw, bh) = (syntax::cut(site.w, site.bx), syntax::cut(site.h, site.by));
    assert(0 < bw * bh <= 64) by (nonlinear_arith)
        requires
            0 < bw <= 8,
            0 < bh <= 8,
    ;
}

/// A palette can be written, and shows the source.
pub proof fn lemma_palette_block(site: Site, opt: EncodeOptions)
    requires
        site.wf(),
    ensures
        site.palette(opt) matches Some(block) ==> {
            &&& writing::writable(block, site.refs.len(), site.count(), site.q)
            &&& block is Palette
            &&& forall|x: int, y: int|
                site.covers(x, y) ==> #[trigger] (site.shown(block))(x, y) == site.source(x, y)
        },
{
    let samples = block_samples(site.src, site.w, site.h, site.bx, site.by);
    let (bw, bh) = (syntax::cut(site.w, site.bx), syntax::cut(site.h, site.by));
    lemma_count(site);
    if let Some(block) = site.palette(opt) {
        law_palette_exact(samples, 0);
        assert forall|k: int| 0 <= k < samples.len() implies #[trigger] (block->index)[k]
            < block->colors.len() by {
            law_palette_exact(samples, k);
        }
        assert forall|x: int, y: int| site.covers(x, y) implies #[trigger] (site.shown(block))(
            x,
            y,
        ) == site.source(x, y) by {
            syntax::lemma_index(bw, bh, x, y);
            law_palette_exact(samples, y * bw + x);
        }
    }
}

/// Whatever is decided on can be written and read back.
pub proof fn law_decision_writable(site: Site, opt: EncodeOptions, used: Seq<bool>)
    requires
        site.wf(),
        opt.motion_radius <= 32,
    ensures
        writing::writable(
            site.decided(opt, used),
            site.refs.len(),
            site.count(),
            site.q,
        ),
{
    lemma_chosen_admitted(site, opt, used);
    law_residual_writable(site, site.chosen(opt, used));
    lemma_palette_block(site, opt);
}

/// At a quantizer step of one, whatever is decided on shows the source exactly.
pub proof fn law_decision_lossless(
    site: Site,
    opt: EncodeOptions,
    used: Seq<bool>,
    x: int,
    y: int,
)
    requires
        site.wf(),
        opt.motion_radius <= 32,
        site.q == 1,
        site.covers(x, y),
    ensures
        (site.shown(site.decided(opt, used)))(x, y) == site.source(x, y),
{
    lemma_palette_block(site, opt);
    law_lossless_block(site, site.chosen(opt, used), x, y);
}

/// What a byte of tokens weighs.
pub fn rdo_lambda(q: i32) -> (r: u64)
    requires
        1 <= q <= 65535,
    ensures
        r == lambda(q as int),
        1 <= r <= 8_388_352,
{
    proof {
        assert(1 <= q * q <= 4_294_836_225) by (nonlinear_arith)
            requires
                1 <= q <= 65535,
        ;
    }
    let sq: u64 = q as u64 * q as u64;
    if sq / 512 < 1 {
        1
    } else {
        sq / 512
    }
}

/// The bytes that a palette block takes.
pub fn palette_raw_rate(colors: &Vec<u8>, idx: &Vec<u8>) -> (r: usize)
    requires
        colors@.len() <= 4,
        idx@.len() <= 64,
    ensures
        r == block_rate(syntax::Block::Palette { colors: colors@, index: idx@ }),
        r <= 24,
{
    1 + 1 + colors.len() + 1 + (idx.len() + 3) / 4
}

/// Weighs error against bytes.
fn weigh(distortion: u64, lambda: u64, rate: usize) -> (r: u64)
    requires
        distortion <= 4161600,
        1 <= lambda <= 8_388_352,
        rate <= 3000,
    ensures
        r == distortion + lambda * rate,
{
    proof {
        assert(0 <= lambda * rate <= 8_388_352 * 3000) by (nonlinear_arith)
            requires
                0 <= lambda <= 8_388_352,
                0 <= rate <= 3000,
        ;
    }
    distortion + lambda * rate as u64
}

/// The bytes that a candidate takes, with those for naming a new reference.
fn rate_with_dependency(eval: &ResidualEval, used: &Vec<bool>) -> (r: usize)
    requires
        eval.raw_rate <= 2000,
        eval.mode == 3 ==> eval.ref_idx < used@.len(),
    ensures
        r == eval.raw_rate + (if eval.mode == 3 && !used@[eval.ref_idx as int] {
            8int
        } else {
            0
        }),
        r <= 2008,
{
    if eval.mode == 3 && !used[eval.ref_idx] {
        eval.raw_rate + 8
    } else {
        eval.raw_rate
    }
}

/// The intra mode with the least error.
pub(crate) fn find_best_intra(
    src: &[u8],
    recon: &[u8],
    w: usize,
    h: usize,
    bx: usize,
    by: usize,
    Ghost(site): Ghost<Site>,
) -> (r: (u32, u8))
    requires
        prediction::placed(src@.len(), w, h, bx, by),
        recon@.len() == src@.len(),
        site.src == src@ && site.recon == recon@,
        site.w == w && site.h == h && site.bx == bx && site.by == by,
    ensures
        (r.0 as nat, r.1) == site.best_intra(),
        r.0 <= 16320,
        r.1 <= 2,
{
    let mut best: (u32, u8) = (search::sad_intra(src, recon, w, h, bx, by, 0), 0);
    let one: u32 = search::sad_intra(src, recon, w, h, bx, by, 1);
    if one < best.0 {
        best = (one, 1);
    }
    let two: u32 = search::sad_intra(src, recon, w, h, bx, by, 2);
    if two < best.0 {
        best = (two, 2);
    }
    best
}

/// A motion in one of the references.
pub struct InterCandidate {
    pub sad: u32,
    pub ref_idx: usize,
    pub dx2: i32,
    pub dy2: i32,
}

impl InterCandidate {
    pub open spec fn model(&self) -> (nat, Candidate) {
        (
            self.sad as nat,
            Candidate {
                mode: 3,
                reference: self.ref_idx as int,
                dx: self.dx2 as int,
                dy: self.dy2 as int,
            },
        )
    }
}

/// The best motion in any of the references.
fn find_best_inter(
    src: &[u8],
    refs: &[&[u8]],
    w: usize,
    h: usize,
    bx: usize,
    by: usize,
    opt: EncodeOptions,
    kernels: KernelSet,
    Ghost(site): Ghost<Site>,
) -> (r: Option<InterCandidate>)
    requires
        prediction::placed(src@.len(), w, h, bx, by),
        site.wf(),
        site.src == src@ && site.refs == blocks::views(refs@),
        site.w == w && site.h == h && site.bx == bx && site.by == by,
        opt.motion_radius <= 32,
    ensures
        match r {
            Some(c) => site.best_inter(opt, refs@.len() as int) == Some(c.model()),
            None => site.best_inter(opt, refs@.len() as int) is None,
        },
{
    let radius: i32 = opt.motion_radius as i32;
    let mut best: Option<InterCandidate> = None;
    let mut i: usize = 0;
    while i < refs.len()
        invariant
            prediction::placed(src@.len(), w, h, bx, by),
            site.wf(),
            site.src == src@ && site.refs == blocks::views(refs@),
            site.w == w && site.h == h && site.bx == bx && site.by == by,
            opt.motion_radius <= 32,
            radius == opt.motion_radius,
            i <= refs@.len(),
            match best {
                Some(c) => site.best_inter(opt, i as int) == Some(c.model()),
                None => site.best_inter(opt, i as int) is None,
            },
        decreases refs@.len() - i,
    {
        assert(site.refs[i as int] == refs@[i as int]@);
        let (sad, dx2, dy2): (u32, i32, i32) = search::search_inter_motion(
            src,
            refs[i],
            w,
            h,
            bx,
            by,
            radius,
            opt.preset,
            kernels,
        );
        let better: bool = match &best {
            None => true,
            Some(c) => sad < c.sad,
        };
        if better {
            best = Some(InterCandidate { sad, ref_idx: i, dx2, dy2 });
        }
        i = i + 1;
    }
    best
}

/// The prediction to code if no palette is, and its cost; in fast mode the cost is not worked
/// out.
fn choose_residual(
    src: &[u8],
    recon: &[u8],
    refs: &[&[u8]],
    w: usize,
    h: usize,
    bx: usize,
    by: usize,
    opt: EncodeOptions,
    q: i32,
    weight: u64,
    used: &Vec<bool>,
    intra: (u32, u8),
    inter: &Option<InterCandidate>,
    kernels: KernelSet,
) -> (r: (ResidualEval, u64))
    requires
        prediction::placed(src@.len(), w, h, bx, by),
        site_of(src, recon, refs, w, h, bx, by, q).wf(),
        opt.motion_radius <= 32,
        used@.len() == refs@.len(),
        weight == lambda(q as int),
        1 <= weight <= 8_388_352,
        intra.1 <= 2,
        (intra.0 as nat, intra.1) == site_of(src, recon, refs, w, h, bx, by, q).best_intra(),
        match inter {
            Some(c) => site_of(src, recon, refs, w, h, bx, by, q).best_inter(
                opt,
                refs@.len() as int,
            ) == Some(c.model()),
            None => site_of(src, recon, refs, w, h, bx, by, q).best_inter(opt, refs@.len() as int)
                is None,
        },
        intra.0 <= 16320,
    ensures
        r.0.right(site_of(src, recon, refs, w, h, bx, by, q)),
        r.0.candidate() == site_of(src, recon, refs, w, h, bx, by, q).chosen(opt, used@),
        opt.preset != EncoderPreset::Fast ==> r.1 == site_of(
            src,
            recon,
            refs,
            w,
            h,
            bx,
            by,
            q,
        ).score(r.0.candidate(), used@),
{
    let ghost site = site_of(src, recon, refs, w, h, bx, by, q);
    proof {
        lemma_chosen_admitted(site, opt, used@);
    }
    let inter_first: bool = match inter {
        Some(c) => c.sad < intra.0,
        None => false,
    };
    let (mode, ref_idx, dx2, dy2, error): (u8, usize, i32, i32, u32) = match inter {
        Some(c) => if c.sad < intra.0 {
            (3, c.ref_idx, c.dx2, c.dy2, c.sad)
        } else {
            (intra.1, 0, 0, 0, intra.0)
        },
        None => (intra.1, 0, 0, 0, intra.0),
    };
    assert(site.primary(opt) == (error as nat, Candidate {
        mode,
        reference: ref_idx as int,
        dx: dx2 as int,
        dy: dy2 as int,
    }));
    let first: ResidualEval = evaluate_residual_candidate(
        src,
        recon,
        refs,
        w,
        h,
        bx,
        by,
        mode,
        ref_idx,
        dx2,
        dy2,
        q,
        kernels,
    );
    if opt.preset == EncoderPreset::Fast {
        return (first, 0);
    }
    let first_rate: usize = rate_with_dependency(&first, used);
    let first_score: u64 = weigh(first.distortion, weight, first_rate);
    assert(first_score == site.score(first.candidate(), used@));
    let (other_mode, other_ref, other_dx, other_dy, other_error): (u8, usize, i32, i32, u32) =
        match inter {
        None => {
            return (first, first_score);
        },
        Some(c) => if inter_first {
            (intra.1, 0, 0, 0, intra.0)
        } else {
            (3, c.ref_idx, c.dx2, c.dy2, c.sad)
        },
    };
    assert(site.alternate(opt) == Some(
        (
            other_error as nat,
            Candidate {
                mode: other_mode,
                reference: other_ref as int,
                dx: other_dx as int,
                dy: other_dy as int,
            },
        ),
    ));
    if q == 1 || opt.preset == EncoderPreset::Quality || other_error - error <= 2 * (q as u32) {
        let second: ResidualEval = evaluate_residual_candidate(
            src,
            recon,
            refs,
            w,
            h,
            bx,
            by,
            other_mode,
            other_ref,
            other_dx,
            other_dy,
            q,
            kernels,
        );
        let second_rate: usize = rate_with_dependency(&second, used);
        let second_score: u64 = weigh(second.distortion, weight, second_rate);
        assert(second_score == site.score(second.candidate(), used@));
        if second_score < first_score {
            return (second, second_score);
        }
    }
    (first, first_score)
}

/// Decides what to code for a block and gives the samples that it will show.
pub fn decide(
    src: &[u8],
    recon: &[u8],
    refs: &[&[u8]],
    w: usize,
    h: usize,
    bx: usize,
    by: usize,
    opt: EncodeOptions,
    q: i32,
    weight: u64,
    used: &Vec<bool>,
    kernels: KernelSet,
) -> (r: (BlockRec, [u8; 64]))
    requires
        prediction::placed(src@.len(), w, h, bx, by),
        site_of(src, recon, refs, w, h, bx, by, q).wf(),
        opt.motion_radius <= 32,
        used@.len() == refs@.len(),
        weight == lambda(q as int),
        1 <= weight <= 8_388_352,
    ensures
        r.0.model() == site_of(src, recon, refs, w, h, bx, by, q).decided(opt, used@),
        forall|x: int, y: int|
            site_of(src, recon, refs, w, h, bx, by, q).covers(x, y) ==> #[trigger] r.1@[8 * y + x]
                == (site_of(src, recon, refs, w, h, bx, by, q).shown(r.0.model()))(x, y),
{
    let ghost site = site_of(src, recon, refs, w, h, bx, by, q);
    let palette: Option<(Vec<u8>, Vec<u8>)> = if opt.allow_palette {
        palette_for(src, w, h, bx, by)
    } else {
        None
    };
    let intra: (u32, u8) = find_best_intra(src, recon, w, h, bx, by, Ghost(site));
    let inter: Option<InterCandidate> = find_best_inter(
        src,
        refs,
        w,
        h,
        bx,
        by,
        opt,
        kernels,
        Ghost(site),
    );
    proof {
        lemma_palette_block(site, opt);
        lemma_count(site);
        lemma_chosen_admitted(site, opt, used@);
    }
    let (eval, score): (ResidualEval, u64) = choose_residual(
        src,
        recon,
        refs,
        w,
        h,
        bx,
        by,
        opt,
        q,
        weight,
        used,
        intra,
        &inter,
        kernels,
    );
    match palette {
        Some((colors, idx)) => {
            let bw: usize = prediction::cut_len(w, bx);
            let bh: usize = prediction::cut_len(h, by);
            let wins: bool = if opt.preset == EncoderPreset::Fast {
                let error: u32 = match &inter {
                    Some(c) => if c.sad < intra.0 {
                        c.sad
                    } else {
                        intra.0
                    },
                    None => intra.0,
                };
                error as usize > 4 * (bw * bh)
            } else {
                weigh(0, weight, palette_raw_rate(&colors, &idx)) < score
            };
            if wins {
                let samples: [u8; 64] = blocks::palette_samples(&colors, &idx, bw, bh);
                let block: BlockRec = BlockRec::Palette { colors, idx };
                proof {
                    assert forall|x: int, y: int| site.covers(x, y) implies #[trigger] samples@[8
                        * y + x] == (site.shown(block.model()))(x, y) by {
                        assert(samples@[8 * y + x] == colors@[idx@[y * bw + x] as int]);
                    }
                }
                return (block, samples);
            }
        },
        None => {},
    }
    let block: BlockRec = BlockRec::Residual {
        mode: eval.mode,
        ref_idx: eval.ref_idx,
        dx2: eval.dx2,
        dy2: eval.dy2,
        qcoeff: eval.qcoeff,
    };
    (block, eval.samples)
}

} // verus!
