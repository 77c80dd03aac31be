//! What coding and decoding ALA1 packets give together.
use crate::audio::v1::syntax;
use crate::audio::v1::{AudioError, EncodeOptions};
use crate::bitstream;
use crate::bytes;
use crate::kernels::scalar;
use crate::video::v1;
use crate::video::v1::choice;
use vstd::prelude::*;

verus! {

/// The coefficients times their steps.
pub open spec fn scaled(v: Seq<int>, q: int) -> Seq<int> {
    Seq::new(64, |i: int| v[i] * syntax::step(i, q))
}

/// Coefficients that read back as they were written.
pub open spec fn writable(v: Seq<int>, q: int) -> bool {
    &&& v.len() == 64
    &&& forall|i: int| 0 <= i < 64 ==> -2_000_000 <= #[trigger] v[i] <= 2_000_000
    &&& syntax::fits(scaled(v, q))
}

pub proof fn lemma_nonzero(v: Seq<int>, i: int)
    requires
        v.len() == 64,
        0 <= i <= 64,
    ensures
        syntax::nonzero_from(v, i) <= 64 - i,
    decreases 64 - i,
{
    if i < 64 {
        lemma_nonzero(v, i + 1);
    }
}

proof fn lemma_read_values(
    tok: Seq<u8>,
    pos: int,
    i: int,
    last: int,
    q: int,
    v: Seq<int>,
    part: Seq<int>,
)
    requires
        0 <= i <= 64,
        -1 <= last < i,
        0 <= pos,
        writable(v, q),
        part.len() == 64,
        forall|j: int| 0 <= j < i ==> part[j] == #[trigger] scaled(v, q)[j],
        forall|j: int| i <= j < 64 ==> part[j] == 0,
        pos + syntax::value_bytes(v, i).len() <= tok.len(),
        tok.subrange(pos, pos + syntax::value_bytes(v, i).len()) == syntax::value_bytes(v, i),
    ensures
        syntax::read_values(tok, pos, syntax::nonzero_from(v, i), last, q, part) == Ok::<
            (Seq<int>, int),
            AudioError,
        >((scaled(v, q), pos + syntax::value_bytes(v, i).len())),
    decreases 64 - i,
{
    if i == 64 {
        assert(part =~= scaled(v, q));
    } else if v[i] == 0 {
        assert(scaled(v, q)[i] == 0) by (nonlinear_arith)
            requires
                scaled(v, q)[i] == v[i] * syntax::step(i, q),
                v[i] == 0,
        ;
        lemma_read_values(tok, pos, i + 1, last, q, v, part);
    } else {
        let whole = syntax::value_bytes(v, i);
        let here = tok.subrange(pos, pos + whole.len());
        let a = bitstream::syntax::uvarint_bytes(i as nat);
        let b = bitstream::syntax::svarint_bytes(v[i]);
        let rest = syntax::value_bytes(v, i + 1);
        let at = pos + a.len();
        let end = at + b.len();
        assert(tok.subrange(pos, at) =~= a) by {
            assert(here.subrange(0, a.len() as int) =~= a);
        }
        assert(tok.subrange(at, end) =~= b) by {
            assert(here.subrange(a.len() as int, a.len() as int + b.len()) =~= b);
        }
        assert(tok.subrange(end, end + rest.len()) =~= rest) by {
            assert(here.skip(a.len() as int + b.len()) =~= rest);
        }
        bitstream::syntax::lemma_uvarint_at(tok, pos, i as u64);
        bitstream::syntax::lemma_svarint_at(tok, at, v[i] as i32);
        assert(i32::MIN <= scaled(v, q)[i] <= i32::MAX);
        lemma_read_values(tok, end, i + 1, i, q, v, part.update(i, scaled(v, q)[i]));
    }
}

/// A written block reads back, with its transform undone.
pub proof fn law_block_write_read(tok: Seq<u8>, pos: int, v: Seq<int>, q: int)
    requires
        0 <= pos,
        writable(v, q),
        pos + syntax::block_bytes(v).len() <= tok.len(),
        tok.subrange(pos, pos + syntax::block_bytes(v).len()) == syntax::block_bytes(v),
    ensures
        syntax::read_block(tok, pos, q) == (match syntax::unhaar(scaled(v, q)) {
            Some(block) => Ok::<(Seq<int>, int), AudioError>(
                (block, pos + syntax::block_bytes(v).len()),
            ),
            None => Err(AudioError::BadCoefficient),
        }),
{
    lemma_nonzero(v, 0);
    let n = syntax::nonzero_from(v, 0);
    let a = bitstream::syntax::uvarint_bytes(n);
    let rest = syntax::value_bytes(v, 0);
    let here = tok.subrange(pos, pos + syntax::block_bytes(v).len());
    assert(tok.subrange(pos, pos + a.len()) =~= a) by {
        assert(here.subrange(0, a.len() as int) =~= a);
    }
    assert(tok.subrange(pos + a.len(), pos + a.len() + rest.len()) =~= rest) by {
        assert(here.skip(a.len() as int) =~= rest);
    }
    bitstream::syntax::lemma_uvarint_at(tok, pos, n as u64);
    lemma_read_values(tok, pos + a.len(), 0, -1, q, v, syntax::silence());
}

// ---------------------------------------------------------------------------------------------
// Bounds

/// How far values within `m` can grow when the transform of `n` of them is undone.
pub open spec fn growth(n: int, m: int) -> int {
    let h = (m + 1) / 2;
    if n == 1 {
        m
    } else if n == 2 {
        m + h
    } else if n == 4 {
        m + 2 * h
    } else if n == 8 {
        m + 3 * h
    } else if n == 16 {
        m + 4 * h
    } else if n == 32 {
        m + 5 * h
    } else {
        m + 6 * h
    }
}

proof fn lemma_merged_bound(s: Seq<int>, d: Seq<int>, a: int, m: int)
    requires
        s.len() == d.len(),
        0 <= m,
        syntax::within(s, a),
        syntax::within(d, m),
    ensures
        syntax::within(syntax::merged(s, d), a + (m + 1) / 2),
{
    let out = syntax::merged(s, d);
    assert forall|i: int| 0 <= i < out.len() implies -(a + (m + 1) / 2) <= #[trigger] out[i] <= a + (
    m + 1) / 2 by {
        let j = i / 2;
        assert(-a <= s[j] <= a);
        assert(-m <= d[j] <= m);
    }
}

pub proof fn lemma_unhaar_bound(v: Seq<int>, m: int)
    requires
        syntax::is_block_len(v.len() as int),
        0 <= m <= 100_000_000,
        syntax::within(v, m),
    ensures
        syntax::unhaar(v) matches Some(out) && out.len() == v.len() && syntax::within(
            out,
            growth(v.len() as int, m),
        ),
    decreases v.len(),
{
    if v.len() >= 2 {
        let half = v.len() as int / 2;
        let (low, high) = (v.take(half), v.subrange(half, 2 * half));
        lemma_unhaar_bound(low, m);
        let s = syntax::unhaar(low)->0;
        lemma_merged_bound(s, high, growth(half, m), m);
        let out = syntax::merged(s, high);
        assert(syntax::fits(out)) by {
            assert forall|i: int| 0 <= i < out.len() implies i32::MIN <= #[trigger] out[i]
                <= i32::MAX by {
                assert(-(growth(half, m) + (m + 1) / 2) <= out[i] <= growth(half, m) + (m + 1) / 2);
            }
        }
    }
}

proof fn lemma_source_bound(pcm: Seq<i16>, opt: EncodeOptions, frames: int, k: int)
    ensures
        syntax::within(syntax::source_block(pcm, opt, frames, k), 65535),
        syntax::source_block(pcm, opt, frames, k).len() == 64,
{
}

/// The coefficients of a block read back, and undoing their transform never overflows.
pub proof fn lemma_coded_block(pcm: Seq<i16>, opt: EncodeOptions, frames: int, k: int)
    requires
        opt.qstep >= 1,
    ensures
        writable(syntax::coded_block(pcm, opt, frames, k), opt.qstep as int),
        syntax::unhaar(scaled(syntax::coded_block(pcm, opt, frames, k), opt.qstep as int)) matches Some(
            out,
        ) && out.len() == 64,
        opt.qstep == 1 ==> syntax::unhaar(
            scaled(syntax::coded_block(pcm, opt, frames, k), opt.qstep as int),
        ) == Some(syntax::source_block(pcm, opt, frames, k)),
{
    let q = opt.qstep as int;
    let src = syntax::source_block(pcm, opt, frames, k);
    let h = syntax::haar(src);
    let v = syntax::quantized(h, q);
    lemma_source_bound(pcm, opt, frames, k);
    syntax::lemma_haar_bound(src, 65535);
    syntax::lemma_haar_len(src);
    assert forall|i: int| 0 <= i < 64 implies -2_000_000 <= #[trigger] v[i] <= 2_000_000 by {
        assert(-131070 <= h[i] <= 131070);
        choice::lemma_rounded(h[i], syntax::step(i, q));
        scalar::lemma_abs(h[i]);
    }
    assert forall|i: int| 0 <= i < 64 implies -327_675 <= #[trigger] scaled(v, q)[i] <= 327_675 by {
        assert(-131070 <= h[i] <= 131070);
        choice::lemma_rounded(h[i], syntax::step(i, q));
        scalar::lemma_abs(h[i]);
    }
    assert(syntax::within(scaled(v, q), 327_675));
    lemma_unhaar_bound(scaled(v, q), 327_675);
    if q == 1 {
        assert forall|i: int| 0 <= i < 64 implies #[trigger] scaled(v, q)[i] == h[i] by {
            choice::lemma_rounded(h[i], 1);
        }
        assert(scaled(v, q) =~= h);
        syntax::law_haar_reversible(src);
    }
}

// ---------------------------------------------------------------------------------------------
// Packets

/// What a decoder makes of block `k`.
pub open spec fn shown_block(pcm: Seq<i16>, opt: EncodeOptions, frames: int, k: int) -> Seq<int> {
    syntax::unhaar(scaled(syntax::coded_block(pcm, opt, frames, k), opt.qstep as int))->0
}

pub open spec fn shown_blocks(pcm: Seq<i16>, opt: EncodeOptions) -> Seq<Seq<int>> {
    let frames = pcm.len() as int / opt.channels as int;
    Seq::new(
        (opt.channels * syntax::block_count(frames)) as nat,
        |k: int| shown_block(pcm, opt, frames, k),
    )
}

/// What a decoder makes of the samples, before they are cut to 16 bits.
pub open spec fn reconstruction(pcm: Seq<i16>, opt: EncodeOptions) -> Seq<int> {
    syntax::interleaved(
        shown_blocks(pcm, opt),
        pcm.len() as int / opt.channels as int,
        opt.channels as int,
        syntax::coupling(opt),
    )
}

proof fn lemma_blocks_bytes(list: Seq<Seq<int>>, k: int, n: int)
    requires
        0 <= k <= n <= list.len(),
    ensures
        syntax::blocks_bytes(list, k).len() <= syntax::blocks_bytes(list, n).len(),
        syntax::blocks_bytes(list, n).take(syntax::blocks_bytes(list, k).len() as int)
            == syntax::blocks_bytes(list, k),
    decreases n - k,
{
    let m = syntax::blocks_bytes(list, k).len() as int;
    if k < n {
        lemma_blocks_bytes(list, k, n - 1);
        assert(syntax::blocks_bytes(list, n).take(m) =~= syntax::blocks_bytes(list, n - 1).take(m));
    } else {
        assert(syntax::blocks_bytes(list, n).take(m) =~= syntax::blocks_bytes(list, n));
    }
}

proof fn lemma_block_at(tok: Seq<u8>, start: int, list: Seq<Seq<int>>, k: int)
    requires
        0 <= start,
        0 <= k < list.len(),
        tok.skip(start) == syntax::blocks_bytes(list, list.len() as int),
        start <= tok.len(),
    ensures
        ({
            let pos = start + syntax::blocks_bytes(list, k).len();
            let end = start + syntax::blocks_bytes(list, k + 1).len();
            &&& end == pos + syntax::block_bytes(list[k]).len()
            &&& end <= tok.len()
            &&& tok.subrange(pos, end) == syntax::block_bytes(list[k])
        }),
{
    let all = syntax::blocks_bytes(list, list.len() as int);
    lemma_blocks_bytes(list, k, list.len() as int);
    lemma_blocks_bytes(list, k + 1, list.len() as int);
    let a = syntax::blocks_bytes(list, k).len() as int;
    let b = syntax::blocks_bytes(list, k + 1).len() as int;
    assert(tok.subrange(start + a, start + b) =~= all.take(b).skip(a));
    assert(syntax::blocks_bytes(list, k + 1).skip(a) =~= syntax::block_bytes(list[k]));
}

proof fn lemma_read_blocks(tok: Seq<u8>, start: int, pcm: Seq<i16>, opt: EncodeOptions, k: int)
    requires
        0 <= start <= tok.len(),
        opt.qstep >= 1,
        opt.channels >= 1,
        tok.skip(start) == syntax::blocks_bytes(
            syntax::coded_blocks(pcm, opt),
            syntax::coded_blocks(pcm, opt).len() as int,
        ),
        0 <= k <= syntax::coded_blocks(pcm, opt).len(),
    ensures
        syntax::read_blocks(
            tok,
            start + syntax::blocks_bytes(syntax::coded_blocks(pcm, opt), k).len(),
            (syntax::coded_blocks(pcm, opt).len() - k) as nat,
            opt.qstep as int,
            shown_blocks(pcm, opt).take(k),
        ) == Ok::<(Seq<Seq<int>>, int), AudioError>((shown_blocks(pcm, opt), tok.len() as int)),
    decreases syntax::coded_blocks(pcm, opt).len() - k,
{
    let list = syntax::coded_blocks(pcm, opt);
    let shown = shown_blocks(pcm, opt);
    let frames = pcm.len() as int / opt.channels as int;
    if k == list.len() {
        assert(shown.take(k) =~= shown);
        assert(tok.skip(start).len() == tok.len() - start);
    } else {
        let pos = start + syntax::blocks_bytes(list, k).len();
        lemma_block_at(tok, start, list, k);
        lemma_coded_block(pcm, opt, frames, k);
        law_block_write_read(tok, pos, list[k], opt.qstep as int);
        assert(shown.take(k).push(shown_block(pcm, opt, frames, k)) =~= shown.take(k + 1));
        lemma_read_blocks(tok, start, pcm, opt, k + 1);
    }
}

/// The options and samples have a packet.
pub open spec fn codable(pcm: Seq<i16>, opt: EncodeOptions) -> bool {
    syntax::encode_error(pcm, opt) is None
}

proof fn lemma_tokens_decode(pcm: Seq<i16>, opt: EncodeOptions)
    requires
        codable(pcm, opt),
    ensures
        syntax::decoded_tokens(
            syntax::tokens(pcm, opt),
            pcm.len() as int / opt.channels as int,
            opt.channels as int,
            opt.qstep as int,
            syntax::coupling(opt),
        ) == (if syntax::audible(reconstruction(pcm, opt)) {
            Ok::<Seq<i16>, AudioError>(syntax::to_pcm(reconstruction(pcm, opt)))
        } else {
            Err(AudioError::SampleOverflow)
        }),
{
    let frames = pcm.len() as int / opt.channels as int;
    let tok = syntax::tokens(pcm, opt);
    let list = syntax::coded_blocks(pcm, opt);
    let n = syntax::block_count(frames);
    let a = bitstream::syntax::uvarint_bytes(n as nat);
    assert(tok.subrange(0, a.len() as int) =~= a);
    bitstream::syntax::lemma_uvarint_at(tok, 0, n as u64);
    assert(tok.skip(a.len() as int) =~= syntax::blocks_bytes(list, list.len() as int));
    lemma_read_blocks(tok, a.len() as int, pcm, opt, 0);
    assert(shown_blocks(pcm, opt).take(0) =~= Seq::empty());
}

/// A decoder with these bounds takes packets with these options.
pub open spec fn admitted(opt: EncodeOptions, bounds: syntax::Bounds) -> bool {
    bounds.expected matches Some((rate, channels)) ==> rate == opt.sample_rate && channels
        == opt.channels
}

/// Decoding a packet gives the reconstruction, under the rate and channel count it was coded with;
/// or reports that it leaves the 16-bit range.
pub proof fn law_packet_decodes(
    pcm: Seq<i16>,
    opt: EncodeOptions,
    coded: Seq<u8>,
    bounds: syntax::Bounds,
)
    requires
        codable(pcm, opt),
        admitted(opt, bounds),
        coded.len() <= u32::MAX,
        bitstream::syntax::decompressed(coded, bounds.max_entropy, bounds.fixed) == Ok::<
            Seq<u8>,
            bitstream::v1::BitstreamError,
        >(syntax::tokens(pcm, opt)),
    ensures
        syntax::decoded_packet(syntax::packet_with(pcm, opt, coded), bounds) == (
        if syntax::audible(reconstruction(pcm, opt)) {
            Ok::<(u32, u8, Seq<i16>), AudioError>(
                (opt.sample_rate, opt.channels, syntax::to_pcm(reconstruction(pcm, opt))),
            )
        } else {
            Err(AudioError::SampleOverflow)
        }),
{
    let frames = pcm.len() as int / opt.channels as int;
    let input = syntax::packet_with(pcm, opt, coded);
    let n = coded.len() as int;
    bytes::lemma_le_bounds();
    bytes::lemma_le_write_read(opt.qstep as int, 2);
    bytes::lemma_le_write_read(opt.sample_rate as int, 4);
    bytes::lemma_le_write_read(frames, 2);
    bytes::lemma_le_write_read(0, 2);
    bytes::lemma_le_write_read(n, 4);
    lemma_le_zero();
    assert(input.take(4) =~= syntax::magic());
    assert(input.subrange(6, 8) =~= bytes::le_bytes(opt.qstep as int, 2));
    assert(input.subrange(8, 12) =~= bytes::le_bytes(opt.sample_rate as int, 4));
    assert(input.subrange(12, 14) =~= bytes::le_bytes(frames, 2));
    assert(input.subrange(14, 16) =~= bytes::le_bytes(0, 2));
    assert(input[14] == input.subrange(14, 16)[0] && input[15] == input.subrange(14, 16)[1]);
    assert(input.subrange(16, 20) =~= bytes::le_bytes(n, 4));
    assert(input.skip(20) =~= coded);
    lemma_frames(pcm, opt);
    lemma_tokens_decode(pcm, opt);
}

proof fn lemma_le_zero()
    ensures
        bytes::le_bytes(0, 2) == seq![0u8, 0u8],
{
    reveal_with_fuel(bytes::le_bytes, 3);
    assert(bytes::le_bytes(0, 2) =~= seq![0u8, 0u8]);
}

pub proof fn lemma_frames(pcm: Seq<i16>, opt: EncodeOptions)
    requires
        codable(pcm, opt),
    ensures
        ({
            let frames = pcm.len() as int / opt.channels as int;
            &&& 1 <= frames <= 4096
            &&& frames * opt.channels == pcm.len()
        }),
{
    let n = opt.channels as int;
    let len = pcm.len() as int;
    let frames = len / n;
    vstd::arithmetic::div_mod::lemma_fundamental_div_mod(len, n);
    assert(n * frames == frames * n) by (nonlinear_arith);
    assert(frames >= 1) by (nonlinear_arith)
        requires
            frames * n == len,
            len > 0,
            n > 0,
    ;
}

/// A quantizer step of one loses nothing: every sample comes back, and none leaves its range.
pub proof fn law_lossless(pcm: Seq<i16>, opt: EncodeOptions)
    requires
        codable(pcm, opt),
        opt.qstep == 1,
    ensures
        syntax::audible(reconstruction(pcm, opt)),
        syntax::to_pcm(reconstruction(pcm, opt)) == pcm,
{
    let n = opt.channels as int;
    let frames = pcm.len() as int / n;
    let blocks = syntax::block_count(frames);
    let shown = shown_blocks(pcm, opt);
    lemma_frames(pcm, opt);
    let samples = reconstruction(pcm, opt);
    assert forall|c: int, f: int| 0 <= c < n && 0 <= f < frames implies #[trigger] syntax::plane_sample(
        shown,
        frames,
        c,
        f,
    ) == syntax::source(pcm, opt, c, f) by {
        let k = c * blocks + f / 64;
        v1::syntax::lemma_index(blocks, n, f / 64, c);
        assert(blocks * n == n * blocks) by (nonlinear_arith);
        lemma_coded_block(pcm, opt, frames, k);
        assert(shown[k] == syntax::source_block(pcm, opt, frames, k));
        assert((f / 64) * 64 + f % 64 == f);
    }
    assert forall|i: int| 0 <= i < pcm.len() implies #[trigger] samples[i] == pcm[i] by {
        let (c, f) = (i % n, i / n);
        assert(n * frames == frames * n) by (nonlinear_arith);
        v1::syntax::lemma_index_inverse(n, frames, i);
        if syntax::coupling(opt) {
            assert(syntax::plane_sample(shown, frames, 0, f) == syntax::source(pcm, opt, 0, f));
            assert(syntax::plane_sample(shown, frames, 1, f) == syntax::source(pcm, opt, 1, f));
        } else {
            assert(syntax::plane_sample(shown, frames, c, f) == syntax::source(pcm, opt, c, f));
        }
    }
    assert(syntax::to_pcm(samples) =~= pcm);
}

/// Every truncation of an accepted packet is refused: there is too little of it.
pub proof fn law_truncation_refused(packet: Seq<u8>, bounds: syntax::Bounds, n: int)
    requires
        syntax::decoded_packet(packet, bounds) is Ok,
        0 <= n < packet.len(),
    ensures
        syntax::decoded_packet(packet.take(n), bounds) == Err::<(u32, u8, Seq<i16>), AudioError>(
            AudioError::UnexpectedEof,
        ),
{
    if n >= 20 {
        lemma_fields_cut(packet, n);
    }
}

/// A byte more than an accepted packet is noticed.
pub proof fn law_extension_refused(packet: Seq<u8>, bounds: syntax::Bounds, more: u8)
    requires
        syntax::decoded_packet(packet, bounds) is Ok,
    ensures
        syntax::decoded_packet(packet.push(more), bounds) == Err::<(u32, u8, Seq<i16>), AudioError>(
            AudioError::TrailingData,
        ),
{
    let longer = packet.push(more);
    assert(longer.take(packet.len() as int) =~= packet);
    lemma_fields_cut(longer, packet.len() as int);
}

/// The fields of a packet's first 20 bytes are there in any longer part of it.
proof fn lemma_fields_cut(packet: Seq<u8>, n: int)
    requires
        20 <= n <= packet.len(),
    ensures
        ({
            let part = packet.take(n);
            &&& part.take(4) == packet.take(4)
            &&& part[4] == packet[4]
            &&& part[5] == packet[5]
            &&& part.subrange(6, 8) == packet.subrange(6, 8)
            &&& part.subrange(8, 12) == packet.subrange(8, 12)
            &&& part.subrange(12, 14) == packet.subrange(12, 14)
            &&& part[14] == packet[14]
            &&& part[15] == packet[15]
            &&& part.subrange(16, 20) == packet.subrange(16, 20)
        }),
{
    let part = packet.take(n);
    assert(part.take(4) =~= packet.take(4));
    assert(part.subrange(6, 8) =~= packet.subrange(6, 8));
    assert(part.subrange(8, 12) =~= packet.subrange(8, 12));
    assert(part.subrange(12, 14) =~= packet.subrange(12, 14));
    assert(part.subrange(16, 20) =~= packet.subrange(16, 20));
}

} // verus!
