//! What is refused, and why; and that nothing else is.
use crate::audio::v1::syntax;
use crate::audio::v1::{AudioError, EncodeOptions};
use crate::bitstream::syntax as numbers;
use crate::bitstream::v1::BitstreamError;
use crate::container::v1::layout_laws;
use vstd::prelude::*;

verus! {

/// A coefficient is taken if its place is behind the one before and among the 64 of a block, its size
/// is at most two million, and 32 bits hold it once it is scaled. The steps of the first four are the
/// quantizer step, those of the next twelve twice and those of the others three times as much; all are
/// one where that is one.
pub proof fn law_coefficients_taken(
    tok: Seq<u8>,
    pos: int,
    left: nat,
    last: int,
    q: int,
    v: Seq<int>,
    place: u64,
    value: i32,
)
    requires
        left > 0,
        q >= 1,
        numbers::read_uvarint(tok, pos) == Ok::<u64, BitstreamError>(place),
        numbers::read_svarint(tok, numbers::uvarint_end(tok, pos)) == Ok::<i32, BitstreamError>(value),
    ensures
        ({
            let scaled = value * if q == 1 {
                1
            } else if place < 4 {
                q
            } else if place < 16 {
                2 * q
            } else {
                3 * q
            };
            syntax::read_values(tok, pos, left, last, q, v) == if last < place < 64 && -2_000_000 <= value
                <= 2_000_000 && -2_147_483_648 <= scaled <= 2_147_483_647 {
                syntax::read_values(
                    tok,
                    numbers::uvarint_end(tok, numbers::uvarint_end(tok, pos)),
                    (left - 1) as nat,
                    place as int,
                    q,
                    v.update(place as int, scaled),
                )
            } else {
                Err(AudioError::BadCoefficient)
            }
        }),
{
}

/// A block has at most 64 coefficients, and is what they give when the transform is undone.
pub proof fn law_blocks_taken(tok: Seq<u8>, pos: int, q: int, n: u64)
    requires
        numbers::read_uvarint(tok, pos) == Ok::<u64, BitstreamError>(n),
    ensures
        n > 64 ==> syntax::read_block(tok, pos, q) == Err::<(Seq<int>, int), AudioError>(
            AudioError::BadCoefficient,
        ),
        n <= 64 ==> match syntax::read_values(
            tok,
            numbers::uvarint_end(tok, pos),
            n as nat,
            -1,
            q,
            Seq::new(64, |i: int| 0int),
        ) {
            Err(e) => syntax::read_block(tok, pos, q) == Err::<(Seq<int>, int), AudioError>(e),
            Ok((v, end)) => match syntax::unhaar(v) {
                None => syntax::read_block(tok, pos, q) == Err::<(Seq<int>, int), AudioError>(
                    AudioError::BadCoefficient,
                ),
                Some(block) => syntax::read_block(tok, pos, q) == Ok::<(Seq<int>, int), AudioError>(
                    (block, end),
                ),
            },
        },
{
    assert(syntax::silence() =~= Seq::new(64, |i: int| 0int));
}

/// The tokens of a packet start with the number of blocks of a channel: as many as it takes for 64
/// samples each. All blocks of all channels follow, and nothing behind them. Only two channels can be
/// coupled, and every sample must fit 16 bits.
pub proof fn law_tokens_taken(
    tok: Seq<u8>,
    frames: int,
    channels: int,
    q: int,
    coupled: bool,
    n: u64,
    blocks: int,
)
    requires
        1 <= frames,
        1 <= channels,
        numbers::read_uvarint(tok, 0) == Ok::<u64, BitstreamError>(n),
        64 * (blocks - 1) < frames <= 64 * blocks,
    ensures
        ({
            let told = syntax::decoded_tokens(tok, frames, channels, q, coupled);
            &&& n != blocks ==> told == Err::<Seq<i16>, AudioError>(AudioError::BadHeader)
            &&& n == blocks ==> match syntax::read_blocks(
                tok,
                numbers::uvarint_end(tok, 0),
                (channels * blocks) as nat,
                q,
                Seq::empty(),
            ) {
                Err(e) => told == Err::<Seq<i16>, AudioError>(e),
                Ok((list, end)) => {
                    let samples = syntax::interleaved(list, frames, channels, coupled);
                    let fits = forall|i: int|
                        0 <= i < samples.len() ==> -32768 <= #[trigger] samples[i] <= 32767;
                    &&& end != tok.len() ==> told == Err::<Seq<i16>, AudioError>(AudioError::TrailingData)
                    &&& end == tok.len() && coupled && channels != 2 ==> told == Err::<
                        Seq<i16>,
                        AudioError,
                    >(AudioError::BadHeader)
                    &&& end == tok.len() && (coupled ==> channels == 2) && !fits ==> told == Err::<
                        Seq<i16>,
                        AudioError,
                    >(AudioError::SampleOverflow)
                    &&& end == tok.len() && (coupled ==> channels == 2) && fits ==> {
                        &&& told is Ok
                        &&& told->Ok_0.len() == samples.len()
                        &&& forall|i: int|
                            0 <= i < samples.len() ==> #[trigger] told->Ok_0[i] == samples[i]
                    }
                },
            }
        }),
{
    assert(syntax::block_count(frames) == blocks);
}

/// The head of a packet: each fault has its error, and they are looked for in this order.
pub proof fn law_packet_head(input: Seq<u8>, bounds: syntax::Bounds)
    ensures
        ({
            let told = syntax::decoded_packet(input, bounds);
            let channels = input[4];
            let rate = layout_laws::four(input, 8);
            let frames = layout_laws::two(input, 12);
            let n = layout_laws::four(input, 16);
            let long = input.len() >= 20;
            let starts = long && input[0] == 65 && input[1] == 76 && input[2] == 65 && input[3] == 49;
            let heard = starts && 1 <= channels <= 8 && (bounds.expected matches Some((r, c)) ==> c
                == channels);
            let marked = heard && input[5] <= 1;
            let steps = marked && layout_laws::two(input, 6) != 0;
            let rated = steps && 8000 <= rate <= 384000 && (bounds.expected matches Some((r, c)) ==> r
                == rate);
            let framed = rated && 1 <= frames <= 4096;
            let clean = framed && (bounds.strict ==> input[14] == 0 && input[15] == 0);
            &&& !long ==> told == Err::<(u32, u8, Seq<i16>), AudioError>(AudioError::UnexpectedEof)
            &&& long && !starts ==> told == Err::<(u32, u8, Seq<i16>), AudioError>(AudioError::BadHeader)
            &&& starts && !heard ==> told == Err::<(u32, u8, Seq<i16>), AudioError>(
                AudioError::BadChannels,
            )
            &&& heard && !marked ==> told == Err::<(u32, u8, Seq<i16>), AudioError>(AudioError::BadHeader)
            &&& marked && !steps ==> told == Err::<(u32, u8, Seq<i16>), AudioError>(
                AudioError::BadQuantizer,
            )
            &&& steps && !rated ==> told == Err::<(u32, u8, Seq<i16>), AudioError>(AudioError::BadRate)
            &&& rated && !framed ==> told == Err::<(u32, u8, Seq<i16>), AudioError>(
                AudioError::BadFrames,
            )
            &&& framed && !clean ==> told == Err::<(u32, u8, Seq<i16>), AudioError>(AudioError::BadHeader)
            &&& clean && input.len() < 20 + n ==> told == Err::<(u32, u8, Seq<i16>), AudioError>(
                AudioError::UnexpectedEof,
            )
            &&& clean && input.len() > 20 + n ==> told == Err::<(u32, u8, Seq<i16>), AudioError>(
                AudioError::TrailingData,
            )
            &&& clean && input.len() == 20 + n ==> match numbers::decompressed(
                input.skip(20),
                bounds.max_entropy,
                bounds.fixed,
            ) {
                Err(e) => told == Err::<(u32, u8, Seq<i16>), AudioError>(AudioError::Bitstream(e)),
                Ok(tok) => match syntax::decoded_tokens(
                    tok,
                    frames,
                    channels as int,
                    layout_laws::two(input, 6),
                    input[5] == 1,
                ) {
                    Err(e) => told == Err::<(u32, u8, Seq<i16>), AudioError>(e),
                    Ok(pcm) => told == Ok::<(u32, u8, Seq<i16>), AudioError>(
                        (rate as u32, channels, pcm),
                    ),
                },
            }
        }),
{
    if input.len() >= 20 {
        layout_laws::law_numbers(input, 6);
        layout_laws::law_numbers(input, 8);
        layout_laws::law_numbers(input, 12);
        layout_laws::law_numbers(input, 16);
        let head = input.take(4);
        assert(head[0] == input[0] && head[1] == input[1] && head[2] == input[2] && head[3] == input[3]);
        if input[0] == 65 && input[1] == 76 && input[2] == 65 && input[3] == 49 {
            assert(head =~= syntax::magic());
        }
    }
}

/// Samples are coded for one to eight channels, at 8 to 384 kHz, with a quantizer step, as many for each
/// channel and at most 4096 of them.
pub proof fn law_samples_taken(pcm: Seq<i16>, opt: EncodeOptions)
    ensures
        syntax::encode_error(pcm, opt) == if opt.channels < 1 || opt.channels > 8 {
            Some(AudioError::BadChannels)
        } else if opt.sample_rate < 8000 || opt.sample_rate > 384000 {
            Some(AudioError::BadRate)
        } else if opt.qstep < 1 {
            Some(AudioError::BadQuantizer)
        } else if pcm.len() < 1 || pcm.len() as int % opt.channels as int != 0 || pcm.len() > 4096
            * opt.channels {
            Some(AudioError::BadFrames)
        } else {
            None
        },
{
    let (n, c) = (pcm.len() as int, opt.channels as int);
    if c >= 1 {
        let t = n / c;
        vstd::arithmetic::div_mod::lemma_fundamental_div_mod(n, c);
        if n % c == 0 {
            assert(t > 4096 <==> n > 4096 * c) by (nonlinear_arith)
                requires
                    n == c * t + 0,
                    c >= 1,
            ;
        }
    }
}

/// Stereo is coupled where options ask for it, and nothing else is.
pub proof fn law_coupling(opt: EncodeOptions)
    ensures
        syntax::coupling(opt) <==> opt.channels == 2 && opt.mid_side,
{
}

} // verus!
