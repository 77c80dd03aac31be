//! Audio codec that codes every packet it can frame and reads older entropy blocks.
use crate::audio::v1::codec;
use crate::audio::v1::codec::{check_options, decode_tokens, encode_tokens, read_header, wrap, Header};
use crate::audio::v1::laws;
use crate::audio::v1::syntax;
use crate::bitstream;
use crate::reference;
use crate::reference::bitstream::{entropy_compress, entropy_decompress};
use vstd::prelude::*;

pub use crate::audio::v1::{AudioError, EncodeOptions, BLOCK, CODEC_MAGIC, MAX_FRAMES};

verus! {

/// What the decoder asks of a packet: nothing of the reserved bytes, and no more than 4 MiB of
/// tokens.
pub open spec fn bounds() -> syntax::Bounds {
    syntax::Bounds { max_entropy: 4_194_304, expected: None, strict: false, fixed: true }
}

/// The packet of samples that can be coded.
pub open spec fn packet_bytes(pcm: Seq<i16>, opt: EncodeOptions) -> Seq<u8> {
    syntax::packet_with(pcm, opt, reference::bitstream::compressed(syntax::tokens(pcm, opt)))
}

/// Decoding a reference packet gives its reconstruction; or reports that it leaves the 16-bit
/// range. The production decoder sees the same.
pub proof fn law_encode_decode(pcm: Seq<i16>, opt: EncodeOptions)
    requires
        laws::codable(pcm, opt),
    ensures
        ({
            let want = if syntax::audible(laws::reconstruction(pcm, opt)) {
                Ok::<(u32, u8, Seq<i16>), AudioError>(
                    (opt.sample_rate, opt.channels, syntax::to_pcm(laws::reconstruction(pcm, opt))),
                )
            } else {
                Err(AudioError::SampleOverflow)
            };
            &&& syntax::decoded_packet(packet_bytes(pcm, opt), bounds()) == want
            &&& syntax::decoded_packet(packet_bytes(pcm, opt), codec::bounds(8_388_608, None))
                == want
        }),
{
    codec::law_tokens_short(pcm, opt);
    let tok = syntax::tokens(pcm, opt);
    reference::bitstream::law_blocks_exchange(tok, 4_194_304, true);
    reference::bitstream::law_blocks_exchange(tok, 8_388_608, false);
    let coded = reference::bitstream::compressed(tok);
    laws::law_packet_decodes(pcm, opt, coded, bounds());
    laws::law_packet_decodes(pcm, opt, coded, codec::bounds(8_388_608, None));
}

/// At a quantizer step of one a reference packet gives the samples back.
pub proof fn law_lossless(pcm: Seq<i16>, opt: EncodeOptions)
    requires
        laws::codable(pcm, opt),
        opt.qstep == 1,
    ensures
        syntax::decoded_packet(packet_bytes(pcm, opt), bounds()) == Ok::<
            (u32, u8, Seq<i16>),
            AudioError,
        >((opt.sample_rate, opt.channels, pcm)),
{
    law_encode_decode(pcm, opt);
    laws::law_lossless(pcm, opt);
}

/// What the production encoder codes, the reference decoder gives back as production does.
pub proof fn law_reads_production(pcm: Seq<i16>, opt: EncodeOptions)
    requires
        codec::refused(pcm, opt) is None,
    ensures
        syntax::decoded_packet(codec::packet_bytes(pcm, opt), bounds()) == Ok::<
            (u32, u8, Seq<i16>),
            AudioError,
        >((opt.sample_rate, opt.channels, syntax::to_pcm(laws::reconstruction(pcm, opt)))),
{
    codec::law_tokens_short(pcm, opt);
    let tok = syntax::tokens(pcm, opt);
    reference::bitstream::law_blocks_exchange(tok, 4_194_304, true);
    bitstream::syntax::law_entropy_round_trip(tok, 4_194_304, true);
    laws::law_packet_decodes(pcm, opt, bitstream::syntax::compressed(tok), bounds());
}

/// Encodes one interleaved signed-16 PCM packet.
pub fn encode(interleaved: &[i16], opt: EncodeOptions) -> (r: Result<Vec<u8>, AudioError>)
    ensures
        match r {
            Ok(packet) => syntax::encode_error(interleaved@, opt) is None && packet@
                == packet_bytes(interleaved@, opt),
            Err(e) => syntax::encode_error(interleaved@, opt) == Some(e),
        },
{
    match check_options(interleaved, &opt) {
        Ok(()) => {},
        Err(e) => {
            return Err(e);
        },
    }
    let tok: Vec<u8> = encode_tokens(interleaved, &opt);
    proof {
        reference::bitstream::law_blocks_exchange(tok@, 4_194_304, true);
    }
    let coded: Vec<u8> = entropy_compress(&tok);
    Ok(wrap(interleaved, &opt, &coded))
}

/// Decodes one complete packet to sample rate, channel count and interleaved samples.
pub fn decode(input: &[u8]) -> (r: Result<(u32, u8, Vec<i16>), AudioError>)
    ensures
        codec::decode_result(syntax::decoded_packet(input@, bounds()), r),
{
    let h: Header = match read_header(input, None, false, Ghost(4_194_304nat), Ghost(true)) {
        Ok(h) => h,
        Err(e) => {
            return Err(e);
        },
    };
    let coded: &[u8] = &input[20..input.len()];
    assert(coded@ =~= input@.skip(20));
    match entropy_decompress(coded, 4_194_304) {
        Err(e) => Err(AudioError::Bitstream(e)),
        Ok(tok) => match decode_tokens(&tok, h.frames as usize, h.channels as usize, h.qstep, h.coupled) {
            Err(e) => Err(e),
            Ok(pcm) => Ok((h.sample_rate, h.channels, pcm)),
        },
    }
}

} // verus!
