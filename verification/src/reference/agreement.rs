//! Where the production and the reference codecs understand one another, whatever a frame shows.
use crate::reference::video_decoder;
use crate::reference::video_encoder;
use crate::video::v1::decoder;
use crate::video::v1::packets;
use crate::video::v1::syntax;
use crate::video::v1::{EncodeOptions, VideoError};
use vstd::prelude::*;

verus! {

/// The usual ceilings of a decoder.
pub open spec fn usual() -> syntax::Bounds {
    decoder::bounds(67_108_864, 8_388_608, None)
}

/// The tokens of a frame of up to 2^20 samples are within the usual ceiling.
proof fn lemma_small(w: int, h: int)
    requires
        syntax::dimensions_ok(w, h),
        w * h <= 1_048_576,
    ensures
        263 * syntax::block_count(w, h) <= 8_388_608,
{
    let (c, r) = (syntax::block_columns(w), syntax::block_columns(h));
    assert(64 * (c * r) == (8 * c) * (8 * r)) by (nonlinear_arith);
    assert((8 * c) * (8 * r) <= (w + 6) * (h + 6)) by (nonlinear_arith)
        requires
            0 <= 8 * c <= w + 6,
            0 <= 8 * r <= h + 6,
    ;
    assert((w + 6) * (h + 6) == w * h + 6 * w + 6 * h + 36) by (nonlinear_arith);
}

/// Both decoders show what the production encoder reconstructed of a frame of up to 2^20 samples,
/// under the frame's id and with the same dependencies, wherever the references in use are known.
pub proof fn law_production_frame(
    frame_id: u64,
    picture: syntax::Picture,
    references: Seq<(u64, syntax::Picture)>,
    opt: EncodeOptions,
    known: Seq<(u64, syntax::Picture)>,
)
    requires
        packets::encode_error(frame_id, picture, references, opt) is None,
        picture.width * picture.height <= 1_048_576,
        packets::resolves(picture, packets::considered(references, opt), opt, known),
    ensures
        ({
            let refs = packets::considered(references, opt);
            let shown = Ok::<(u64, syntax::Picture, Seq<u64>), VideoError>(
                (
                    frame_id,
                    packets::reconstruction(picture, refs, opt),
                    packets::dependencies_of(refs, packets::used_by_any(picture, refs, opt)),
                ),
            );
            let packet = packets::packet_bytes(frame_id, picture, refs, opt);
            &&& syntax::decoded_frame(packet, known, usual()) == shown
            &&& video_decoder::decoded_frame(packet, known) == shown
        }),
{
    let refs = packets::considered(references, opt);
    lemma_small(picture.width, picture.height);
    packets::law_token_ceiling(frame_id, picture, references, opt, usual());
    packets::law_frame_decodes(frame_id, picture, references, opt, known, usual());
    video_decoder::law_agrees_with_production(
        packets::packet_bytes(frame_id, picture, refs, opt),
        known,
        usual(),
    );
}

/// Both decoders show what the reference encoder reconstructed of a frame of up to 2^20 samples,
/// under the frame's id and with the same dependencies, wherever they know what the packet speaks of.
pub proof fn law_reference_frame(
    frame_id: u64,
    picture: syntax::Picture,
    references: Seq<(u64, syntax::Picture)>,
    opt: video_encoder::EncodeOptions,
    known: Seq<(u64, syntax::Picture)>,
)
    requires
        video_encoder::encode_error(picture, references, opt) is None,
        picture.width * picture.height <= 1_048_576,
        video_encoder::known_to(
            frame_id,
            picture,
            video_encoder::considered(references, opt),
            opt,
            known,
            usual(),
        ),
    ensures
        ({
            let refs = video_encoder::considered(references, opt);
            let shown = Ok::<(u64, syntax::Picture, Seq<u64>), VideoError>(
                (
                    frame_id,
                    video_encoder::reconstruction(picture, refs, opt),
                    packets::dependencies_of(refs, video_encoder::used_by_any(picture, refs, opt)),
                ),
            );
            let packet = video_encoder::packet_bytes(frame_id, picture, refs, opt);
            &&& syntax::decoded_frame(packet, known, usual()) == shown
            &&& video_decoder::decoded_frame(packet, known) == shown
        }),
{
    lemma_small(picture.width, picture.height);
    video_encoder::law_token_ceiling(frame_id, picture, references, opt, known, usual());
    video_encoder::law_frame_decodes(frame_id, picture, references, opt, known, usual());
}

} // verus!
