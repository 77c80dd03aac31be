//! Encoder of ALV1 frames, without any state.
use crate::bitstream;
use crate::reference;
use crate::reference::bitstream::entropy_compress;
use crate::reference::frame;
use crate::reference::frame::plane;
use crate::reference::planes;
use crate::reference::planes::encode_plane;
use crate::video::v1::blocks;
use crate::video::v1::blocks::BlockRec;
use crate::video::v1::encoder;
use crate::video::v1::packets;
use crate::video::v1::packets::{either, put_header, put_shorter};
use crate::video::v1::prediction;
use crate::video::v1::syntax;
use crate::video::v1::writing;
use crate::video::v1::writing::{serialize_blocks, BlockLayout, SerializedBlocks};
use vstd::prelude::*;

pub use crate::reference::frame::Frame420;
pub use crate::reference::planes::EncodeOptions;
pub use crate::reference::video_decoder::CODEC_MAGIC;
pub use crate::video::v1::VideoError;

verus! {

/// Maximum luma-pixel count accepted by the reference codec.
pub const MAX_PIXELS: u64 = 67_108_864;

/// Transform and prediction block edge length in samples.
pub const BLOCK: usize = 8;

/// Result of encoding one ALV1 frame.
#[derive(Debug)]
pub struct EncodedFrame {
    /// Complete ALV1 frame packet payload.
    pub packet: Vec<u8>,
    /// Encoder reconstruction, suitable for future reference prediction.
    pub reconstructed: Frame420,
    /// Exact immutable frame ids needed to decode this packet.
    pub dependencies: Vec<u64>,
}

/// How the reference encoder packs a lane.
pub open spec fn packing() -> spec_fn(Seq<u8>) -> Seq<u8> {
    |s: Seq<u8>| reference::bitstream::compressed(s)
}

proof fn lemma_packs()
    ensures
        packets::packs(packing()),
{
    reveal(packets::packs);
    assert forall|s: Seq<u8>| s.len() <= u32::MAX implies (#[trigger] packing()(s)).len() <= s.len()
        + 5 && forall|max: nat|
        s.len() <= max ==> #[trigger] bitstream::syntax::decompressed(packing()(s), max, false)
            == Ok::<Seq<u8>, bitstream::v1::BitstreamError>(s) by {
        reference::bitstream::law_blocks_exchange(s, s.len(), false);
        assert forall|max: nat| s.len() <= max implies #[trigger] bitstream::syntax::decompressed(
            packing()(s),
            max,
            false,
        ) == Ok::<Seq<u8>, bitstream::v1::BitstreamError>(s) by {
            reference::bitstream::law_blocks_exchange(s, max, false);
        }
    }
}

/// The references that are considered: the first few.
pub open spec fn considered(references: Seq<(u64, syntax::Picture)>, opt: EncodeOptions) -> Seq<
    (u64, syntax::Picture),
> {
    let most: int = if opt.max_refs < 4 {
        opt.max_refs as int
    } else {
        4
    };
    if references.len() < most {
        references
    } else {
        references.take(most)
    }
}

/// Why the references from `i` on are refused, if they are.
pub open spec fn reference_error(
    refs: Seq<(u64, syntax::Picture)>,
    i: int,
    w: int,
    h: int,
) -> Option<VideoError>
    decreases refs.len() - i,
{
    if i < 0 || i >= refs.len() {
        None
    } else if !frame::valid(refs[i].1) {
        Some(
            if frame::dimensions_ok(refs[i].1.width, refs[i].1.height) {
                VideoError::PlaneLength
            } else {
                VideoError::BadDimensions
            },
        )
    } else if refs[i].1.width != w || refs[i].1.height != h {
        Some(VideoError::ReferenceShape)
    } else {
        reference_error(refs, i + 1, w, h)
    }
}

/// Why a frame cannot be encoded, if it cannot.
pub open spec fn encode_error(
    picture: syntax::Picture,
    references: Seq<(u64, syntax::Picture)>,
    opt: EncodeOptions,
) -> Option<VideoError> {
    if !frame::dimensions_ok(picture.width, picture.height) {
        Some(VideoError::BadDimensions)
    } else if !picture.sized() {
        Some(VideoError::PlaneLength)
    } else if opt.qstep == 0 {
        Some(VideoError::BadQuantizer)
    } else {
        reference_error(considered(references, opt), 0, picture.width, picture.height)
    }
}

/// The coding of plane `p`.
#[verifier::opaque]
pub open spec fn coded(
    picture: syntax::Picture,
    refs: Seq<(u64, syntax::Picture)>,
    opt: EncodeOptions,
    p: int,
) -> encoder::PlaneState {
    planes::coded_plane(
        picture.plane(p),
        syntax::planes_of(packets::pictures_of(refs), p),
        syntax::plane_len(picture.width, p),
        syntax::plane_len(picture.height, p),
        opt,
    )
}

/// Which references any plane uses.
#[verifier::opaque]
pub open spec fn used_by_any(
    picture: syntax::Picture,
    refs: Seq<(u64, syntax::Picture)>,
    opt: EncodeOptions,
) -> Seq<bool> {
    Seq::new(
        refs.len(),
        |i: int|
            coded(picture, refs, opt, 0).used[i] || coded(picture, refs, opt, 1).used[i] || coded(
                picture,
                refs,
                opt,
                2,
            ).used[i],
    )
}

/// The blocks of plane `p` with references numbered as the packet lists them.
#[verifier::opaque]
pub open spec fn final_list(
    picture: syntax::Picture,
    refs: Seq<(u64, syntax::Picture)>,
    opt: EncodeOptions,
    p: int,
) -> Seq<syntax::Block> {
    writing::remapped_list(
        coded(picture, refs, opt, p).list,
        packets::remap_of(used_by_any(picture, refs, opt)),
    )
}

/// The packet of a frame. The header holds the lower 16 bits of each side.
pub open spec fn packet_bytes(
    frame_id: u64,
    picture: syntax::Picture,
    refs: Seq<(u64, syntax::Picture)>,
    opt: EncodeOptions,
) -> Seq<u8> {
    let ids = packets::dependencies_of(refs, used_by_any(picture, refs, opt));
    packets::header_bytes(
        frame_id,
        picture.width % 65536,
        picture.height % 65536,
        opt.qstep as int,
        ids.len() as int,
    ) + packets::id_bytes(ids) + packets::envelope_bytes(
        final_list(picture, refs, opt, 0),
        packing(),
    ) + packets::envelope_bytes(final_list(picture, refs, opt, 1), packing())
        + packets::envelope_bytes(final_list(picture, refs, opt, 2), packing())
}

/// What a decoder will show for the packet.
pub open spec fn reconstruction(
    picture: syntax::Picture,
    refs: Seq<(u64, syntax::Picture)>,
    opt: EncodeOptions,
) -> syntax::Picture {
    syntax::Picture {
        width: picture.width,
        height: picture.height,
        y: coded(picture, refs, opt, 0).recon,
        u: coded(picture, refs, opt, 1).recon,
        v: coded(picture, refs, opt, 2).recon,
    }
}

// ---------------------------------------------------------------------------------------------
// What an accepted frame can be relied on for

proof fn lemma_references_ok(refs: Seq<(u64, syntax::Picture)>, i: int, w: int, h: int)
    requires
        0 <= i,
        reference_error(refs, i, w, h) is None,
    ensures
        forall|j: int|
            i <= j < refs.len() ==> frame::valid((#[trigger] refs[j]).1) && refs[j].1.width == w
                && refs[j].1.height == h,
    decreases refs.len() - i,
{
    if i < refs.len() {
        lemma_references_ok(refs, i + 1, w, h);
    }
}

proof fn lemma_plane_ok(
    picture: syntax::Picture,
    refs: Seq<(u64, syntax::Picture)>,
    p: int,
)
    requires
        frame::valid(picture),
        reference_error(refs, 0, picture.width, picture.height) is None,
        0 <= p < 3,
    ensures
        planes::plane_ok(
            picture.plane(p),
            syntax::planes_of(packets::pictures_of(refs), p),
            syntax::plane_len(picture.width, p),
            syntax::plane_len(picture.height, p),
        ),
{
    let (w, h) = (picture.width, picture.height);
    frame::lemma_planes(w, h, p);
    lemma_references_ok(refs, 0, w, h);
    let list = syntax::planes_of(packets::pictures_of(refs), p);
    assert forall|i: int| 0 <= i < list.len() implies #[trigger] list[i].len() == syntax::plane_len(
        w,
        p,
    ) * syntax::plane_len(h, p) by {
        assert(frame::valid(refs[i].1));
    }
}

proof fn lemma_count(w: int, h: int)
    requires
        frame::dimensions_ok(w, h),
    ensures
        syntax::block_count(w, h) <= 4_194_305,
        syntax::block_count(w / 2, h / 2) <= 4_194_305,
{
    let (c, r) = (syntax::block_columns(w), syntax::block_columns(h));
    assert(64 * (c * r) <= (w + 6) * (h + 6)) by (nonlinear_arith)
        requires
            0 <= 8 * c <= w + 6,
            0 <= 8 * r <= h + 6,
    ;
    assert((w + 6) * (h + 6) == w * h + 6 * w + 6 * h + 36) by (nonlinear_arith);
    assert(2 * w + 2 * h <= w * h + 4) by (nonlinear_arith)
        requires
            2 <= w,
            2 <= h,
    ;
    let (c2, r2) = (syntax::block_columns(w / 2), syntax::block_columns(h / 2));
    assert(c2 * r2 <= c * r) by (nonlinear_arith)
        requires
            0 <= c2 <= c,
            0 <= r2 <= r,
    ;
}

proof fn lemma_payloads(
    src: Seq<u8>,
    refs: Seq<Seq<u8>>,
    w: int,
    h: int,
    opt: EncodeOptions,
    k: int,
    remap: Seq<usize>,
)
    requires
        planes::plane_ok(src, refs, w, h),
        0 <= k <= syntax::block_count(w, h),
        remap.len() == refs.len(),
        forall|i: int| 0 <= i < remap.len() ==> #[trigger] remap[i] <= 4,
    ensures
        ({
            let list = planes::plane_state(src, refs, w, h, opt, k).list;
            &&& list.len() == k
            &&& forall|i: int|
                0 <= i < k ==> writing::bounded(writing::remapped(#[trigger] list[i], remap))
            &&& forall|i: int|
                0 <= i < k ==> writing::serializable(#[trigger] list[i], remap)
        }),
    decreases k,
{
    planes::lemma_state_shaped(src, refs, w, h, opt, k);
    if k > 0 {
        lemma_payloads(src, refs, w, h, opt, k - 1, remap);
        let before = planes::plane_state(src, refs, w, h, opt, k - 1);
        let state = planes::plane_state(src, refs, w, h, opt, k);
        planes::lemma_state_shaped(src, refs, w, h, opt, k - 1);
        syntax::lemma_block_place(w, h, k - 1);
        let site = encoder::site_at(src, before.recon, refs, w, h, k - 1, planes::step_of(opt));
        planes::lemma_decision_bounded(site, opt);
        assert forall|i: int| 0 <= i < k implies writing::bounded(
            writing::remapped(#[trigger] state.list[i], remap),
        ) && writing::serializable(state.list[i], remap) by {
            assert(planes::shaped(state.list[i], refs.len()));
            if i < k - 1 {
                assert(state.list[i] == before.list[i]);
            }
        }
    }
}

/// The writers take the blocks of a plane, and their lanes are short.
proof fn lemma_lanes(
    picture: syntax::Picture,
    refs: Seq<(u64, syntax::Picture)>,
    opt: EncodeOptions,
    p: int,
)
    requires
        frame::valid(picture),
        reference_error(refs, 0, picture.width, picture.height) is None,
        refs.len() <= 4,
        0 <= p < 3,
    ensures
        packets::lanes_short(final_list(picture, refs, opt, p)),
        used_by_any(picture, refs, opt).len() == refs.len(),
        coded(picture, refs, opt, p).used.len() == refs.len(),
        coded(picture, refs, opt, p).recon.len() == picture.plane(p).len(),
        ({
            let remap = packets::remap_of(used_by_any(picture, refs, opt));
            let list = coded(picture, refs, opt, p).list;
            &&& forall|i: int|
                0 <= i < list.len() ==> writing::serializable(#[trigger] list[i], remap)
            &&& forall|i: int| 0 <= i < remap.len() ==> #[trigger] remap[i] <= 4
        }),
        ({
            let list = final_list(picture, refs, opt, p);
            let most = 263 * syntax::block_count(picture.width, picture.height);
            &&& writing::single_bytes(list).len() <= most
            &&& writing::control_bytes(list).len() <= most
            &&& writing::data_bytes(list).len() <= most
        }),
{
    let used = used_by_any(picture, refs, opt);
    let remap = packets::remap_of(used);
    let (w, h) = (syntax::plane_len(picture.width, p), syntax::plane_len(picture.height, p));
    let all = syntax::planes_of(packets::pictures_of(refs), p);
    let n = syntax::block_count(w, h);
    let state = coded(picture, refs, opt, p);
    let list = final_list(picture, refs, opt, p);
    assert(used.len() == refs.len()) by {
        reveal(used_by_any);
    }
    assert forall|i: int| 0 <= i < remap.len() implies #[trigger] remap[i] <= 4 by {
        packets::lemma_used_list(used, i);
    }
    lemma_plane_ok(picture, refs, p);
    frame::lemma_planes(picture.width, picture.height, p);
    syntax::lemma_block_count(w, h);
    lemma_count(picture.width, picture.height);
    assert(state == planes::coded_plane(picture.plane(p), all, w, h, opt)) by {
        reveal(coded);
    }
    assert(list == writing::remapped_list(state.list, remap)) by {
        reveal(final_list);
    }
    planes::lemma_state_shaped(picture.plane(p), all, w, h, opt, n);
    lemma_payloads(picture.plane(p), all, w, h, opt, n, remap);
    assert forall|k: int| 0 <= k < list.len() implies writing::payload_bytes(#[trigger] list[k]).len()
        <= 262 by {
        assert(writing::bounded(writing::remapped(state.list[k], remap)));
        writing::lemma_payload_len(list[k]);
    }
    writing::lemma_lane_lens(list);
    let (c, r) = (syntax::block_columns(w), syntax::block_columns(h));
    let (c0, r0) = (syntax::block_columns(picture.width), syntax::block_columns(picture.height));
    assert(c * r <= c0 * r0) by (nonlinear_arith)
        requires
            0 <= c <= c0,
            0 <= r <= r0,
    ;
}

// ---------------------------------------------------------------------------------------------
// Laws

/// A quantizer step of one loses nothing: the reconstruction is the picture.
pub proof fn law_frame_lossless(
    picture: syntax::Picture,
    references: Seq<(u64, syntax::Picture)>,
    opt: EncodeOptions,
)
    requires
        encode_error(picture, references, opt) is None,
        opt.qstep == 1,
    ensures
        reconstruction(picture, considered(references, opt), opt) == picture,
{
    let refs = considered(references, opt);
    assert forall|p: int| 0 <= p < 3 implies (#[trigger] coded(picture, refs, opt, p)).recon
        == picture.plane(p) by {
        reveal(coded);
        lemma_plane_ok(picture, refs, p);
        planes::law_plane_lossless(
            picture.plane(p),
            syntax::planes_of(packets::pictures_of(refs), p),
            syntax::plane_len(picture.width, p),
            syntax::plane_len(picture.height, p),
            opt,
        );
    }
    assert(coded(picture, refs, opt, 0).recon == picture.y);
    assert(coded(picture, refs, opt, 1).recon == picture.u);
    assert(coded(picture, refs, opt, 2).recon == picture.v);
}

/// A decoder knows what the packet speaks of: no reference is named twice nor by the frame's own id,
/// every one in use is known as the encoder had it, motion stays within what packets hold, and the
/// size within what the decoder admits.
pub open spec fn known_to(
    frame_id: u64,
    picture: syntax::Picture,
    refs: Seq<(u64, syntax::Picture)>,
    opt: EncodeOptions,
    known: Seq<(u64, syntax::Picture)>,
    bounds: syntax::Bounds,
) -> bool {
    &&& syntax::dimensions_ok(picture.width, picture.height)
    &&& opt.motion_radius <= 31
    &&& forall|i: int, j: int|
        0 <= i < j < refs.len() ==> (#[trigger] refs[i]).0 != (#[trigger] refs[j]).0
    &&& forall|i: int| 0 <= i < refs.len() ==> (#[trigger] refs[i]).0 != frame_id
    &&& forall|i: int|
        0 <= i < refs.len() && #[trigger] used_by_any(picture, refs, opt)[i]
            ==> syntax::find_reference(known, refs[i].0, 0) == Some(refs[i].1)
    &&& bounds.expected matches Some((ew, eh)) ==> ew == picture.width && eh == picture.height
    &&& picture.width * picture.height <= bounds.max_pixels
}

/// A decoder can take the packet: it knows what the packet speaks of, and the tokens of each plane
/// are within its ceiling.
pub open spec fn admitted(
    frame_id: u64,
    picture: syntax::Picture,
    refs: Seq<(u64, syntax::Picture)>,
    opt: EncodeOptions,
    known: Seq<(u64, syntax::Picture)>,
    bounds: syntax::Bounds,
) -> bool {
    &&& known_to(frame_id, picture, refs, opt, known, bounds)
    &&& forall|p: int|
        0 <= p < 3 ==> packets::tokens_fit(
            #[trigger] final_list(picture, refs, opt, p),
            bounds.max_entropy,
            packing(),
        )
}

/// A ceiling of 263 bytes of tokens per block of the luma plane admits every frame of the size.
pub proof fn law_token_ceiling(
    frame_id: u64,
    picture: syntax::Picture,
    references: Seq<(u64, syntax::Picture)>,
    opt: EncodeOptions,
    known: Seq<(u64, syntax::Picture)>,
    bounds: syntax::Bounds,
)
    requires
        encode_error(picture, references, opt) is None,
        known_to(frame_id, picture, considered(references, opt), opt, known, bounds),
        263 * syntax::block_count(picture.width, picture.height) <= bounds.max_entropy,
    ensures
        admitted(frame_id, picture, considered(references, opt), opt, known, bounds),
{
    let refs = considered(references, opt);
    assert forall|p: int| 0 <= p < 3 implies packets::tokens_fit(
        #[trigger] final_list(picture, refs, opt, p),
        bounds.max_entropy,
        packing(),
    ) by {
        lemma_lanes(picture, refs, opt, p);
    }
}

proof fn lemma_plane_decodes(
    picture: syntax::Picture,
    refs: Seq<(u64, syntax::Picture)>,
    opt: EncodeOptions,
    p: int,
    max: nat,
)
    requires
        frame::valid(picture),
        opt.motion_radius <= 31,
        opt.qstep > 0,
        refs.len() <= 4,
        reference_error(refs, 0, picture.width, picture.height) is None,
        0 <= p < 3,
        packets::tokens_fit(final_list(picture, refs, opt, p), max, packing()),
    ensures
        syntax::decoded_envelope(
            packets::envelope_of(final_list(picture, refs, opt, p), packing()),
            packets::used_pictures(refs, used_by_any(picture, refs, opt)),
            p,
            picture.width,
            picture.height,
            opt.qstep as int,
            max,
        ) == Ok::<Seq<u8>, VideoError>(coded(picture, refs, opt, p).recon),
{
    let used = used_by_any(picture, refs, opt);
    let (w, h) = (syntax::plane_len(picture.width, p), syntax::plane_len(picture.height, p));
    let state = coded(picture, refs, opt, p);
    let list = final_list(picture, refs, opt, p);
    let all = syntax::planes_of(packets::pictures_of(refs), p);
    let q = opt.qstep as int;
    let n = syntax::block_count(w, h);
    assert(state == planes::coded_plane(picture.plane(p), all, w, h, opt)) by {
        reveal(coded);
    }
    assert(list == writing::remapped_list(state.list, packets::remap_of(used))) by {
        reveal(final_list);
    }
    assert(used.len() == refs.len() && forall|i: int|
        0 <= i < refs.len() && #[trigger] state.used[i] ==> used[i]) by {
        reveal(used_by_any);
        assert(p == 0 || p == 1 || p == 2);
    }
    lemma_plane_ok(picture, refs, p);
    syntax::lemma_block_count(w, h);
    planes::lemma_state_shaped(picture.plane(p), all, w, h, opt, n);
    planes::lemma_state_rendered(picture.plane(p), all, w, h, opt, n);
    packets::lemma_remapped_plane(state, used, refs, p, w, h, q);
    lemma_lanes(picture, refs, opt, p);
    lemma_packs();
    packets::lemma_list_decodes(
        list,
        packets::used_pictures(refs, used),
        p,
        picture.width,
        picture.height,
        q,
        max,
        packing(),
    );
}

proof fn lemma_dependencies(
    frame_id: u64,
    picture: syntax::Picture,
    refs: Seq<(u64, syntax::Picture)>,
    opt: EncodeOptions,
    known: Seq<(u64, syntax::Picture)>,
    bounds: syntax::Bounds,
)
    requires
        refs.len() <= 4,
        reference_error(refs, 0, picture.width, picture.height) is None,
        known_to(frame_id, picture, refs, opt, known, bounds),
    ensures
        ({
            let used = used_by_any(picture, refs, opt);
            let ids = packets::dependencies_of(refs, used);
            let pictures = packets::used_pictures(refs, used);
            &&& ids.len() == pictures.len()
            &&& ids.len() <= 4
            &&& ids.no_duplicates()
            &&& !ids.contains(frame_id)
            &&& forall|j: int|
                0 <= j < ids.len() ==> syntax::find_reference(known, #[trigger] ids[j], 0) == Some(
                    pictures[j],
                ) && pictures[j].width == picture.width && pictures[j].height == picture.height
        }),
{
    let used = used_by_any(picture, refs, opt);
    assert(used.len() == refs.len()) by {
        reveal(used_by_any);
    }
    let list = packets::used_list(used, used.len() as int);
    let ids = packets::dependencies_of(refs, used);
    packets::lemma_used_list(used, used.len() as int);
    lemma_references_ok(refs, 0, picture.width, picture.height);
    assert forall|a: int, b: int| 0 <= a < b < ids.len() implies ids[a] != ids[b] by {
        assert(list[a] < list[b]);
        assert(refs[list[a]].0 != refs[list[b]].0);
    }
    assert forall|j: int| 0 <= j < ids.len() implies syntax::find_reference(
        known,
        #[trigger] ids[j],
        0,
    ) == Some(packets::used_pictures(refs, used)[j]) && packets::used_pictures(refs, used)[j].width
        == picture.width && packets::used_pictures(refs, used)[j].height == picture.height && ids[j]
        != frame_id by {
        assert(used[list[j]]);
        assert(frame::valid(refs[list[j]].1));
    }
}

proof fn lemma_planes_decode(
    picture: syntax::Picture,
    refs: Seq<(u64, syntax::Picture)>,
    opt: EncodeOptions,
    max: nat,
)
    requires
        frame::valid(picture),
        opt.motion_radius <= 31,
        opt.qstep > 0,
        refs.len() <= 4,
        reference_error(refs, 0, picture.width, picture.height) is None,
        forall|p: int|
            0 <= p < 3 ==> packets::tokens_fit(
                #[trigger] final_list(picture, refs, opt, p),
                max,
                packing(),
            ),
    ensures
        syntax::decoded_planes(
            seq![
                packets::envelope_of(final_list(picture, refs, opt, 0), packing()),
                packets::envelope_of(final_list(picture, refs, opt, 1), packing()),
                packets::envelope_of(final_list(picture, refs, opt, 2), packing()),
            ],
            packets::used_pictures(refs, used_by_any(picture, refs, opt)),
            picture.width,
            picture.height,
            opt.qstep as int,
            max,
        ) == Ok::<syntax::Picture, VideoError>(reconstruction(picture, refs, opt)),
{
    let (a, b, c) = (
        final_list(picture, refs, opt, 0),
        final_list(picture, refs, opt, 1),
        final_list(picture, refs, opt, 2),
    );
    assert(packets::tokens_fit(a, max, packing()));
    assert(packets::tokens_fit(b, max, packing()));
    assert(packets::tokens_fit(c, max, packing()));
    lemma_plane_decodes(picture, refs, opt, 0, max);
    lemma_plane_decodes(picture, refs, opt, 1, max);
    lemma_plane_decodes(picture, refs, opt, 2, max);
}

/// What the production decoder makes of a packet with these parts.
proof fn lemma_reads(
    packet: Seq<u8>,
    frame_id: u64,
    w: int,
    h: int,
    q: int,
    ids: Seq<u64>,
    pictures: Seq<syntax::Picture>,
    known: Seq<(u64, syntax::Picture)>,
    bounds: syntax::Bounds,
    a: Seq<syntax::Block>,
    b: Seq<syntax::Block>,
    c: Seq<syntax::Block>,
    shown: syntax::Picture,
)
    requires
        packet == packets::header_bytes(frame_id, w, h, q, ids.len() as int) + packets::id_bytes(
            ids,
        ) + packets::envelope_bytes(a, packing()) + packets::envelope_bytes(b, packing())
            + packets::envelope_bytes(c, packing()),
        syntax::dimensions_ok(w, h),
        0 < q < 65536,
        bounds.expected matches Some((ew, eh)) ==> ew == w && eh == h,
        w * h <= bounds.max_pixels,
        ids.len() <= 4,
        ids.len() == pictures.len(),
        ids.no_duplicates(),
        !ids.contains(frame_id),
        forall|j: int|
            0 <= j < ids.len() ==> syntax::find_reference(known, #[trigger] ids[j], 0) == Some(
                pictures[j],
            ) && pictures[j].width == w && pictures[j].height == h,
        packets::lanes_short(a),
        packets::lanes_short(b),
        packets::lanes_short(c),
        syntax::decoded_planes(
            seq![
                packets::envelope_of(a, packing()),
                packets::envelope_of(b, packing()),
                packets::envelope_of(c, packing()),
            ],
            pictures,
            w,
            h,
            q,
            bounds.max_entropy,
        ) == Ok::<syntax::Picture, VideoError>(shown),
    ensures
        syntax::decoded_frame(packet, known, bounds) == Ok::<
            (u64, syntax::Picture, Seq<u64>),
            VideoError,
        >((frame_id, shown, ids)),
{
    lemma_packs();
    packets::lemma_read_packet(
        packet,
        frame_id,
        w,
        h,
        q,
        ids,
        pictures,
        known,
        bounds,
        a,
        b,
        c,
        packing(),
    );
}

/// The parts of a packet, and that their lanes are short.
proof fn lemma_parts(
    frame_id: u64,
    picture: syntax::Picture,
    refs: Seq<(u64, syntax::Picture)>,
    opt: EncodeOptions,
)
    requires
        frame::valid(picture),
        syntax::dimensions_ok(picture.width, picture.height),
        refs.len() <= 4,
        reference_error(refs, 0, picture.width, picture.height) is None,
    ensures
        ({
            let ids = packets::dependencies_of(refs, used_by_any(picture, refs, opt));
            packet_bytes(frame_id, picture, refs, opt) == packets::header_bytes(
                frame_id,
                picture.width,
                picture.height,
                opt.qstep as int,
                ids.len() as int,
            ) + packets::id_bytes(ids) + packets::envelope_bytes(
                final_list(picture, refs, opt, 0),
                packing(),
            ) + packets::envelope_bytes(final_list(picture, refs, opt, 1), packing())
                + packets::envelope_bytes(final_list(picture, refs, opt, 2), packing())
        }),
        packets::lanes_short(final_list(picture, refs, opt, 0)),
        packets::lanes_short(final_list(picture, refs, opt, 1)),
        packets::lanes_short(final_list(picture, refs, opt, 2)),
{
    lemma_lanes(picture, refs, opt, 0);
    lemma_lanes(picture, refs, opt, 1);
    lemma_lanes(picture, refs, opt, 2);
}

#[verifier::spinoff_prover]
#[verifier::rlimit(60)]
proof fn lemma_production_decodes(
    frame_id: u64,
    picture: syntax::Picture,
    refs: Seq<(u64, syntax::Picture)>,
    opt: EncodeOptions,
    known: Seq<(u64, syntax::Picture)>,
    bounds: syntax::Bounds,
)
    requires
        frame::valid(picture),
        opt.qstep > 0,
        refs.len() <= 4,
        reference_error(refs, 0, picture.width, picture.height) is None,
        opt.motion_radius <= 31,
        syntax::dimensions_ok(picture.width, picture.height),
        bounds.expected matches Some((ew, eh)) ==> ew == picture.width && eh == picture.height,
        picture.width * picture.height <= bounds.max_pixels,
        forall|p: int|
            0 <= p < 3 ==> packets::tokens_fit(
                #[trigger] final_list(picture, refs, opt, p),
                bounds.max_entropy,
                packing(),
            ),
        ({
            let used = used_by_any(picture, refs, opt);
            let ids = packets::dependencies_of(refs, used);
            let pictures = packets::used_pictures(refs, used);
            &&& ids.len() == pictures.len()
            &&& ids.len() <= 4
            &&& ids.no_duplicates()
            &&& !ids.contains(frame_id)
            &&& forall|j: int|
                0 <= j < ids.len() ==> syntax::find_reference(known, #[trigger] ids[j], 0) == Some(
                    pictures[j],
                ) && pictures[j].width == picture.width && pictures[j].height == picture.height
        }),
    ensures
        syntax::decoded_frame(packet_bytes(frame_id, picture, refs, opt), known, bounds) == Ok::<
            (u64, syntax::Picture, Seq<u64>),
            VideoError,
        >(
            (
                frame_id,
                reconstruction(picture, refs, opt),
                packets::dependencies_of(refs, used_by_any(picture, refs, opt)),
            ),
        ),
{
    let used = used_by_any(picture, refs, opt);
    let (w, h, q) = (picture.width, picture.height, opt.qstep as int);
    let (a, b, c) = (
        final_list(picture, refs, opt, 0),
        final_list(picture, refs, opt, 1),
        final_list(picture, refs, opt, 2),
    );
    let ids = packets::dependencies_of(refs, used);
    let packet = packet_bytes(frame_id, picture, refs, opt);
    lemma_parts(frame_id, picture, refs, opt);
    lemma_planes_decode(picture, refs, opt, bounds.max_entropy);
    lemma_reads(
        packet,
        frame_id,
        w,
        h,
        q,
        ids,
        packets::used_pictures(refs, used),
        known,
        bounds,
        a,
        b,
        c,
        reconstruction(picture, refs, opt),
    );
}

/// The production decoder gives what the reference encoder reconstructed, under the frame's id
/// and with the dependencies that it reported.
pub proof fn law_production_decodes(
    frame_id: u64,
    picture: syntax::Picture,
    references: Seq<(u64, syntax::Picture)>,
    opt: EncodeOptions,
    known: Seq<(u64, syntax::Picture)>,
    bounds: syntax::Bounds,
)
    requires
        encode_error(picture, references, opt) is None,
        admitted(frame_id, picture, considered(references, opt), opt, known, bounds),
    ensures
        ({
            let refs = considered(references, opt);
            syntax::decoded_frame(packet_bytes(frame_id, picture, refs, opt), known, bounds) == Ok::<
                (u64, syntax::Picture, Seq<u64>),
                VideoError,
            >(
                (
                    frame_id,
                    reconstruction(picture, refs, opt),
                    packets::dependencies_of(refs, used_by_any(picture, refs, opt)),
                ),
            )
        }),
{
    let refs = considered(references, opt);
    lemma_dependencies(frame_id, picture, refs, opt, known, bounds);
    lemma_production_decodes(frame_id, picture, refs, opt, known, bounds);
}

/// Production and reference decoders alike give what the reference encoder reconstructed, under the
/// frame's id and with the dependencies that it reported.
pub proof fn law_frame_decodes(
    frame_id: u64,
    picture: syntax::Picture,
    references: Seq<(u64, syntax::Picture)>,
    opt: EncodeOptions,
    known: Seq<(u64, syntax::Picture)>,
    bounds: syntax::Bounds,
)
    requires
        encode_error(picture, references, opt) is None,
        admitted(frame_id, picture, considered(references, opt), opt, known, bounds),
        bounds.max_entropy <= 8_388_608,
    ensures
        ({
            let refs = considered(references, opt);
            let shown = Ok::<(u64, syntax::Picture, Seq<u64>), VideoError>(
                (
                    frame_id,
                    reconstruction(picture, refs, opt),
                    packets::dependencies_of(refs, used_by_any(picture, refs, opt)),
                ),
            );
            let packet = packet_bytes(frame_id, picture, refs, opt);
            &&& syntax::decoded_frame(packet, known, bounds) == shown
            &&& reference::video_decoder::decoded_frame(packet, known) == shown
        }),
{
    let refs = considered(references, opt);
    law_production_decodes(frame_id, picture, references, opt, known, bounds);
    reference::video_decoder::law_agrees_with_production(
        packet_bytes(frame_id, picture, refs, opt),
        known,
        bounds,
    );
}

// ---------------------------------------------------------------------------------------------
// Encoding

/// Encodes plane `p`.
fn encode_one_plane(frame: &Frame420, refs: &Vec<&Frame420>, p: usize, opt: EncodeOptions) -> (r: (
    Vec<BlockRec>,
    Vec<u8>,
    Vec<bool>,
))
    requires
        p < 3,
        planes::plane_ok(
            frame.picture().plane(p as int),
            syntax::planes_of(frame::pictures(refs@), p as int),
            syntax::plane_len(frame.width as int, p as int),
            syntax::plane_len(frame.height as int, p as int),
        ),
    ensures
        ({
            let state = planes::coded_plane(
                frame.picture().plane(p as int),
                syntax::planes_of(frame::pictures(refs@), p as int),
                syntax::plane_len(frame.width as int, p as int),
                syntax::plane_len(frame.height as int, p as int),
                opt,
            );
            &&& writing::models(r.0@) == state.list
            &&& r.1@ == state.recon
            &&& r.2@ == state.used
        }),
{
    let (w, h): (usize, usize) = if p == 0 {
        (frame.width as usize, frame.height as usize)
    } else {
        (frame.width as usize / 2, frame.height as usize / 2)
    };
    let rplanes: Vec<&[u8]> = frame::planes(refs, p);
    encode_plane(plane(frame, p), rplanes.as_slice(), w, h, opt)
}

/// Picks the references that are considered and validates them.
fn pick_references<'a>(
    frame: &Frame420,
    references: &[(u64, &'a Frame420)],
    opt: EncodeOptions,
) -> (r: Result<(Vec<u64>, Vec<&'a Frame420>), VideoError>)
    ensures
        ({
            let refs = considered(frame::numbered(references@), opt);
            let error = reference_error(refs, 0, frame.width as int, frame.height as int);
            match r {
                Ok((ids, frames)) => {
                    &&& error is None
                    &&& ids@.len() == refs.len()
                    &&& refs.len() <= 4
                    &&& forall|i: int| 0 <= i < refs.len() ==> #[trigger] ids@[i] == refs[i].0
                    &&& frame::pictures(frames@) == packets::pictures_of(refs)
                },
                Err(e) => error == Some(e),
            }
        }),
{
    let most: usize = if opt.max_refs < 4 {
        opt.max_refs as usize
    } else {
        4
    };
    let count: usize = if references.len() < most {
        references.len()
    } else {
        most
    };
    let ghost refs = considered(frame::numbered(references@), opt);
    let mut ids: Vec<u64> = Vec::new();
    let mut frames: Vec<&'a Frame420> = Vec::new();
    let mut i: usize = 0;
    while i < count
        invariant
            refs == considered(frame::numbered(references@), opt),
            count == refs.len(),
            count <= references@.len(),
            count <= 4,
            i <= count,
            ids@.len() == i,
            frames@.len() == i,
            forall|j: int| 0 <= j < i ==> #[trigger] ids@[j] == refs[j].0,
            forall|j: int| 0 <= j < i ==> (#[trigger] frames@[j]).picture() == refs[j].1,
            reference_error(refs, 0, frame.width as int, frame.height as int) == reference_error(
                refs,
                i as int,
                frame.width as int,
                frame.height as int,
            ),
        decreases count - i,
    {
        let entry: (u64, &'a Frame420) = references[i];
        assert(refs[i as int] == (entry.0, entry.1.picture()));
        match entry.1.validate() {
            Ok(()) => {},
            Err(e) => {
                return Err(e);
            },
        }
        if entry.1.width != frame.width || entry.1.height != frame.height {
            return Err(VideoError::ReferenceShape);
        }
        ids.push(entry.0);
        frames.push(entry.1);
        i = i + 1;
    }
    assert(frame::pictures(frames@) =~= packets::pictures_of(refs));
    Ok((ids, frames))
}

/// The new number of each reference, and the ids of those in use.
fn renumber(used: &Vec<bool>, ids: &Vec<u64>, Ghost(refs): Ghost<Seq<(u64, syntax::Picture)>>) -> (r:
    (Vec<usize>, Vec<u64>))
    requires
        used@.len() == ids@.len(),
        used@.len() == refs.len(),
        used@.len() <= 4,
        forall|i: int| 0 <= i < refs.len() ==> #[trigger] ids@[i] == refs[i].0,
    ensures
        r.0@ == packets::remap_of(used@),
        r.1@ == packets::dependencies_of(refs, used@),
        r.1@.len() <= 4,
{
    let mut remap: Vec<usize> = Vec::new();
    let mut named: Vec<u64> = Vec::new();
    let mut i: usize = 0;
    while i < used.len()
        invariant
            used@.len() == ids@.len(),
            used@.len() == refs.len(),
            used@.len() <= 4,
            forall|i: int| 0 <= i < refs.len() ==> #[trigger] ids@[i] == refs[i].0,
            i <= used@.len(),
            remap@ == packets::remap_of(used@).take(i as int),
            named@.len() == packets::used_list(used@, i as int).len(),
            named@.len() <= i,
            forall|j: int|
                0 <= j < named@.len() ==> #[trigger] named@[j] == refs[packets::used_list(
                    used@,
                    i as int,
                )[j]].0,
        decreases used@.len() - i,
    {
        proof {
            assert(packets::remap_of(used@).take(i + 1) =~= packets::remap_of(used@).take(
                i as int,
            ).push(packets::remap_of(used@)[i as int]));
        }
        if used[i] {
            remap.push(named.len());
            named.push(ids[i]);
        } else {
            remap.push(0);
        }
        i = i + 1;
    }
    assert(packets::remap_of(used@).take(i as int) =~= packets::remap_of(used@));
    assert(named@ =~= packets::dependencies_of(refs, used@));
    (remap, named)
}

/// Appends the envelope of a plane.
fn put_envelope(list: &Vec<BlockRec>, remap: &Vec<usize>, out: &mut Vec<u8>)
    requires
        forall|k: int|
            0 <= k < list@.len() ==> writing::serializable((#[trigger] list@[k]).model(), remap@),
        packets::lanes_short(writing::remapped_list(writing::models(list@), remap@)),
    ensures
        final(out)@ == old(out)@ + packets::envelope_bytes(
            writing::remapped_list(writing::models(list@), remap@),
            packing(),
        ),
{
    let ghost all = writing::remapped_list(writing::models(list@), remap@);
    proof {
        reveal(packets::envelope_bytes);
        reference::bitstream::law_blocks_exchange(
            writing::single_bytes(all),
            writing::single_bytes(all).len(),
            false,
        );
        reference::bitstream::law_blocks_exchange(
            writing::control_bytes(all),
            writing::control_bytes(all).len(),
            false,
        );
        reference::bitstream::law_blocks_exchange(
            writing::data_bytes(all),
            writing::data_bytes(all).len(),
            false,
        );
    }
    let single: Vec<u8> = match serialize_blocks(list, remap, BlockLayout::Single) {
        SerializedBlocks::Single(tokens) => entropy_compress(&tokens),
        SerializedBlocks::Split { control, data } => Vec::new(),
    };
    let (control, data): (Vec<u8>, Vec<u8>) = match serialize_blocks(
        list,
        remap,
        BlockLayout::Split,
    ) {
        SerializedBlocks::Single(tokens) => (Vec::new(), Vec::new()),
        SerializedBlocks::Split { control, data } => (
            entropy_compress(&control),
            entropy_compress(&data),
        ),
    };
    put_shorter(&single, &control, &data, out);
}

/// What encoding gives.
pub open spec fn encode_result(
    frame_id: u64,
    picture: syntax::Picture,
    references: Seq<(u64, syntax::Picture)>,
    opt: EncodeOptions,
    r: Result<EncodedFrame, VideoError>,
) -> bool {
    let refs = considered(references, opt);
    match r {
        Ok(encoded) => {
            &&& encode_error(picture, references, opt) is None
            &&& encoded.packet@ == packet_bytes(frame_id, picture, refs, opt)
            &&& encoded.reconstructed.picture() == reconstruction(picture, refs, opt)
            &&& encoded.dependencies@ == packets::dependencies_of(
                refs,
                used_by_any(picture, refs, opt),
            )
        },
        Err(e) => encode_error(picture, references, opt) == Some(e),
    }
}

/// Encodes one frame using the supplied reconstructed reference pictures.
#[verifier::rlimit(60)]
pub fn encode(
    frame_id: u64,
    frame: &Frame420,
    references: &[(u64, &Frame420)],
    opt: EncodeOptions,
) -> (r: Result<EncodedFrame, VideoError>)
    ensures
        encode_result(frame_id, frame.picture(), frame::numbered(references@), opt, r),
{
    match frame.validate() {
        Ok(()) => {},
        Err(e) => {
            return Err(e);
        },
    }
    if opt.qstep == 0 {
        return Err(VideoError::BadQuantizer);
    }
    let (ids, frames): (Vec<u64>, Vec<&Frame420>) = match pick_references(frame, references, opt) {
        Ok(picked) => picked,
        Err(e) => {
            return Err(e);
        },
    };
    let ghost picture = frame.picture();
    let ghost refs = considered(frame::numbered(references@), opt);
    proof {
        lemma_plane_ok(picture, refs, 0);
        lemma_plane_ok(picture, refs, 1);
        lemma_plane_ok(picture, refs, 2);
        lemma_lanes(picture, refs, opt, 0);
        lemma_lanes(picture, refs, opt, 1);
        lemma_lanes(picture, refs, opt, 2);
        reveal(coded);
    }
    let (list0, y, used0): (Vec<BlockRec>, Vec<u8>, Vec<bool>) = encode_one_plane(
        frame,
        &frames,
        0,
        opt,
    );
    let (list1, u, used1): (Vec<BlockRec>, Vec<u8>, Vec<bool>) = encode_one_plane(
        frame,
        &frames,
        1,
        opt,
    );
    let (list2, v, used2): (Vec<BlockRec>, Vec<u8>, Vec<bool>) = encode_one_plane(
        frame,
        &frames,
        2,
        opt,
    );
    let used: Vec<bool> = either(&used0, &used1, &used2);
    proof {
        reveal(used_by_any);
        assert(used@ =~= used_by_any(picture, refs, opt));
    }
    let (remap, dependencies): (Vec<usize>, Vec<u64>) = renumber(&used, &ids, Ghost(refs));
    proof {
        reveal(final_list);
        assert forall|k: int| 0 <= k < list0@.len() implies writing::serializable(
            (#[trigger] list0@[k]).model(),
            remap@,
        ) by {
            assert(writing::models(list0@)[k] == list0@[k].model());
        }
        assert forall|k: int| 0 <= k < list1@.len() implies writing::serializable(
            (#[trigger] list1@[k]).model(),
            remap@,
        ) by {
            assert(writing::models(list1@)[k] == list1@[k].model());
        }
        assert forall|k: int| 0 <= k < list2@.len() implies writing::serializable(
            (#[trigger] list2@[k]).model(),
            remap@,
        ) by {
            assert(writing::models(list2@)[k] == list2@[k].model());
        }
    }
    let mut packet: Vec<u8> = Vec::new();
    put_header(
        frame_id,
        frame.width % 65536,
        frame.height % 65536,
        opt.qstep,
        &dependencies,
        &mut packet,
    );
    put_envelope(&list0, &remap, &mut packet);
    put_envelope(&list1, &remap, &mut packet);
    put_envelope(&list2, &remap, &mut packet);
    Ok(
        EncodedFrame {
            packet,
            reconstructed: Frame420 { width: frame.width, height: frame.height, y, u, v },
            dependencies,
        },
    )
}

} // verus!
