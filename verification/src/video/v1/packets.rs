//! ALV1 frame packets as an encoder writes them.
use crate::bitstream;
use crate::bitstream::v1::entropy_compress;
use crate::bytes;
use crate::bytes::{put_slice, put_u16_le, put_u32_le, put_u64_le};
use crate::kernels::KernelSet;
use crate::video::v1::blocks;
use crate::video::v1::blocks::BlockRec;
use crate::video::v1::choice;
use crate::video::v1::decoder;
use crate::video::v1::decoder::obtain_frame;
use crate::video::v1::encoder;
use crate::video::v1::encoder::encode_plane;
use crate::video::v1::frame::Frame420;
use crate::video::v1::prediction;
use crate::video::v1::syntax;
use crate::video::v1::writing;
use crate::video::v1::writing::{serialize_blocks, BlockLayout, SerializedBlocks};
use crate::video::v1::{EncodeOptions, EncodedFrame, VideoError};
use vstd::prelude::*;

verus! {

// ---------------------------------------------------------------------------------------------
// What is refused

/// The references that an encoder considers.
pub open spec fn considered(references: Seq<(u64, syntax::Picture)>, opt: EncodeOptions) -> Seq<
    (u64, syntax::Picture),
> {
    let most = if opt.max_refs < 4 {
        opt.max_refs as int
    } else {
        4
    };
    if references.len() < most {
        references
    } else {
        references.take(most)
    }
}

/// Some entry before `i` has this id.
pub open spec fn seen_before(refs: Seq<(u64, syntax::Picture)>, i: int, id: u64) -> bool {
    exists|j: int| 0 <= j < i && #[trigger] refs[j].0 == id
}

/// Why the references from `i` on are refused, if they are.
pub open spec fn reference_error(
    refs: Seq<(u64, syntax::Picture)>,
    i: int,
    frame_id: u64,
    w: int,
    h: int,
) -> Option<VideoError>
    decreases refs.len() - i,
{
    if i < 0 || i >= refs.len() {
        None
    } else if refs[i].0 == frame_id || seen_before(refs, i, refs[i].0) {
        Some(VideoError::BadHeader)
    } else if !syntax::dimensions_ok(refs[i].1.width, refs[i].1.height) {
        Some(VideoError::BadDimensions)
    } else if !refs[i].1.sized() {
        Some(VideoError::PlaneLength)
    } else if refs[i].1.width != w || refs[i].1.height != h {
        Some(VideoError::ReferenceShape)
    } else {
        reference_error(refs, i + 1, frame_id, w, h)
    }
}

/// Why a frame is refused, if it is.
pub open spec fn encode_error(
    frame_id: u64,
    picture: syntax::Picture,
    references: Seq<(u64, syntax::Picture)>,
    opt: EncodeOptions,
) -> Option<VideoError> {
    if !syntax::dimensions_ok(picture.width, picture.height) {
        Some(VideoError::BadDimensions)
    } else if !picture.sized() {
        Some(VideoError::PlaneLength)
    } else if opt.qstep == 0 {
        Some(VideoError::BadQuantizer)
    } else if opt.motion_radius > 32 {
        Some(VideoError::BadHeader)
    } else {
        reference_error(considered(references, opt), 0, frame_id, picture.width, picture.height)
    }
}

/// The pictures of numbered references.
pub open spec fn pictures_of(refs: Seq<(u64, syntax::Picture)>) -> Seq<syntax::Picture> {
    Seq::new(refs.len(), |i: int| refs[i].1)
}

/// The coding of plane `p`.
#[verifier::opaque]
pub open spec fn coded(
    picture: syntax::Picture,
    refs: Seq<(u64, syntax::Picture)>,
    opt: EncodeOptions,
    p: int,
) -> encoder::PlaneState {
    encoder::coded_plane(
        picture.plane(p),
        syntax::planes_of(pictures_of(refs), p),
        syntax::plane_len(picture.width, p),
        syntax::plane_len(picture.height, p),
        opt,
    )
}

/// Which references any plane uses.
#[verifier::opaque]
pub open spec fn used_by_any(
    picture: syntax::Picture,
    refs: Seq<(u64, syntax::Picture)>,
    opt: EncodeOptions,
) -> Seq<bool> {
    Seq::new(
        refs.len(),
        |i: int|
            coded(picture, refs, opt, 0).used[i] || coded(picture, refs, opt, 1).used[i] || coded(
                picture,
                refs,
                opt,
                2,
            ).used[i],
    )
}

/// The numbers below `n` of the references in use, in order.
pub open spec fn used_list(used: Seq<bool>, n: int) -> Seq<int>
    decreases n,
{
    if n <= 0 {
        Seq::empty()
    } else if used[n - 1] {
        used_list(used, n - 1).push(n - 1)
    } else {
        used_list(used, n - 1)
    }
}

/// The place of each reference among those in use.
pub open spec fn remap_of(used: Seq<bool>) -> Seq<usize> {
    Seq::new(
        used.len(),
        |i: int|
            if used[i] {
                used_list(used, i).len() as usize
            } else {
                0
            },
    )
}

/// The ids of the references in use.
pub open spec fn dependencies_of(refs: Seq<(u64, syntax::Picture)>, used: Seq<bool>) -> Seq<u64> {
    let list = used_list(used, used.len() as int);
    Seq::new(list.len(), |i: int| refs[list[i]].0)
}

/// A chunk: its length in four bytes, then its bytes.
pub open spec fn chunk(s: Seq<u8>) -> Seq<u8> {
    bytes::le_bytes(s.len() as int, 4) + s
}

/// How production packs a lane.
pub open spec fn packing() -> spec_fn(Seq<u8>) -> Seq<u8> {
    |s: Seq<u8>| bitstream::syntax::compressed(s)
}

/// Lanes packed so are no longer than they need be, and every decoder unpacks them.
#[verifier::opaque]
pub open spec fn packs(pack: spec_fn(Seq<u8>) -> Seq<u8>) -> bool {
    forall|s: Seq<u8>|
        s.len() <= u32::MAX ==> (#[trigger] pack(s)).len() <= s.len() + 5 && forall|max: nat|
            s.len() <= max ==> #[trigger] bitstream::syntax::decompressed(pack(s), max, false)
                == Ok::<Seq<u8>, bitstream::v1::BitstreamError>(s)
}

pub proof fn lemma_packs()
    ensures
        packs(packing()),
{
    reveal(packs);
    assert forall|s: Seq<u8>| s.len() <= u32::MAX implies (#[trigger] packing()(s)).len() <= s.len()
        + 5 && forall|max: nat|
        s.len() <= max ==> #[trigger] bitstream::syntax::decompressed(packing()(s), max, false)
            == Ok::<Seq<u8>, bitstream::v1::BitstreamError>(s) by {
        bitstream::syntax::law_entropy_round_trip(s, s.len(), false);
        assert forall|max: nat| s.len() <= max implies #[trigger] bitstream::syntax::decompressed(
            packing()(s),
            max,
            false,
        ) == Ok::<Seq<u8>, bitstream::v1::BitstreamError>(s) by {
            bitstream::syntax::law_entropy_round_trip(s, max, false);
        }
    }
}

/// Whether one lane takes no more bytes than two.
pub open spec fn single_wins(list: Seq<syntax::Block>, pack: spec_fn(Seq<u8>) -> Seq<u8>) -> bool {
    4 + pack(writing::single_bytes(list)).len() <= 8
        + pack(writing::control_bytes(list)).len()
        + pack(writing::data_bytes(list)).len()
}

/// The envelope of a plane: the layout that takes fewer bytes.
#[verifier::opaque]
pub open spec fn envelope_bytes(list: Seq<syntax::Block>, pack: spec_fn(Seq<u8>) -> Seq<u8>) -> Seq<u8> {
    if single_wins(list, pack) {
        seq![0u8] + chunk(pack(writing::single_bytes(list)))
    } else {
        seq![1u8] + chunk(pack(writing::control_bytes(list))) + chunk(
            pack(writing::data_bytes(list)),
        )
    }
}

/// Ids, eight bytes each.
pub open spec fn id_bytes(ids: Seq<u64>) -> Seq<u8>
    decreases ids.len(),
{
    if ids.len() == 0 {
        Seq::empty()
    } else {
        id_bytes(ids.drop_last()) + bytes::le_bytes(ids.last() as int, 8)
    }
}

/// The first 20 bytes of a packet.
pub open spec fn header_bytes(frame_id: u64, w: int, h: int, q: int, count: int) -> Seq<u8> {
    syntax::magic() + bytes::le_bytes(frame_id as int, 8) + bytes::le_bytes(w, 2) + bytes::le_bytes(
        h,
        2,
    ) + bytes::le_bytes(q, 2) + seq![count as u8, 1u8]
}

/// The blocks of plane `p` with references numbered as the packet lists them.
#[verifier::opaque]
pub open spec fn final_list(
    picture: syntax::Picture,
    refs: Seq<(u64, syntax::Picture)>,
    opt: EncodeOptions,
    p: int,
) -> Seq<syntax::Block> {
    writing::remapped_list(
        coded(picture, refs, opt, p).list,
        remap_of(used_by_any(picture, refs, opt)),
    )
}

/// The packet of a frame.
pub open spec fn packet_bytes(
    frame_id: u64,
    picture: syntax::Picture,
    refs: Seq<(u64, syntax::Picture)>,
    opt: EncodeOptions,
) -> Seq<u8> {
    let ids = dependencies_of(refs, used_by_any(picture, refs, opt));
    header_bytes(frame_id, picture.width, picture.height, opt.qstep as int, ids.len() as int)
        + id_bytes(ids) + envelope_bytes(final_list(picture, refs, opt, 0), packing()) + envelope_bytes(
        final_list(picture, refs, opt, 1), packing(),
    ) + envelope_bytes(final_list(picture, refs, opt, 2), packing())
}

/// What a decoder will show for the packet.
pub open spec fn reconstruction(
    picture: syntax::Picture,
    refs: Seq<(u64, syntax::Picture)>,
    opt: EncodeOptions,
) -> syntax::Picture {
    syntax::Picture {
        width: picture.width,
        height: picture.height,
        y: coded(picture, refs, opt, 0).recon,
        u: coded(picture, refs, opt, 1).recon,
        v: coded(picture, refs, opt, 2).recon,
    }
}

/// The tokens of a plane are not too long for a decoder with this limit.
pub open spec fn tokens_fit(list: Seq<syntax::Block>, max: nat, pack: spec_fn(Seq<u8>) -> Seq<u8>) -> bool {
    if single_wins(list, pack) {
        writing::single_bytes(list).len() <= max
    } else {
        writing::control_bytes(list).len() <= max && writing::data_bytes(list).len() <= max
    }
}

pub proof fn lemma_references_ok(
    refs: Seq<(u64, syntax::Picture)>,
    i: int,
    frame_id: u64,
    w: int,
    h: int,
)
    requires
        reference_error(refs, i, frame_id, w, h) is None,
        0 <= i <= refs.len(),
    ensures
        forall|j: int|
            i <= j < refs.len() ==> {
                &&& (#[trigger] refs[j]).1.valid()
                &&& refs[j].1.width == w
                &&& refs[j].1.height == h
                &&& refs[j].0 != frame_id
                &&& !seen_before(refs, j, refs[j].0)
            },
    decreases refs.len() - i,
{
    if i < refs.len() {
        lemma_references_ok(refs, i + 1, frame_id, w, h);
    }
}

/// What an accepted frame and its references can be relied on for.
pub proof fn lemma_accepted(
    frame_id: u64,
    picture: syntax::Picture,
    refs: Seq<(u64, syntax::Picture)>,
    opt: EncodeOptions,
    p: int,
)
    requires
        picture.valid(),
        opt.motion_radius <= 32,
        refs.len() <= 4,
        reference_error(refs, 0, frame_id, picture.width, picture.height) is None,
        0 <= p < 3,
    ensures
        prediction::plane_fits(
            syntax::plane_len(picture.width, p),
            syntax::plane_len(picture.height, p),
        ),
        encoder::plane_ok(
            picture.plane(p),
            syntax::planes_of(pictures_of(refs), p),
            syntax::plane_len(picture.width, p),
            syntax::plane_len(picture.height, p),
            opt,
        ),
{
    let (w, h) = (picture.width, picture.height);
    decoder::lemma_chroma_size(w, h);
    prediction::lemma_plane_size(syntax::plane_len(w, p), syntax::plane_len(h, p));
    lemma_references_ok(refs, 0, frame_id, w, h);
    let planes = syntax::planes_of(pictures_of(refs), p);
    assert forall|i: int| 0 <= i < planes.len() implies #[trigger] planes[i].len()
        == syntax::plane_len(w, p) * syntax::plane_len(h, p) by {
        assert(refs[i].1.valid());
    }
}

// ---------------------------------------------------------------------------------------------
// References in use

pub proof fn lemma_used_list(used: Seq<bool>, n: int)
    requires
        0 <= n <= used.len(),
    ensures
        used_list(used, n).len() <= n,
        forall|j: int|
            0 <= j < used_list(used, n).len() ==> 0 <= #[trigger] used_list(used, n)[j] < n
                && used[used_list(used, n)[j]],
        forall|a: int, b: int|
            0 <= a < b < used_list(used, n).len() ==> #[trigger] used_list(used, n)[a]
                < #[trigger] used_list(used, n)[b],
        forall|i: int|
            0 <= i < n && #[trigger] used[i] ==> used_list(used, i).len() < used_list(used, n).len()
                && used_list(used, n)[used_list(used, i).len() as int] == i,
    decreases n,
{
    if n > 0 {
        lemma_used_list(used, n - 1);
    }
}

/// The pictures in use, in the order of the packet.
pub open spec fn used_pictures(refs: Seq<(u64, syntax::Picture)>, used: Seq<bool>) -> Seq<
    syntax::Picture,
> {
    let list = used_list(used, used.len() as int);
    Seq::new(list.len(), |i: int| refs[list[i]].1)
}

proof fn lemma_remapped_block(
    block: syntax::Block,
    used: Seq<bool>,
    refs: Seq<(u64, syntax::Picture)>,
    p: int,
    plane: Seq<u8>,
    w: int,
    h: int,
    bx: int,
    by: int,
    q: int,
)
    requires
        used.len() == refs.len(),
        refs.len() <= 4,
        encoder::marked_in(used, block),
    ensures
        syntax::with_block(
            plane,
            syntax::planes_of(used_pictures(refs, used), p),
            w,
            h,
            bx,
            by,
            q,
            writing::remapped(block, remap_of(used)),
        ) == syntax::with_block(
            plane,
            syntax::planes_of(pictures_of(refs), p),
            w,
            h,
            bx,
            by,
            q,
            block,
        ),
{
    let fewer = syntax::planes_of(used_pictures(refs, used), p);
    let all = syntax::planes_of(pictures_of(refs), p);
    let other = writing::remapped(block, remap_of(used));
    lemma_used_list(used, used.len() as int);
    if let syntax::Block::Residual { mode, reference, dx, dy, coeff } = block {
        if mode == 3 {
            lemma_used_list(used, reference);
            assert(fewer[remap_of(used)[reference] as int] == all[reference]);
        }
    }
    let f = |x: int, y: int| syntax::block_sample(plane, fewer, w, h, bx, by, q, other, x, y);
    let g = |x: int, y: int| syntax::block_sample(plane, all, w, h, bx, by, q, block, x, y);
    assert(f =~= g);
}

proof fn lemma_remapped_rendered(
    list: Seq<syntax::Block>,
    used: Seq<bool>,
    refs: Seq<(u64, syntax::Picture)>,
    p: int,
    w: int,
    h: int,
    q: int,
    k: int,
)
    requires
        used.len() == refs.len(),
        refs.len() <= 4,
        0 <= k <= list.len(),
        forall|i: int| 0 <= i < k ==> encoder::marked_in(used, #[trigger] list[i]),
    ensures
        writing::rendered(
            writing::remapped_list(list, remap_of(used)),
            k,
            syntax::planes_of(used_pictures(refs, used), p),
            w,
            h,
            q,
        ) == writing::rendered(list, k, syntax::planes_of(pictures_of(refs), p), w, h, q),
    decreases k,
{
    if k > 0 {
        lemma_remapped_rendered(list, used, refs, p, w, h, q, k - 1);
        lemma_remapped_block(
            list[k - 1],
            used,
            refs,
            p,
            writing::rendered(list, k - 1, syntax::planes_of(pictures_of(refs), p), w, h, q),
            w,
            h,
            syntax::block_x(w, k - 1),
            syntax::block_y(w, k - 1),
            q,
        );
    }
}

/// The blocks of a plane, renumbered, can be written and show what the encoder reconstructed.
pub proof fn lemma_remapped_plane(
    state: encoder::PlaneState,
    used: Seq<bool>,
    refs: Seq<(u64, syntax::Picture)>,
    p: int,
    w: int,
    h: int,
    q: int,
)
    requires
        0 < w,
        0 < h,
        used.len() == refs.len(),
        refs.len() <= 4,
        encoder::state_ok(state, refs.len(), w, h, q, syntax::block_count(w, h)),
        state.recon == writing::rendered(
            state.list,
            syntax::block_count(w, h),
            syntax::planes_of(pictures_of(refs), p),
            w,
            h,
            q,
        ),
        forall|i: int| 0 <= i < refs.len() && #[trigger] state.used[i] ==> used[i],
    ensures
        ({
            let list = writing::remapped_list(state.list, remap_of(used));
            &&& used_pictures(refs, used).len() <= 4
            &&& writing::plane_writable(list, used_pictures(refs, used).len(), w, h, q)
            &&& writing::rendered(
                list,
                list.len() as int,
                syntax::planes_of(used_pictures(refs, used), p),
                w,
                h,
                q,
            ) == state.recon
        }),
{
    let list = writing::remapped_list(state.list, remap_of(used));
    let n = syntax::block_count(w, h);
    syntax::lemma_block_count(w, h);
    lemma_used_list(used, used.len() as int);
    assert forall|i: int| 0 <= i < n implies encoder::marked_in(used, #[trigger] state.list[i]) by {
        assert(encoder::marked_in(state.used, state.list[i]));
    }
    assert forall|k: int| 0 <= k < list.len() implies writing::writable(
        #[trigger] list[k],
        used_pictures(refs, used).len(),
        syntax::cut(w, syntax::block_x(w, k)) * syntax::cut(h, syntax::block_y(w, k)),
        q,
    ) by {
        let block = state.list[k];
        assert(encoder::marked_in(used, block));
        if let syntax::Block::Residual { mode, reference, dx, dy, coeff } = block {
            if mode == 3 {
                lemma_used_list(used, reference);
            }
        }
    }
    lemma_remapped_rendered(state.list, used, refs, p, w, h, q, n);
}

/// The blocks of a plane, as the packet holds them, can be written and show what the encoder
/// reconstructed.
proof fn lemma_final_list(
    frame_id: u64,
    picture: syntax::Picture,
    refs: Seq<(u64, syntax::Picture)>,
    opt: EncodeOptions,
    p: int,
)
    requires
        picture.valid(),
        opt.motion_radius <= 32,
        refs.len() <= 4,
        reference_error(refs, 0, frame_id, picture.width, picture.height) is None,
        0 <= p < 3,
    ensures
        ({
            let used = used_by_any(picture, refs, opt);
            let (w, h) = (syntax::plane_len(picture.width, p), syntax::plane_len(picture.height, p));
            let list = final_list(picture, refs, opt, p);
            let q = choice::step_of(opt);
            &&& 0 < w <= 8192
            &&& 0 < h <= 8192
            &&& used.len() == refs.len()
            &&& coded(picture, refs, opt, p).used.len() == refs.len()
            &&& used_pictures(refs, used).len() <= 4
            &&& writing::plane_writable(list, used_pictures(refs, used).len(), w, h, q)
            &&& writing::rendered(
                list,
                list.len() as int,
                syntax::planes_of(used_pictures(refs, used), p),
                w,
                h,
                q,
            ) == coded(picture, refs, opt, p).recon
        }),
{
    let used = used_by_any(picture, refs, opt);
    let (w, h) = (syntax::plane_len(picture.width, p), syntax::plane_len(picture.height, p));
    let state = coded(picture, refs, opt, p);
    let list = final_list(picture, refs, opt, p);
    let planes = syntax::planes_of(pictures_of(refs), p);
    assert(state == encoder::coded_plane(picture.plane(p), planes, w, h, opt)) by {
        reveal(coded);
    }
    assert(list == writing::remapped_list(state.list, remap_of(used))) by {
        reveal(final_list);
    }
    assert(used.len() == refs.len() && forall|i: int|
        0 <= i < refs.len() && #[trigger] state.used[i] ==> used[i]) by {
        reveal(used_by_any);
        assert(p == 0 || p == 1 || p == 2);
    }
    let q = choice::step_of(opt);
    let n = syntax::block_count(w, h);
    lemma_accepted(frame_id, picture, refs, opt, p);
    syntax::lemma_block_count(w, h);
    encoder::lemma_state_ok(picture.plane(p), planes, w, h, opt, n);
    encoder::lemma_state_rendered(picture.plane(p), planes, w, h, opt, n);
    lemma_remapped_plane(state, used, refs, p, w, h, q);
}

// ---------------------------------------------------------------------------------------------
// Reading a packet back

pub proof fn lemma_id_bytes(ids: Seq<u64>)
    ensures
        id_bytes(ids).len() == 8 * ids.len(),
        forall|i: int|
            0 <= i < ids.len() ==> id_bytes(ids).subrange(8 * i, 8 * i + 8) == bytes::le_bytes(
                #[trigger] ids[i] as int,
                8,
            ),
    decreases ids.len(),
{
    if ids.len() > 0 {
        let head = ids.drop_last();
        lemma_id_bytes(head);
        bytes::lemma_le_bytes_len(ids.last() as int, 8);
        assert forall|i: int| 0 <= i < ids.len() implies id_bytes(ids).subrange(8 * i, 8 * i + 8)
            == bytes::le_bytes(#[trigger] ids[i] as int, 8) by {
            if i < head.len() {
                assert(head[i] == ids[i]);
                assert(id_bytes(ids).subrange(8 * i, 8 * i + 8) =~= id_bytes(head).subrange(
                    8 * i,
                    8 * i + 8,
                ));
            } else {
                assert(id_bytes(ids).subrange(8 * i, 8 * i + 8) =~= bytes::le_bytes(
                    ids.last() as int,
                    8,
                ));
            }
        }
    }
}

/// Id number `i` is read back.
proof fn lemma_read_id(input: Seq<u8>, ids: Seq<u64>, i: int)
    requires
        0 <= i < ids.len(),
        20 + 8 * ids.len() <= input.len(),
        input.subrange(20, 20 + 8 * ids.len() as int) == id_bytes(ids),
    ensures
        bytes::le_value(input.subrange(20 + 8 * i, 20 + 8 * i + 8)) as u64 == ids[i],
{
    lemma_id_bytes(ids);
    bytes::lemma_le_bounds();
    bytes::lemma_le_write_read(ids[i] as int, 8);
    let pos = 20 + 8 * i;
    assert(input.subrange(pos, pos + 8) =~= id_bytes(ids).subrange(8 * i, 8 * i + 8));
}

#[verifier::spinoff_prover]
#[verifier::rlimit(30)]
proof fn lemma_read_references(
    input: Seq<u8>,
    ids: Seq<u64>,
    pictures: Seq<syntax::Picture>,
    i: int,
    frame_id: u64,
    w: int,
    h: int,
    known: Seq<(u64, syntax::Picture)>,
)
    requires
        0 <= i <= ids.len(),
        ids.len() == pictures.len(),
        20 + 8 * ids.len() <= input.len(),
        input.subrange(20, 20 + 8 * ids.len() as int) == id_bytes(ids),
        ids.no_duplicates(),
        !ids.contains(frame_id),
        forall|j: int|
            0 <= j < ids.len() ==> syntax::find_reference(known, #[trigger] ids[j], 0) == Some(
                pictures[j],
            ) && pictures[j].width == w && pictures[j].height == h,
    ensures
        syntax::read_references(
            input,
            20 + 8 * i,
            (ids.len() - i) as nat,
            frame_id,
            w,
            h,
            known,
            ids.take(i),
            pictures.take(i),
        ) == Ok::<(Seq<u64>, Seq<syntax::Picture>, int), VideoError>(
            (ids, pictures, 20 + 8 * ids.len() as int),
        ),
    decreases ids.len() - i,
{
    if i == ids.len() {
        assert(ids.take(i) =~= ids);
        assert(pictures.take(i) =~= pictures);
    } else {
        lemma_read_id(input, ids, i);
        assert(!ids.take(i).contains(ids[i])) by {
            if ids.take(i).contains(ids[i]) {
                let j = choose|j: int| 0 <= j < i && ids.take(i)[j] == ids[i];
                assert(ids[j] == ids[i]);
            }
        }
        assert(ids.take(i).push(ids[i]) =~= ids.take(i + 1));
        assert(pictures.take(i).push(pictures[i]) =~= pictures.take(i + 1));
        lemma_read_references(input, ids, pictures, i + 1, frame_id, w, h, known);
    }
}

proof fn lemma_read_chunk(input: Seq<u8>, pos: int, s: Seq<u8>)
    requires
        0 <= pos,
        s.len() <= u32::MAX,
        pos + chunk(s).len() <= input.len(),
        input.subrange(pos, pos + chunk(s).len()) == chunk(s),
    ensures
        syntax::read_chunk(input, pos) == Ok::<(Seq<u8>, int), VideoError>(
            (s, pos + chunk(s).len()),
        ),
{
    bytes::lemma_le_bounds();
    bytes::lemma_le_write_read(s.len() as int, 4);
    let whole = input.subrange(pos, pos + chunk(s).len());
    assert(input.subrange(pos, pos + 4) =~= whole.subrange(0, 4));
    assert(whole.subrange(0, 4) =~= bytes::le_bytes(s.len() as int, 4));
    assert(input.subrange(pos + 4, pos + 4 + s.len()) =~= whole.subrange(4, 4 + s.len() as int));
    assert(whole.subrange(4, 4 + s.len() as int) =~= s);
}

/// The envelope that holds a list of blocks.
#[verifier::opaque]
pub open spec fn envelope_of(list: Seq<syntax::Block>, pack: spec_fn(Seq<u8>) -> Seq<u8>) -> syntax::Envelope {
    if single_wins(list, pack) {
        syntax::Envelope::Single(pack(writing::single_bytes(list)))
    } else {
        syntax::Envelope::Split(
            pack(writing::control_bytes(list)),
            pack(writing::data_bytes(list)),
        )
    }
}

/// The lanes of a list are short enough to be compressed.
pub open spec fn lanes_short(list: Seq<syntax::Block>) -> bool {
    &&& writing::single_bytes(list).len() <= 1_200_000_000
    &&& writing::control_bytes(list).len() <= 1_200_000_000
    &&& writing::data_bytes(list).len() <= 1_200_000_000
}

proof fn lemma_read_single(input: Seq<u8>, pos: int, s: Seq<u8>)
    requires
        0 <= pos,
        s.len() <= u32::MAX,
        pos + 1 + chunk(s).len() <= input.len(),
        input.subrange(pos, pos + 1 + chunk(s).len()) == seq![0u8] + chunk(s),
    ensures
        syntax::read_envelope(input, pos) == Ok::<(syntax::Envelope, int), VideoError>(
            (syntax::Envelope::Single(s), pos + 1 + chunk(s).len()),
        ),
{
    let whole = input.subrange(pos, pos + 1 + chunk(s).len());
    assert(input[pos] == whole[0]);
    assert(input.subrange(pos + 1, pos + 1 + chunk(s).len()) =~= whole.skip(1));
    assert(whole.skip(1) =~= chunk(s));
    lemma_read_chunk(input, pos + 1, s);
}

proof fn lemma_read_split(input: Seq<u8>, pos: int, c: Seq<u8>, d: Seq<u8>)
    requires
        0 <= pos,
        c.len() <= u32::MAX,
        d.len() <= u32::MAX,
        pos + 1 + chunk(c).len() + chunk(d).len() <= input.len(),
        input.subrange(pos, pos + 1 + chunk(c).len() + chunk(d).len()) == seq![1u8] + chunk(c)
            + chunk(d),
    ensures
        syntax::read_envelope(input, pos) == Ok::<(syntax::Envelope, int), VideoError>(
            (syntax::Envelope::Split(c, d), pos + 1 + chunk(c).len() + chunk(d).len()),
        ),
{
    let (nc, nd) = (chunk(c).len() as int, chunk(d).len() as int);
    let whole = input.subrange(pos, pos + 1 + nc + nd);
    assert(input[pos] == whole[0]);
    assert(input.subrange(pos + 1, pos + 1 + nc) =~= whole.subrange(1, 1 + nc));
    assert(whole.subrange(1, 1 + nc) =~= chunk(c));
    lemma_read_chunk(input, pos + 1, c);
    assert(input.subrange(pos + 1 + nc, pos + 1 + nc + nd) =~= whole.skip(1 + nc));
    assert(whole.skip(1 + nc) =~= chunk(d));
    lemma_read_chunk(input, pos + 1 + nc, d);
}

proof fn lemma_read_envelope(input: Seq<u8>, pos: int, list: Seq<syntax::Block>, pack: spec_fn(Seq<u8>) -> Seq<u8>)
    requires
        0 <= pos,
        packs(pack),
        lanes_short(list),
        pos + envelope_bytes(list, pack).len() <= input.len(),
        input.subrange(pos, pos + envelope_bytes(list, pack).len()) == envelope_bytes(list, pack),
    ensures
        syntax::read_envelope(input, pos) == Ok::<(syntax::Envelope, int), VideoError>(
            (envelope_of(list, pack), pos + envelope_bytes(list, pack).len()),
        ),
{
    reveal(envelope_bytes);
    reveal(envelope_of);
    reveal(packs);
    let (tokens, control, data) = (
        writing::single_bytes(list),
        writing::control_bytes(list),
        writing::data_bytes(list),
    );
    if single_wins(list, pack) {
        lemma_read_single(input, pos, pack(tokens));
    } else {
        lemma_read_split(
            input,
            pos,
            pack(control),
            pack(data),
        );
    }
}

proof fn lemma_opened(list: Seq<syntax::Block>, max: nat, pack: spec_fn(Seq<u8>) -> Seq<u8>)
    requires
        packs(pack),
        lanes_short(list),
        tokens_fit(list, max, pack),
    ensures
        syntax::opened(envelope_of(list, pack), max) == Ok::<syntax::Lanes, VideoError>(
            writing::written(list, !single_wins(list, pack)),
        ),
{
    reveal(envelope_of);
    reveal(packs);
    if single_wins(list, pack) {
    } else {
    }
}

proof fn lemma_read_three(input: Seq<u8>, pos: int, a: Seq<syntax::Block>, b: Seq<syntax::Block>, c: Seq<syntax::Block>, pack: spec_fn(Seq<u8>) -> Seq<u8>)
    requires
        0 <= pos,
        packs(pack),
        lanes_short(a),
        lanes_short(b),
        lanes_short(c),
        pos + (envelope_bytes(a, pack) + envelope_bytes(b, pack) + envelope_bytes(c, pack)).len() <= input.len(),
        input.subrange(
            pos,
            pos + (envelope_bytes(a, pack) + envelope_bytes(b, pack) + envelope_bytes(c, pack)).len(),
        ) == envelope_bytes(a, pack) + envelope_bytes(b, pack) + envelope_bytes(c, pack),
    ensures
        syntax::read_envelopes(input, pos, 3) == Ok::<(Seq<syntax::Envelope>, int), VideoError>(
            (
                seq![envelope_of(a, pack), envelope_of(b, pack), envelope_of(c, pack)],
                pos + (envelope_bytes(a, pack) + envelope_bytes(b, pack) + envelope_bytes(c, pack)).len(),
            ),
        ),
{
    let whole = input.subrange(
        pos,
        pos + (envelope_bytes(a, pack) + envelope_bytes(b, pack) + envelope_bytes(c, pack)).len(),
    );
    let na = envelope_bytes(a, pack).len() as int;
    let nb = envelope_bytes(b, pack).len() as int;
    let nc = envelope_bytes(c, pack).len() as int;
    assert(input.subrange(pos, pos + na) =~= whole.take(na));
    assert(whole.take(na) =~= envelope_bytes(a, pack));
    lemma_read_envelope(input, pos, a, pack);
    assert(input.subrange(pos + na, pos + na + nb) =~= whole.subrange(na, na + nb));
    assert(whole.subrange(na, na + nb) =~= envelope_bytes(b, pack));
    lemma_read_envelope(input, pos + na, b, pack);
    assert(input.subrange(pos + na + nb, pos + na + nb + nc) =~= whole.skip(na + nb));
    assert(whole.skip(na + nb) =~= envelope_bytes(c, pack));
    lemma_read_envelope(input, pos + na + nb, c, pack);
    reveal_with_fuel(syntax::read_envelopes, 4);
    assert(seq![envelope_of(a, pack)] + (seq![envelope_of(b, pack)] + (seq![envelope_of(c, pack)]
        + Seq::<syntax::Envelope>::empty())) =~= seq![
        envelope_of(a, pack),
        envelope_of(b, pack),
        envelope_of(c, pack),
    ]);
}

proof fn lemma_read_header(input: Seq<u8>, frame_id: u64, w: int, h: int, q: int, count: int)
    requires
        20 <= input.len(),
        input.take(20) == header_bytes(frame_id, w, h, q, count),
        0 <= w < 65536,
        0 <= h < 65536,
        0 <= q < 65536,
        0 <= count < 256,
    ensures
        input.take(4) == syntax::magic(),
        bytes::le_value(input.subrange(4, 12)) == frame_id,
        bytes::le_value(input.subrange(12, 14)) == w,
        bytes::le_value(input.subrange(14, 16)) == h,
        bytes::le_value(input.subrange(16, 18)) == q,
        input[18] == count,
        input[19] == 1,
{
    bytes::lemma_le_bounds();
    bytes::lemma_le_write_read(frame_id as int, 8);
    bytes::lemma_le_write_read(w, 2);
    bytes::lemma_le_write_read(h, 2);
    bytes::lemma_le_write_read(q, 2);
    let s = input.take(20);
    assert(input.take(4) =~= s.take(4));
    assert(s.take(4) =~= syntax::magic());
    assert(input.subrange(4, 12) =~= s.subrange(4, 12));
    assert(s.subrange(4, 12) =~= bytes::le_bytes(frame_id as int, 8));
    assert(input.subrange(12, 14) =~= s.subrange(12, 14));
    assert(s.subrange(12, 14) =~= bytes::le_bytes(w, 2));
    assert(input.subrange(14, 16) =~= s.subrange(14, 16));
    assert(s.subrange(14, 16) =~= bytes::le_bytes(h, 2));
    assert(input.subrange(16, 18) =~= s.subrange(16, 18));
    assert(s.subrange(16, 18) =~= bytes::le_bytes(q, 2));
    assert(input[18] == s[18]);
    assert(input[19] == s[19]);
}

// ---------------------------------------------------------------------------------------------
// Laws

/// A decoder with these bounds takes the packet: the size is the one it expects and within its
/// ceiling, and so are the tokens of each plane.
pub open spec fn admitted(
    picture: syntax::Picture,
    refs: Seq<(u64, syntax::Picture)>,
    opt: EncodeOptions,
    bounds: syntax::Bounds,
) -> bool {
    &&& bounds.expected matches Some((ew, eh)) ==> ew == picture.width && eh == picture.height
    &&& picture.width * picture.height <= bounds.max_pixels
    &&& forall|p: int|
        0 <= p < 3 ==> tokens_fit(#[trigger] final_list(picture, refs, opt, p), bounds.max_entropy, packing())
}

/// Every reference in use is known, under its id, as the encoder had it.
pub open spec fn resolves(
    picture: syntax::Picture,
    refs: Seq<(u64, syntax::Picture)>,
    opt: EncodeOptions,
    known: Seq<(u64, syntax::Picture)>,
) -> bool {
    forall|i: int|
        0 <= i < refs.len() && #[trigger] used_by_any(picture, refs, opt)[i]
            ==> syntax::find_reference(known, refs[i].0, 0) == Some(refs[i].1)
}

proof fn lemma_lanes_short(
    frame_id: u64,
    picture: syntax::Picture,
    refs: Seq<(u64, syntax::Picture)>,
    opt: EncodeOptions,
    p: int,
)
    requires
        picture.valid(),
        opt.motion_radius <= 32,
        refs.len() <= 4,
        reference_error(refs, 0, frame_id, picture.width, picture.height) is None,
        0 <= p < 3,
    ensures
        lanes_short(final_list(picture, refs, opt, p)),
        writing::single_bytes(final_list(picture, refs, opt, p)).len() <= 263
            * syntax::block_count(picture.width, picture.height),
        writing::control_bytes(final_list(picture, refs, opt, p)).len() <= 263
            * syntax::block_count(picture.width, picture.height),
        writing::data_bytes(final_list(picture, refs, opt, p)).len() <= 263 * syntax::block_count(
            picture.width,
            picture.height,
        ),
{
    let used = used_by_any(picture, refs, opt);
    let (w, h) = (syntax::plane_len(picture.width, p), syntax::plane_len(picture.height, p));
    lemma_final_list(frame_id, picture, refs, opt, p);
    syntax::lemma_block_count(w, h);
    writing::law_lane_lengths(
        final_list(picture, refs, opt, p),
        used_pictures(refs, used).len(),
        w,
        h,
        choice::step_of(opt),
    );
    let (c, r) = (syntax::block_columns(w), syntax::block_columns(h));
    let (c0, r0) = (syntax::block_columns(picture.width), syntax::block_columns(picture.height));
    assert(c * r <= c0 * r0) by (nonlinear_arith)
        requires
            0 <= c <= c0,
            0 <= r <= r0,
    ;
}

/// A plane decodes from its envelope to what its blocks show.
#[verifier::rlimit(40)]
pub proof fn lemma_list_decodes(
    list: Seq<syntax::Block>,
    pictures: Seq<syntax::Picture>,
    p: int,
    w: int,
    h: int,
    q: int,
    max: nat,
    pack: spec_fn(Seq<u8>) -> Seq<u8>,
)
    requires
        pictures.len() <= 4,
        packs(pack),
        lanes_short(list),
        tokens_fit(list, max, pack),
        0 < syntax::plane_len(w, p),
        0 < syntax::plane_len(h, p),
        writing::plane_writable(
            list,
            pictures.len(),
            syntax::plane_len(w, p),
            syntax::plane_len(h, p),
            q,
        ),
    ensures
        syntax::decoded_envelope(envelope_of(list, pack), pictures, p, w, h, q, max) == Ok::<
            Seq<u8>,
            VideoError,
        >(
            writing::rendered(
                list,
                list.len() as int,
                syntax::planes_of(pictures, p),
                syntax::plane_len(w, p),
                syntax::plane_len(h, p),
                q,
            ),
        ),
{
    let split = !single_wins(list, pack);
    let planes = syntax::planes_of(pictures, p);
    let (pw, ph) = (syntax::plane_len(w, p), syntax::plane_len(h, p));
    let envelope = envelope_of(list, pack);
    assert(syntax::decoded_envelope(envelope, pictures, p, w, h, q, max) == syntax::decoded_plane(
        writing::written(list, split),
        planes,
        pw,
        ph,
        q,
    )) by {
        lemma_opened(list, max, pack);
        reveal(syntax::decoded_envelope);
    }
    writing::law_plane_write_read(list, split, planes, pw, ph, q);
}

proof fn lemma_plane_decodes(
    frame_id: u64,
    picture: syntax::Picture,
    refs: Seq<(u64, syntax::Picture)>,
    opt: EncodeOptions,
    p: int,
    max: nat,
)
    requires
        picture.valid(),
        opt.motion_radius <= 32,
        opt.qstep > 0,
        refs.len() <= 4,
        reference_error(refs, 0, frame_id, picture.width, picture.height) is None,
        0 <= p < 3,
        tokens_fit(final_list(picture, refs, opt, p), max, packing()),
    ensures
        syntax::decoded_envelope(
            envelope_of(final_list(picture, refs, opt, p), packing()),
            used_pictures(refs, used_by_any(picture, refs, opt)),
            p,
            picture.width,
            picture.height,
            opt.qstep as int,
            max,
        ) == Ok::<Seq<u8>, VideoError>(coded(picture, refs, opt, p).recon),
{
    let list = final_list(picture, refs, opt, p);
    let used = used_by_any(picture, refs, opt);
    lemma_lanes_short(frame_id, picture, refs, opt, p);
    lemma_final_list(frame_id, picture, refs, opt, p);
    lemma_packs();
    lemma_list_decodes(
        list,
        used_pictures(refs, used),
        p,
        picture.width,
        picture.height,
        opt.qstep as int,
        max,
        packing(),
    );
}

proof fn lemma_dependencies(
    frame_id: u64,
    picture: syntax::Picture,
    refs: Seq<(u64, syntax::Picture)>,
    opt: EncodeOptions,
    known: Seq<(u64, syntax::Picture)>,
)
    requires
        refs.len() <= 4,
        reference_error(refs, 0, frame_id, picture.width, picture.height) is None,
        resolves(picture, refs, opt, known),
    ensures
        ({
            let used = used_by_any(picture, refs, opt);
            let ids = dependencies_of(refs, used);
            let pictures = used_pictures(refs, used);
            &&& ids.len() == pictures.len()
            &&& ids.len() <= 4
            &&& ids.no_duplicates()
            &&& !ids.contains(frame_id)
            &&& forall|j: int|
                0 <= j < ids.len() ==> syntax::find_reference(known, #[trigger] ids[j], 0) == Some(
                    pictures[j],
                ) && pictures[j].width == picture.width && pictures[j].height == picture.height
        }),
{
    let used = used_by_any(picture, refs, opt);
    assert(used.len() == refs.len()) by {
        reveal(used_by_any);
    }
    let list = used_list(used, used.len() as int);
    let ids = dependencies_of(refs, used);
    lemma_used_list(used, used.len() as int);
    lemma_references_ok(refs, 0, frame_id, picture.width, picture.height);
    assert forall|a: int, b: int| 0 <= a < b < ids.len() implies ids[a] != ids[b] by {
        assert(list[a] < list[b]);
        if ids[a] == ids[b] {
            assert(refs[list[a]].0 == refs[list[b]].0);
            assert(seen_before(refs, list[b], refs[list[b]].0));
        }
    }
    assert forall|j: int| 0 <= j < ids.len() implies syntax::find_reference(
        known,
        #[trigger] ids[j],
        0,
    ) == Some(used_pictures(refs, used)[j]) && used_pictures(refs, used)[j].width == picture.width
        && used_pictures(refs, used)[j].height == picture.height && ids[j] != frame_id by {
        assert(used[list[j]]);
        assert(refs[list[j]].1.valid());
    }
}

proof fn lemma_header_len(frame_id: u64, w: int, h: int, q: int, count: int)
    ensures
        header_bytes(frame_id, w, h, q, count).len() == 20,
{
    bytes::lemma_le_bytes_len(frame_id as int, 8);
    bytes::lemma_le_bytes_len(w, 2);
    bytes::lemma_le_bytes_len(h, 2);
    bytes::lemma_le_bytes_len(q, 2);
}

proof fn lemma_parts(
    input: Seq<u8>,
    header: Seq<u8>,
    ids: Seq<u8>,
    a: Seq<u8>,
    b: Seq<u8>,
    c: Seq<u8>,
)
    requires
        header.len() == 20,
        input == header + ids + a + b + c,
    ensures
        input.len() == 20 + ids.len() + (a + b + c).len(),
        input.take(20) == header,
        input.subrange(20, 20 + ids.len() as int) == ids,
        input.subrange(20 + ids.len() as int, input.len() as int) == a + b + c,
{
    assert(input.take(20) =~= header);
    assert(input.subrange(20, 20 + ids.len() as int) =~= ids);
    assert(input.subrange(20 + ids.len() as int, input.len() as int) =~= a + b + c);
}

/// What reading makes of a packet with this header, these ids and these three lists of blocks.
pub proof fn lemma_read_packet(
    input: Seq<u8>,
    frame_id: u64,
    w: int,
    h: int,
    q: int,
    ids: Seq<u64>,
    pictures: Seq<syntax::Picture>,
    known: Seq<(u64, syntax::Picture)>,
    bounds: syntax::Bounds,
    a: Seq<syntax::Block>,
    b: Seq<syntax::Block>,
    c: Seq<syntax::Block>, pack: spec_fn(Seq<u8>) -> Seq<u8>,
)
    requires
        packs(pack),
        input == header_bytes(frame_id, w, h, q, ids.len() as int) + id_bytes(ids) + envelope_bytes(
            a, pack,
        ) + envelope_bytes(b, pack) + envelope_bytes(c, pack),
        syntax::dimensions_ok(w, h),
        0 < q < 65536,
        bounds.expected matches Some((ew, eh)) ==> ew == w && eh == h,
        w * h <= bounds.max_pixels,
        ids.len() <= 4,
        ids.len() == pictures.len(),
        ids.no_duplicates(),
        !ids.contains(frame_id),
        forall|j: int|
            0 <= j < ids.len() ==> syntax::find_reference(known, #[trigger] ids[j], 0) == Some(
                pictures[j],
            ) && pictures[j].width == w && pictures[j].height == h,
        lanes_short(a),
        lanes_short(b),
        lanes_short(c),
    ensures
        syntax::decoded_frame(input, known, bounds) == (match syntax::decoded_planes(
            seq![envelope_of(a, pack), envelope_of(b, pack), envelope_of(c, pack)],
            pictures,
            w,
            h,
            q,
            bounds.max_entropy,
        ) {
            Err(e) => Err::<(u64, syntax::Picture, Seq<u64>), VideoError>(e),
            Ok(picture) => Ok((frame_id, picture, ids)),
        }),
{
    let header = header_bytes(frame_id, w, h, q, ids.len() as int);
    let tail = envelope_bytes(a, pack) + envelope_bytes(b, pack) + envelope_bytes(c, pack);
    let at = 20 + 8 * ids.len() as int;
    lemma_id_bytes(ids);
    lemma_header_len(frame_id, w, h, q, ids.len() as int);
    lemma_parts(input, header, id_bytes(ids), envelope_bytes(a, pack), envelope_bytes(b, pack), envelope_bytes(c, pack));
    lemma_read_header(input, frame_id, w, h, q, ids.len() as int);
    lemma_read_references(input, ids, pictures, 0, frame_id, w, h, known);
    assert(ids.take(0) =~= Seq::empty());
    assert(pictures.take(0) =~= Seq::empty());
    lemma_read_three(input, at, a, b, c, pack);
}

/// Decoding a packet gives what its encoder reconstructed, under the frame's id and with the
/// dependencies that the encoder reported, wherever the references in use are known.
#[verifier::rlimit(40)]
pub proof fn law_frame_decodes(
    frame_id: u64,
    picture: syntax::Picture,
    references: Seq<(u64, syntax::Picture)>,
    opt: EncodeOptions,
    known: Seq<(u64, syntax::Picture)>,
    bounds: syntax::Bounds,
)
    requires
        encode_error(frame_id, picture, references, opt) is None,
        resolves(picture, considered(references, opt), opt, known),
        admitted(picture, considered(references, opt), opt, bounds),
    ensures
        ({
            let refs = considered(references, opt);
            syntax::decoded_frame(packet_bytes(frame_id, picture, refs, opt), known, bounds) == Ok::<
                (u64, syntax::Picture, Seq<u64>),
                VideoError,
            >(
                (
                    frame_id,
                    reconstruction(picture, refs, opt),
                    dependencies_of(refs, used_by_any(picture, refs, opt)),
                ),
            )
        }),
{
    let refs = considered(references, opt);
    let used = used_by_any(picture, refs, opt);
    lemma_packs();
    lemma_dependencies(frame_id, picture, refs, opt, known);
    lemma_lanes_short(frame_id, picture, refs, opt, 0);
    lemma_lanes_short(frame_id, picture, refs, opt, 1);
    lemma_lanes_short(frame_id, picture, refs, opt, 2);
    let (a, b, c) = (
        final_list(picture, refs, opt, 0),
        final_list(picture, refs, opt, 1),
        final_list(picture, refs, opt, 2),
    );
    lemma_read_packet(
        packet_bytes(frame_id, picture, refs, opt),
        frame_id,
        picture.width,
        picture.height,
        opt.qstep as int,
        dependencies_of(refs, used),
        used_pictures(refs, used),
        known,
        bounds,
        a,
        b,
        c, packing(),
    );
    assert(tokens_fit(a, bounds.max_entropy, packing()));
    assert(tokens_fit(b, bounds.max_entropy, packing()));
    assert(tokens_fit(c, bounds.max_entropy, packing()));
    lemma_plane_decodes(frame_id, picture, refs, opt, 0, bounds.max_entropy);
    lemma_plane_decodes(frame_id, picture, refs, opt, 1, bounds.max_entropy);
    lemma_plane_decodes(frame_id, picture, refs, opt, 2, bounds.max_entropy);
}

/// A quantizer step of one loses nothing: the reconstruction is the picture.
pub proof fn law_frame_lossless(
    frame_id: u64,
    picture: syntax::Picture,
    references: Seq<(u64, syntax::Picture)>,
    opt: EncodeOptions,
)
    requires
        encode_error(frame_id, picture, references, opt) is None,
        opt.qstep == 1,
    ensures
        reconstruction(picture, considered(references, opt), opt) == picture,
{
    let refs = considered(references, opt);
    assert forall|p: int| 0 <= p < 3 implies (#[trigger] coded(picture, refs, opt, p)).recon
        == picture.plane(p) by {
        reveal(coded);
        lemma_accepted(frame_id, picture, refs, opt, p);
        encoder::law_plane_lossless(
            picture.plane(p),
            syntax::planes_of(pictures_of(refs), p),
            syntax::plane_len(picture.width, p),
            syntax::plane_len(picture.height, p),
            opt,
        );
    }
    assert(coded(picture, refs, opt, 0).recon == picture.y);
    assert(coded(picture, refs, opt, 1).recon == picture.u);
    assert(coded(picture, refs, opt, 2).recon == picture.v);
}

/// Whatever references a frame was coded with, its reconstruction is a picture of its size.
pub proof fn law_reconstruction_valid(
    frame_id: u64,
    picture: syntax::Picture,
    references: Seq<(u64, syntax::Picture)>,
    opt: EncodeOptions,
)
    requires
        encode_error(frame_id, picture, references, opt) is None,
    ensures
        reconstruction(picture, considered(references, opt), opt).valid(),
{
    let refs = considered(references, opt);
    decoder::lemma_chroma_size(picture.width, picture.height);
    assert forall|p: int| 0 <= p < 3 implies (#[trigger] coded(picture, refs, opt, p)).recon.len()
        == picture.plane(p).len() by {
        reveal(coded);
        lemma_accepted(frame_id, picture, refs, opt, p);
        let (w, h) = (syntax::plane_len(picture.width, p), syntax::plane_len(picture.height, p));
        syntax::lemma_block_count(w, h);
        encoder::lemma_state_ok(
            picture.plane(p),
            syntax::planes_of(pictures_of(refs), p),
            w,
            h,
            opt,
            syntax::block_count(w, h),
        );
    }
    assert(coded(picture, refs, opt, 0).recon.len() == picture.y.len());
    assert(coded(picture, refs, opt, 1).recon.len() == picture.u.len());
    assert(coded(picture, refs, opt, 2).recon.len() == picture.v.len());
}

/// A ceiling of 263 bytes of tokens per block of the luma plane admits every frame of the size.
pub proof fn law_token_ceiling(
    frame_id: u64,
    picture: syntax::Picture,
    references: Seq<(u64, syntax::Picture)>,
    opt: EncodeOptions,
    bounds: syntax::Bounds,
)
    requires
        encode_error(frame_id, picture, references, opt) is None,
        bounds.expected matches Some((ew, eh)) ==> ew == picture.width && eh == picture.height,
        picture.width * picture.height <= bounds.max_pixels,
        263 * syntax::block_count(picture.width, picture.height) <= bounds.max_entropy,
    ensures
        admitted(picture, considered(references, opt), opt, bounds),
{
    let refs = considered(references, opt);
    assert forall|p: int| 0 <= p < 3 implies tokens_fit(
        #[trigger] final_list(picture, refs, opt, p),
        bounds.max_entropy,
        packing(),
    ) by {
        lemma_lanes_short(frame_id, picture, refs, opt, p);
    }
}

// ---------------------------------------------------------------------------------------------
// Encoding

/// Encodes plane `p`.
fn encode_one_plane(
    p: usize,
    frame: &Frame420,
    refs: &Vec<&Frame420>,
    opt: EncodeOptions,
    kernels: KernelSet,
    recon: &mut [u8],
    Ghost(frame_id): Ghost<u64>,
    Ghost(numbered): Ghost<Seq<(u64, syntax::Picture)>>,
) -> (r: (Vec<BlockRec>, Vec<bool>))
    requires
        p < 3,
        frame.picture().valid(),
        opt.motion_radius <= 32,
        numbered.len() <= 4,
        decoder::pictures(refs@) == pictures_of(numbered),
        reference_error(
            numbered,
            0,
            frame_id,
            frame.picture().width,
            frame.picture().height,
        ) is None,
        old(recon)@.len() == frame.picture().plane(p as int).len(),
    ensures
        ({
            let state = coded(frame.picture(), numbered, opt, p as int);
            &&& writing::models(r.0@) == state.list
            &&& final(recon)@ == state.recon
            &&& r.1@ == state.used
        }),
        final(recon)@.len() == old(recon)@.len(),
{
    proof {
        lemma_accepted(frame_id, frame.picture(), numbered, opt, p as int);
        reveal(coded);
    }
    let (w, h): (usize, usize) = if p == 0 {
        (frame.width as usize, frame.height as usize)
    } else {
        (frame.width as usize / 2, frame.height as usize / 2)
    };
    let rplanes: Vec<&[u8]> = decoder::planes(refs, p);
    encode_plane(decoder::plane(frame, p), rplanes.as_slice(), w, h, opt, kernels, recon)
}

/// Checks the references from the first on.
fn check_references(
    frame_id: u64,
    frame: &Frame420,
    references: &[(u64, &Frame420)],
    count: usize,
) -> (r: Result<(), VideoError>)
    requires
        count <= references@.len(),
    ensures
        ({
            let error = reference_error(
                decoder::numbered(references@).take(count as int),
                0,
                frame_id,
                frame.picture().width,
                frame.picture().height,
            );
            match r {
                Ok(()) => error is None,
                Err(e) => error == Some(e),
            }
        }),
{
    let ghost refs = decoder::numbered(references@).take(count as int);
    let (gw, gh) = (Ghost(frame.picture().width), Ghost(frame.picture().height));
    let mut i: usize = 0;
    while i < count
        invariant
            count <= references@.len(),
            refs == decoder::numbered(references@).take(count as int),
            gw@ == frame.picture().width,
            gh@ == frame.picture().height,
            i <= count,
            reference_error(refs, 0, frame_id, gw@, gh@) == reference_error(
                refs,
                i as int,
                frame_id,
                gw@,
                gh@,
            ),
        decreases count - i,
    {
        let (id, picture): (u64, &Frame420) = references[i];
        assert(refs[i as int] == (id, picture.picture()));
        let mut seen: bool = id == frame_id;
        let mut j: usize = 0;
        while j < i
            invariant
                j <= i <= references@.len(),
                i < count,
                refs == decoder::numbered(references@).take(count as int),
                count <= references@.len(),
                seen == (id == frame_id || exists|k: int|
                    0 <= k < j && #[trigger] refs[k].0 == id),
            decreases i - j,
        {
            assert(refs[j as int].0 == references@[j as int].0);
            if references[j].0 == id {
                seen = true;
            }
            j = j + 1;
        }
        if seen {
            return Err(VideoError::BadHeader);
        }
        match picture.validate() {
            Ok(()) => {},
            Err(e) => {
                return Err(e);
            },
        }
        if picture.width != frame.width || picture.height != frame.height {
            return Err(VideoError::ReferenceShape);
        }
        i = i + 1;
    }
    Ok(())
}

/// Which references any of three planes uses.
pub(crate) fn either(a: &Vec<bool>, b: &Vec<bool>, c: &Vec<bool>) -> (r: Vec<bool>)
    requires
        a@.len() == b@.len(),
        a@.len() == c@.len(),
    ensures
        r@ == Seq::new(a@.len(), |i: int| a@[i] || b@[i] || c@[i]),
{
    let mut r: Vec<bool> = Vec::new();
    let mut i: usize = 0;
    while i < a.len()
        invariant
            a@.len() == b@.len(),
            a@.len() == c@.len(),
            i <= a@.len(),
            r@ == Seq::new(i as nat, |i: int| a@[i] || b@[i] || c@[i]),
        decreases a@.len() - i,
    {
        r.push(a[i] || b[i] || c[i]);
        i = i + 1;
        assert(r@ =~= Seq::new(i as nat, |i: int| a@[i] || b@[i] || c@[i]));
    }
    r
}

/// The new number of each reference, and the ids of those in use.
fn renumber(used: &Vec<bool>, references: &[(u64, &Frame420)]) -> (r: (Vec<usize>, Vec<u64>))
    requires
        used@.len() <= references@.len(),
        used@.len() <= 4,
    ensures
        r.0@ == remap_of(used@),
        r.1@ == dependencies_of(decoder::numbered(references@).take(used@.len() as int), used@),
        r.1@.len() <= 4,
        forall|i: int| 0 <= i < r.0@.len() ==> #[trigger] r.0@[i] <= 4,
{
    let ghost refs = decoder::numbered(references@).take(used@.len() as int);
    let mut remap: Vec<usize> = Vec::new();
    let mut ids: Vec<u64> = Vec::new();
    let mut i: usize = 0;
    while i < used.len()
        invariant
            used@.len() <= references@.len(),
            used@.len() <= 4,
            refs == decoder::numbered(references@).take(used@.len() as int),
            i <= used@.len(),
            remap@ == remap_of(used@).take(i as int),
            forall|j: int| 0 <= j < remap@.len() ==> #[trigger] remap@[j] <= 4,
            ids@.len() == used_list(used@, i as int).len(),
            ids@.len() <= i,
            forall|j: int|
                0 <= j < ids@.len() ==> #[trigger] ids@[j] == refs[used_list(used@, i as int)[j]].0,
        decreases used@.len() - i,
    {
        proof {
            assert(remap_of(used@).take(i + 1) =~= remap_of(used@).take(i as int).push(
                remap_of(used@)[i as int],
            ));
        }
        if used[i] {
            remap.push(ids.len());
            ids.push(references[i].0);
        } else {
            remap.push(0);
        }
        i = i + 1;
    }
    assert(remap_of(used@).take(i as int) =~= remap_of(used@));
    assert(ids@ =~= dependencies_of(refs, used@));
    (remap, ids)
}

proof fn lemma_compressed_short(list: Seq<syntax::Block>)
    requires
        lanes_short(list),
    ensures
        bitstream::syntax::compressed(writing::single_bytes(list)).len() <= 1_200_000_005,
        bitstream::syntax::compressed(writing::control_bytes(list)).len() <= 1_200_000_005,
        bitstream::syntax::compressed(writing::data_bytes(list)).len() <= 1_200_000_005,
{
    let (tokens, control, data) = (
        writing::single_bytes(list),
        writing::control_bytes(list),
        writing::data_bytes(list),
    );
    bitstream::syntax::law_entropy_round_trip(tokens, tokens.len(), false);
    bitstream::syntax::law_entropy_round_trip(control, control.len(), false);
    bitstream::syntax::law_entropy_round_trip(data, data.len(), false);
}

/// Appends a chunk.
fn put_chunk(s: &Vec<u8>, out: &mut Vec<u8>)
    requires
        s@.len() <= u32::MAX,
    ensures
        final(out)@ == old(out)@ + chunk(s@),
{
    put_u32_le(s.len() as u32, out);
    put_slice(s, out);
    assert(out@ =~= old(out)@ + chunk(s@));
}

/// Appends the shorter of the two layouts.
pub(crate) fn put_shorter(single: &Vec<u8>, control: &Vec<u8>, data: &Vec<u8>, out: &mut Vec<u8>)
    requires
        single@.len() <= 1_200_000_005,
        control@.len() <= 1_200_000_005,
        data@.len() <= 1_200_000_005,
    ensures
        final(out)@ == old(out)@ + if 4 + single@.len() <= 8 + control@.len() + data@.len() {
            seq![0u8] + chunk(single@)
        } else {
            seq![1u8] + chunk(control@) + chunk(data@)
        },
{
    if 4 + single.len() <= 8 + control.len() + data.len() {
        out.push(0);
        put_chunk(single, out);
        assert(out@ =~= old(out)@ + (seq![0u8] + chunk(single@)));
    } else {
        out.push(1);
        put_chunk(control, out);
        put_chunk(data, out);
        assert(out@ =~= old(out)@ + (seq![1u8] + chunk(control@) + chunk(data@)));
    }
}

/// Appends the envelope of a plane.
fn put_envelope(list: &Vec<BlockRec>, remap: &Vec<usize>, out: &mut Vec<u8>)
    requires
        forall|k: int|
            0 <= k < list@.len() ==> writing::serializable((#[trigger] list@[k]).model(), remap@),
        lanes_short(writing::remapped_list(writing::models(list@), remap@)),
    ensures
        final(out)@ == old(out)@ + envelope_bytes(
            writing::remapped_list(writing::models(list@), remap@), packing(),
        ),
{
    let ghost blocks = writing::remapped_list(writing::models(list@), remap@);
    proof {
        reveal(envelope_bytes);
        lemma_compressed_short(blocks);
    }
    let single: Vec<u8> = match serialize_blocks(list, remap, BlockLayout::Single) {
        SerializedBlocks::Single(tokens) => entropy_compress(&tokens),
        SerializedBlocks::Split { control, data } => Vec::new(),
    };
    let (control, data): (Vec<u8>, Vec<u8>) = match serialize_blocks(
        list,
        remap,
        BlockLayout::Split,
    ) {
        SerializedBlocks::Single(tokens) => (Vec::new(), Vec::new()),
        SerializedBlocks::Split { control, data } => (
            entropy_compress(&control),
            entropy_compress(&data),
        ),
    };
    put_shorter(&single, &control, &data, out);
}

/// Appends the first 20 bytes of a packet and the ids that follow them.
pub(crate) fn put_header(frame_id: u64, w: u32, h: u32, q: u16, ids: &Vec<u64>, out: &mut Vec<u8>)
    requires
        w <= 65535,
        h <= 65535,
        ids@.len() <= 4,
    ensures
        final(out)@ == old(out)@ + header_bytes(
            frame_id,
            w as int,
            h as int,
            q as int,
            ids@.len() as int,
        ) + id_bytes(ids@),
{
    out.push(65);
    out.push(76);
    out.push(86);
    out.push(49);
    put_u64_le(frame_id, out);
    put_u16_le(w as u16, out);
    put_u16_le(h as u16, out);
    put_u16_le(q, out);
    out.push(ids.len() as u8);
    out.push(1);
    let ghost head = header_bytes(frame_id, w as int, h as int, q as int, ids@.len() as int);
    assert(out@ =~= old(out)@ + head);
    let mut i: usize = 0;
    assert(ids@.take(0) =~= Seq::empty());
    assert(out@ =~= old(out)@ + head + id_bytes(ids@.take(0)));
    while i < ids.len()
        invariant
            i <= ids@.len(),
            out@ == old(out)@ + head + id_bytes(ids@.take(i as int)),
        decreases ids@.len() - i,
    {
        put_u64_le(ids[i], out);
        proof {
            assert(ids@.take(i + 1).drop_last() =~= ids@.take(i as int));
            assert(out@ =~= old(out)@ + head + id_bytes(ids@.take(i + 1)));
        }
        i = i + 1;
    }
    assert(ids@.take(i as int) =~= ids@);
}

/// What encoding a frame gives.
pub open spec fn encode_result(
    frame_id: u64,
    picture: syntax::Picture,
    references: Seq<(u64, syntax::Picture)>,
    opt: EncodeOptions,
    packet: Seq<u8>,
    reconstructed: syntax::Picture,
    dependencies: Seq<u64>,
) -> bool {
    let refs = considered(references, opt);
    &&& packet == packet_bytes(frame_id, picture, refs, opt)
    &&& reconstructed == reconstruction(picture, refs, opt)
    &&& dependencies == dependencies_of(refs, used_by_any(picture, refs, opt))
}

proof fn lemma_serializable(
    frame_id: u64,
    picture: syntax::Picture,
    refs: Seq<(u64, syntax::Picture)>,
    opt: EncodeOptions,
    p: int,
    list: Seq<BlockRec>,
    remap: Seq<usize>,
)
    requires
        picture.valid(),
        opt.motion_radius <= 32,
        refs.len() <= 4,
        reference_error(refs, 0, frame_id, picture.width, picture.height) is None,
        0 <= p < 3,
        writing::models(list) == coded(picture, refs, opt, p).list,
        remap == remap_of(used_by_any(picture, refs, opt)),
        forall|i: int| 0 <= i < remap.len() ==> #[trigger] remap[i] <= 4,
    ensures
        forall|k: int| 0 <= k < list.len() ==> writing::serializable((#[trigger] list[k]).model(), remap),
        writing::remapped_list(writing::models(list), remap) == final_list(picture, refs, opt, p),
        lanes_short(final_list(picture, refs, opt, p)),
{
    let (w, h) = (syntax::plane_len(picture.width, p), syntax::plane_len(picture.height, p));
    assert(remap.len() == refs.len()) by {
        reveal(used_by_any);
    }
    assert(writing::remapped_list(writing::models(list), remap) == final_list(
        picture,
        refs,
        opt,
        p,
    )) by {
        reveal(final_list);
    }
    lemma_lanes_short(frame_id, picture, refs, opt, p);
    lemma_accepted(frame_id, picture, refs, opt, p);
    syntax::lemma_block_count(w, h);
    assert forall|k: int| 0 <= k < list.len() implies writing::serializable(
        (#[trigger] list[k]).model(),
        remap,
    ) by {
        assert(writing::models(list)[k] == list[k].model());
        reveal(coded);
        encoder::lemma_state_ok(
            picture.plane(p),
            syntax::planes_of(pictures_of(refs), p),
            w,
            h,
            opt,
            syntax::block_count(w, h),
        );
        let (bw, bh) = (
            syntax::cut(w, syntax::block_x(w, k)),
            syntax::cut(h, syntax::block_y(w, k)),
        );
        syntax::lemma_block_place(w, h, k);
        assert(0 < bw * bh <= 64) by (nonlinear_arith)
            requires
                0 < bw <= 8,
                0 < bh <= 8,
        ;
        assert(writing::writable(
            coded(picture, refs, opt, p).list[k],
            refs.len(),
            bw * bh,
            choice::step_of(opt),
        ));
    }
}

/// Encodes one frame, reconstructing into a pooled frame where one fits.
pub fn encode_with_pool(
    frame_id: u64,
    frame: &Frame420,
    references: &[(u64, &Frame420)],
    opt: EncodeOptions,
    kernels: KernelSet,
    pool: &mut Vec<Frame420>,
) -> (r: Result<EncodedFrame, VideoError>)
    ensures
        match r {
            Err(e) => encode_error(frame_id, frame.picture(), decoder::numbered(references@), opt)
                == Some(e) && final(pool)@ == old(pool)@,
            Ok(encoded) => {
                &&& encode_error(frame_id, frame.picture(), decoder::numbered(references@), opt) is None
                &&& encode_result(
                    frame_id,
                    frame.picture(),
                    decoder::numbered(references@),
                    opt,
                    encoded.packet@,
                    encoded.reconstructed.picture(),
                    encoded.dependencies@,
                )
                &&& final(pool)@ == decoder::pool_after(old(pool)@, frame.width, frame.height)
            },
        },
{
    match frame.validate() {
        Ok(()) => {},
        Err(e) => {
            return Err(e);
        },
    }
    if opt.qstep == 0 {
        return Err(VideoError::BadQuantizer);
    }
    if opt.motion_radius > 32 {
        return Err(VideoError::BadHeader);
    }
    let most: usize = if opt.max_refs < 4 {
        opt.max_refs as usize
    } else {
        4
    };
    let count: usize = if references.len() < most {
        references.len()
    } else {
        most
    };
    let ghost picture = frame.picture();
    let ghost refs = considered(decoder::numbered(references@), opt);
    assert(refs =~= decoder::numbered(references@).take(count as int));
    match check_references(frame_id, frame, references, count) {
        Ok(()) => {},
        Err(e) => {
            return Err(e);
        },
    }
    let mut frames: Vec<&Frame420> = Vec::new();
    let mut i: usize = 0;
    while i < count
        invariant
            count <= references@.len(),
            i <= count,
            frames@.len() == i,
            forall|j: int| 0 <= j < i ==> #[trigger] frames@[j] == references@[j].1,
        decreases count - i,
    {
        frames.push(references[i].1);
        i = i + 1;
    }
    assert(decoder::pictures(frames@) =~= pictures_of(refs));
    let mut reconstructed: Frame420 = match obtain_frame(pool, frame.width, frame.height) {
        Ok(frame) => frame,
        Err(e) => {
            return Err(e);
        },
    };
    let (ylist, yused): (Vec<BlockRec>, Vec<bool>) = encode_one_plane(
        0,
        frame,
        &frames,
        opt,
        kernels,
        reconstructed.y_mut(),
        Ghost(frame_id),
        Ghost(refs),
    );
    let (ulist, uused): (Vec<BlockRec>, Vec<bool>) = encode_one_plane(
        1,
        frame,
        &frames,
        opt,
        kernels,
        reconstructed.u_mut(),
        Ghost(frame_id),
        Ghost(refs),
    );
    let (vlist, vused): (Vec<BlockRec>, Vec<bool>) = encode_one_plane(
        2,
        frame,
        &frames,
        opt,
        kernels,
        reconstructed.v_mut(),
        Ghost(frame_id),
        Ghost(refs),
    );
    proof {
        lemma_final_list(frame_id, picture, refs, opt, 0);
        lemma_final_list(frame_id, picture, refs, opt, 1);
        lemma_final_list(frame_id, picture, refs, opt, 2);
    }
    let used: Vec<bool> = either(&yused, &uused, &vused);
    assert(used@ == used_by_any(picture, refs, opt)) by {
        reveal(used_by_any);
        assert(used@ =~= used_by_any(picture, refs, opt));
    }
    let (remap, dependencies): (Vec<usize>, Vec<u64>) = renumber(&used, references);
    proof {
        lemma_serializable(frame_id, picture, refs, opt, 0, ylist@, remap@);
        lemma_serializable(frame_id, picture, refs, opt, 1, ulist@, remap@);
        lemma_serializable(frame_id, picture, refs, opt, 2, vlist@, remap@);
    }
    let mut packet: Vec<u8> = Vec::new();
    put_header(frame_id, frame.width, frame.height, opt.qstep, &dependencies, &mut packet);
    put_envelope(&ylist, &remap, &mut packet);
    put_envelope(&ulist, &remap, &mut packet);
    put_envelope(&vlist, &remap, &mut packet);
    assert(packet@ =~= packet_bytes(frame_id, picture, refs, opt));
    Ok(EncodedFrame { packet, reconstructed, dependencies })
}

/// Encodes one frame from the supplied reference pictures.
pub fn encode(
    frame_id: u64,
    frame: &Frame420,
    references: &[(u64, &Frame420)],
    opt: EncodeOptions,
) -> (r: Result<EncodedFrame, VideoError>)
    ensures
        match r {
            Err(e) => encode_error(frame_id, frame.picture(), decoder::numbered(references@), opt)
                == Some(e),
            Ok(encoded) => {
                &&& encode_error(frame_id, frame.picture(), decoder::numbered(references@), opt) is None
                &&& encode_result(
                    frame_id,
                    frame.picture(),
                    decoder::numbered(references@),
                    opt,
                    encoded.packet@,
                    encoded.reconstructed.picture(),
                    encoded.dependencies@,
                )
            },
        },
{
    let mut pool: Vec<Frame420> = Vec::new();
    encode_with_pool(frame_id, frame, references, opt, KernelSet::auto(), &mut pool)
}

} // verus!
