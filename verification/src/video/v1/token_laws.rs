//! Where the bytes of frame packets and of their tokens stand and what they mean.
use crate::bitstream;
use crate::container::v1::layout_laws;
use crate::video::v1::syntax;
use crate::video::v1::writing;
use crate::video::v1::VideoError;
use vstd::prelude::*;

verus! {

// ---------------------------------------------------------------------------------------------
// Frames

proof fn lemma_number(b: Seq<u8>, at: int)
    requires
        0 <= at,
    ensures
        at + 2 <= b.len() ==> crate::bytes::le_value(b.subrange(at, at + 2)) == layout_laws::two(b, at),
        at + 4 <= b.len() ==> crate::bytes::le_value(b.subrange(at, at + 4)) == layout_laws::four(
            b,
            at,
        ),
        at + 8 <= b.len() ==> crate::bytes::le_value(b.subrange(at, at + 8)) == layout_laws::eight(
            b,
            at,
        ),
{
    layout_laws::law_numbers(b, at);
}

/// Every id that is read, and the picture it stands for.
proof fn lemma_references(
    input: Seq<u8>,
    pos: int,
    left: nat,
    frame_id: u64,
    w: int,
    h: int,
    references: Seq<(u64, syntax::Picture)>,
    ids: Seq<u64>,
    pictures: Seq<syntax::Picture>,
)
    requires
        0 <= pos,
        ids.len() == pictures.len(),
        syntax::read_references(input, pos, left, frame_id, w, h, references, ids, pictures) is Ok,
    ensures
        ({
            let (list, shown, end) = syntax::read_references(
                input,
                pos,
                left,
                frame_id,
                w,
                h,
                references,
                ids,
                pictures,
            )->Ok_0;
            let n = ids.len() as int;
            &&& end == pos + 8 * left
            &&& end <= input.len() || left == 0
            &&& list.len() == n + left
            &&& shown.len() == n + left
            &&& list.take(n) == ids
            &&& shown.take(n) == pictures
            &&& forall|i: int|
                0 <= i < left ==> {
                    let id = #[trigger] list[n + i];
                    &&& id == layout_laws::eight(input, pos + 8 * i)
                    &&& id != frame_id
                    &&& !list.take(n + i).contains(id)
                    &&& syntax::find_reference(references, id, 0) == Some(shown[n + i])
                    &&& shown[n + i].width == w && shown[n + i].height == h
                }
        }),
    decreases left,
{
    let n = ids.len() as int;
    let (list, shown, end) = syntax::read_references(
        input,
        pos,
        left,
        frame_id,
        w,
        h,
        references,
        ids,
        pictures,
    )->Ok_0;
    if left == 0 {
        assert(list.take(n) =~= ids);
        assert(shown.take(n) =~= pictures);
    } else {
        lemma_number(input, pos);
        layout_laws::law_numbers(input, pos);
        let id = crate::bytes::le_value(input.subrange(pos, pos + 8)) as u64;
        let picture = syntax::find_reference(references, id, 0)->Some_0;
        lemma_references(
            input,
            pos + 8,
            (left - 1) as nat,
            frame_id,
            w,
            h,
            references,
            ids.push(id),
            pictures.push(picture),
        );
        assert(list.take(n + 1) == ids.push(id));
        assert(shown.take(n + 1) == pictures.push(picture));
        assert(list.take(n) =~= list.take(n + 1).take(n));
        assert(shown.take(n) =~= shown.take(n + 1).take(n));
        assert(ids.push(id).take(n) =~= ids);
        assert(pictures.push(picture).take(n) =~= pictures);
        assert(list[n] == list.take(n + 1)[n]);
        assert(shown[n] == shown.take(n + 1)[n]);
        assert forall|i: int| 0 <= i < left implies {
            let id = #[trigger] list[n + i];
            &&& id == layout_laws::eight(input, pos + 8 * i)
            &&& id != frame_id
            &&& !list.take(n + i).contains(id)
            &&& syntax::find_reference(references, id, 0) == Some(shown[n + i])
            &&& shown[n + i].width == w && shown[n + i].height == h
        } by {
            if i > 0 {
                let j = i - 1;
                assert(list[(n + 1) + j] == list[n + i]);
            }
        }
    }
}

/// The pictures of these ids.
pub open spec fn named(references: Seq<(u64, syntax::Picture)>, ids: Seq<u64>) -> Seq<
    syntax::Picture,
> {
    Seq::new(ids.len(), |i: int| syntax::find_reference(references, ids[i], 0)->Some_0)
}

/// A frame that is accepted: `ALV1`, its id, width, height and quantizer step, how many references it
/// names and a one, the ids of the references, and three envelopes: luma and the two chroma planes of
/// half the size. No reference is named twice nor is the frame itself, and all have its size.
pub proof fn law_frame_layout(
    input: Seq<u8>,
    references: Seq<(u64, syntax::Picture)>,
    bounds: syntax::Bounds,
    id: u64,
    picture: syntax::Picture,
    ids: Seq<u64>,
)
    requires
        syntax::decoded_frame(input, references, bounds) == Ok::<
            (u64, syntax::Picture, Seq<u64>),
            VideoError,
        >((id, picture, ids)),
    ensures
        input.len() >= 20 + 8 * ids.len(),
        input[0] == 65 && input[1] == 76 && input[2] == 86 && input[3] == 49,
        layout_laws::eight(input, 4) == id,
        layout_laws::two(input, 12) == picture.width,
        layout_laws::two(input, 14) == picture.height,
        layout_laws::two(input, 16) > 0,
        input[18] == ids.len() <= 4,
        input[19] == 1,
        0 < picture.width <= 8192 && 0 < picture.height <= 8192,
        picture.width % 2 == 0 && picture.height % 2 == 0,
        picture.width * picture.height <= bounds.max_pixels,
        bounds.expected matches Some((w, h)) ==> w == picture.width && h == picture.height,
        forall|i: int|
            0 <= i < ids.len() ==> {
                let other = #[trigger] ids[i];
                &&& other == layout_laws::eight(input, 20 + 8 * i)
                &&& other != id
                &&& syntax::find_reference(references, other, 0) matches Some(shown) && shown.width
                    == picture.width && shown.height == picture.height
            },
        forall|i: int, j: int|
            0 <= i < j < ids.len() ==> #[trigger] ids[i] != #[trigger] ids[j],
        syntax::read_envelopes(input, 20 + 8 * ids.len() as int, 3) matches Ok((parts, end)) && end
            == input.len() && {
            let (w, h, q) = (picture.width, picture.height, layout_laws::two(input, 16));
            let shown = named(references, ids);
            let max = bounds.max_entropy;
            &&& syntax::decoded_envelope(parts[0], shown, 0, w, h, q, max) == Ok::<Seq<u8>, VideoError>(
                picture.y,
            )
            &&& syntax::decoded_envelope(parts[1], shown, 1, w, h, q, max) == Ok::<Seq<u8>, VideoError>(
                picture.u,
            )
            &&& syntax::decoded_envelope(parts[2], shown, 2, w, h, q, max) == Ok::<Seq<u8>, VideoError>(
                picture.v,
            )
        },
{
    lemma_number(input, 4);
    lemma_number(input, 12);
    lemma_number(input, 14);
    lemma_number(input, 16);
    layout_laws::law_numbers(input, 4);
    let t = input.take(4);
    assert(t[0] == input[0] && t[1] == input[1] && t[2] == input[2] && t[3] == input[3]);
    let w = layout_laws::two(input, 12);
    let h = layout_laws::two(input, 14);
    lemma_references(
        input,
        20,
        input[18] as nat,
        id,
        w,
        h,
        references,
        Seq::empty(),
        Seq::empty(),
    );
    let (list, shown, at) = syntax::read_references(
        input,
        20,
        input[18] as nat,
        id,
        w,
        h,
        references,
        Seq::empty(),
        Seq::empty(),
    )->Ok_0;
    assert(list == ids);
    assert forall|i: int| 0 <= i < ids.len() implies {
        let other = #[trigger] ids[i];
        &&& other == layout_laws::eight(input, 20 + 8 * i)
        &&& other != id
        &&& syntax::find_reference(references, other, 0) == Some(shown[i])
        &&& shown[i].width == picture.width && shown[i].height == picture.height
    } by {
        assert(list[0 + i] == ids[i]);
    }
    assert forall|i: int, j: int| 0 <= i < j < ids.len() implies #[trigger] ids[i]
        != #[trigger] ids[j] by {
        assert(list[0 + j] == ids[j]);
        if ids[i] == ids[j] {
            assert(list.take(0 + j)[i] == ids[j]);
        }
    }
    assert(shown =~= named(references, ids));
}

/// An envelope: a zero, a length of four bytes and as many bytes; or a one and two such runs of bytes,
/// the modes and the rest.
pub proof fn law_envelope_layout(input: Seq<u8>, pos: int)
    requires
        0 <= pos,
    ensures
        syntax::read_envelope(input, pos) matches Ok((syntax::Envelope::Single(s), end))
            ==> input[pos] == 0 && layout_laws::four(input, pos + 1) == s.len() && s
            == input.subrange(pos + 5, pos + 5 + s.len()) && end == pos + 5 + s.len() <= input.len(),
        syntax::read_envelope(input, pos) matches Ok((syntax::Envelope::Split(s, t), end))
            ==> input[pos] == 1 && layout_laws::four(input, pos + 1) == s.len() && s
            == input.subrange(pos + 5, pos + 5 + s.len()) && layout_laws::four(
            input,
            pos + 5 + s.len(),
        ) == t.len() && t == input.subrange(pos + 9 + s.len(), pos + 9 + s.len() + t.len()) && end
            == pos + 9 + s.len() + t.len() <= input.len(),
{
    lemma_number(input, pos + 1);
    layout_laws::law_numbers(input, pos + 1);
    if let Ok((first, at)) = syntax::read_chunk(input, pos + 1) {
        lemma_number(input, at);
        layout_laws::law_numbers(input, at);
    }
}

// ---------------------------------------------------------------------------------------------
// Tokens

/// Where the first coefficient stands that is not zero: its place, its value and all later ones.
proof fn lemma_first(coeff: Seq<int>, at: int, i: int)
    requires
        coeff.len() == 64,
        0 <= i <= at < 64,
        coeff[at] != 0,
        forall|j: int| 0 <= j < at ==> coeff[j] == 0,
    ensures
        writing::nonzero_from(coeff, i) == 1 + writing::nonzero_from(coeff.update(at, 0), i),
        writing::coefficient_bytes(coeff, i) == bitstream::syntax::uvarint_bytes(at as nat)
            + bitstream::syntax::svarint_bytes(coeff[at]) + writing::coefficient_bytes(
            coeff.update(at, 0),
            i,
        ),
    decreases at - i,
{
    let rest = coeff.update(at, 0);
    if i < at {
        lemma_first(coeff, at, i + 1);
    } else {
        lemma_same(coeff, rest, at + 1);
    }
}

proof fn lemma_same(a: Seq<int>, b: Seq<int>, i: int)
    requires
        0 <= i,
        a.len() == 64,
        b.len() == 64,
        forall|j: int| i <= j < 64 ==> a[j] == b[j],
    ensures
        writing::nonzero_from(a, i) == writing::nonzero_from(b, i),
        writing::coefficient_bytes(a, i) == writing::coefficient_bytes(b, i),
    decreases 64 - i,
{
    if i < 64 {
        lemma_same(a, b, i + 1);
    }
}

proof fn lemma_none(coeff: Seq<int>, i: int)
    requires
        coeff.len() == 64,
        0 <= i,
        forall|j: int| 0 <= j < 64 ==> coeff[j] == 0,
    ensures
        writing::nonzero_from(coeff, i) == 0,
        writing::coefficient_bytes(coeff, i) == Seq::<u8>::empty(),
    decreases 64 - i,
{
    if i < 64 {
        lemma_none(coeff, i + 1);
    }
}

/// What is written for coefficients: nothing for those that are zero; the first other one by its place
/// in the block, row by row, and its value, and behind it the rest.
pub proof fn law_coefficient_tokens(coeff: Seq<int>, at: int)
    requires
        coeff.len() == 64,
        0 <= at <= 64,
        forall|j: int| 0 <= j < at ==> coeff[j] == 0,
        at < 64 ==> coeff[at] != 0,
    ensures
        at == 64 ==> writing::nonzero_from(coeff, 0) == 0 && writing::coefficient_bytes(coeff, 0)
            == Seq::<u8>::empty(),
        at < 64 ==> writing::nonzero_from(coeff, 0) == 1 + writing::nonzero_from(
            coeff.update(at, 0),
            0,
        ),
        at < 64 ==> writing::coefficient_bytes(coeff, 0) == seq![at as u8]
            + bitstream::syntax::svarint_bytes(coeff[at]) + writing::coefficient_bytes(
            coeff.update(at, 0),
            0,
        ),
{
    if at == 64 {
        lemma_none(coeff, 0);
    } else {
        lemma_first(coeff, at, 0);
    }
}

/// What is written for a block that is predicted: for motion the number of the reference and the two
/// components, and for all how many coefficients are not zero, and those.
pub proof fn law_residual_tokens(mode: u8, reference: int, dx: int, dy: int, coeff: Seq<int>)
    requires
        coeff.len() == 64,
    ensures
        ({
            let rest = seq![writing::nonzero_from(coeff, 0) as u8] + writing::coefficient_bytes(
                coeff,
                0,
            );
            let block = syntax::Block::Residual { mode, reference, dx, dy, coeff };
            &&& writing::block_mode(block) == mode
            &&& mode == 3 ==> writing::payload_bytes(block) == seq![reference as u8]
                + bitstream::syntax::svarint_bytes(dx) + bitstream::syntax::svarint_bytes(dy) + rest
            &&& mode != 3 ==> writing::payload_bytes(block) == rest
        }),
{
    writing::lemma_nonzero(coeff, 0);
    let block = syntax::Block::Residual { mode, reference, dx, dy, coeff };
    let rest = seq![writing::nonzero_from(coeff, 0) as u8] + writing::coefficient_bytes(coeff, 0);
    assert(bitstream::syntax::uvarint_bytes(writing::nonzero_from(coeff, 0)) == seq![
        writing::nonzero_from(coeff, 0) as u8,
    ]);
    if mode == 3 {
        assert(writing::payload_bytes(block) =~= seq![reference as u8]
            + bitstream::syntax::svarint_bytes(dx) + bitstream::syntax::svarint_bytes(dy) + rest);
    } else {
        assert(writing::payload_bytes(block) =~= rest);
    }
}

/// What is written for a palette, under mode 4: how many colors, the colors, how many samples, and two
/// bits for each sample, four of them in a byte from the lowest bits up.
pub proof fn law_palette_tokens(colors: Seq<u8>, index: Seq<u8>, k: int)
    requires
        colors.len() <= 4,
        index.len() <= 64,
        0 <= k < index.len(),
        forall|i: int| 0 <= i < index.len() ==> #[trigger] index[i] < 4,
    ensures
        ({
            let block = syntax::Block::Palette { colors, index };
            let b = writing::payload_bytes(block);
            let n = colors.len() as int;
            let packed = b[n + 2 + k / 4] as int;
            &&& writing::block_mode(block) == 4
            &&& b.len() == n + 2 + (index.len() + 3) / 4
            &&& b[0] == n
            &&& b.subrange(1, 1 + n) == colors
            &&& b[n + 1] == index.len()
            &&& k % 4 == 0 ==> packed % 4 == index[k]
            &&& k % 4 == 1 ==> packed / 4 % 4 == index[k]
            &&& k % 4 == 2 ==> packed / 16 % 4 == index[k]
            &&& k % 4 == 3 ==> packed / 64 == index[k]
        }),
{
    let block = syntax::Block::Palette { colors, index };
    let j = k / 4;
    lemma_palette_parts(colors, index, j);
    assert(index[k] < 4);
    assert(writing::index_at(index, k) == index[k]);
    let (a0, a1, a2, a3) = (
        writing::index_at(index, 4 * j),
        writing::index_at(index, 4 * j + 1),
        writing::index_at(index, 4 * j + 2),
        writing::index_at(index, 4 * j + 3),
    );
    lemma_digits(a0, a1, a2, a3);
}

proof fn lemma_digits(a0: int, a1: int, a2: int, a3: int)
    requires
        0 <= a0 < 4,
        0 <= a1 < 4,
        0 <= a2 < 4,
        0 <= a3 < 4,
    ensures
        ({
            let v = a0 + 4 * a1 + 16 * a2 + 64 * a3;
            &&& 0 <= v < 256
            &&& v % 4 == a0
            &&& v / 4 % 4 == a1
            &&& v / 16 % 4 == a2
            &&& v / 64 == a3
        }),
{
}

/// The place and the length of what is written for a palette.
proof fn lemma_palette_parts(colors: Seq<u8>, index: Seq<u8>, j: int)
    requires
        colors.len() <= 4,
        index.len() <= 64,
        0 <= j < (index.len() + 3) / 4,
    ensures
        ({
            let b = writing::payload_bytes(syntax::Block::Palette { colors, index });
            let n = colors.len() as int;
            &&& b.len() == n + 2 + (index.len() + 3) / 4
            &&& b[0] == n
            &&& b.subrange(1, 1 + n) == colors
            &&& b[n + 1] == index.len()
            &&& b[n + 2 + j] == writing::packed_byte(index, j)
        }),
{
    let b = writing::payload_bytes(syntax::Block::Palette { colors, index });
    let n = colors.len() as int;
    assert(b.subrange(1, 1 + n) =~= colors);
}

/// Tokens of blocks stand one behind the other, in one lane each behind its mode, in two lanes modes
/// and the rest apart.
pub proof fn law_lanes(list: Seq<syntax::Block>, block: syntax::Block)
    ensures
        writing::single_bytes(list.push(block)) == writing::single_bytes(list) + seq![
            writing::block_mode(block),
        ] + writing::payload_bytes(block),
        writing::data_bytes(list.push(block)) == writing::data_bytes(list) + writing::payload_bytes(
            block,
        ),
        writing::control_bytes(list.push(block)) == writing::control_bytes(list).push(
            writing::block_mode(block),
        ),
        writing::single_bytes(Seq::empty()) == Seq::<u8>::empty(),
        writing::data_bytes(Seq::empty()) == Seq::<u8>::empty(),
        writing::control_bytes(Seq::empty()) == Seq::<u8>::empty(),
{
    assert(list.push(block).drop_last() =~= list);
    assert(writing::control_bytes(list.push(block)) =~= writing::control_bytes(list).push(
        writing::block_mode(block),
    ));
}

} // verus!
