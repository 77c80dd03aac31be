//! Writing coded blocks to token lanes.
use crate::bitstream;
use crate::bitstream::v1::{put_svarint_i32, put_uvarint};
use crate::kernels::scalar;
use crate::video::v1::blocks;
use crate::video::v1::blocks::BlockRec;
use crate::video::v1::syntax;
use crate::video::v1::VideoError;
use vstd::prelude::*;

verus! {

/// The mode byte of a block.
pub open spec fn block_mode(block: syntax::Block) -> u8 {
    match block {
        syntax::Block::Palette { colors, index } => 4,
        syntax::Block::Residual { mode, reference, dx, dy, coeff } => mode,
    }
}

/// How many coefficients from `i` on are not zero.
pub open spec fn nonzero_from(coeff: Seq<int>, i: int) -> nat
    decreases 64 - i,
{
    if i >= 64 {
        0
    } else if coeff[i] == 0 {
        nonzero_from(coeff, i + 1)
    } else {
        nonzero_from(coeff, i + 1) + 1
    }
}

/// The coefficients from `i` on that are not zero, each behind its position.
pub open spec fn coefficient_bytes(coeff: Seq<int>, i: int) -> Seq<u8>
    decreases 64 - i,
{
    if i >= 64 {
        Seq::empty()
    } else if coeff[i] == 0 {
        coefficient_bytes(coeff, i + 1)
    } else {
        bitstream::syntax::uvarint_bytes(i as nat) + bitstream::syntax::svarint_bytes(coeff[i])
            + coefficient_bytes(coeff, i + 1)
    }
}

/// Entry `k` of an index list, zero behind its end.
pub open spec fn index_at(index: Seq<u8>, k: int) -> int {
    if k < index.len() {
        index[k] as int % 4
    } else {
        0
    }
}

/// Four entries of an index list in one byte.
pub open spec fn packed_byte(index: Seq<u8>, j: int) -> u8 {
    (index_at(index, 4 * j) + 4 * index_at(index, 4 * j + 1) + 16 * index_at(index, 4 * j + 2) + 64
        * index_at(index, 4 * j + 3)) as u8
}

/// An index list, two bits per entry.
pub open spec fn packed_bytes(index: Seq<u8>) -> Seq<u8> {
    Seq::new(((index.len() + 3) / 4) as nat, |j: int| packed_byte(index, j))
}

/// What the data lane holds for a block.
pub open spec fn payload_bytes(block: syntax::Block) -> Seq<u8> {
    match block {
        syntax::Block::Palette { colors, index } => seq![colors.len() as u8] + colors + seq![
            index.len() as u8,
        ] + packed_bytes(index),
        syntax::Block::Residual { mode, reference, dx, dy, coeff } => (if mode == 3 {
            seq![reference as u8] + bitstream::syntax::svarint_bytes(dx)
                + bitstream::syntax::svarint_bytes(dy)
        } else {
            Seq::empty()
        }) + bitstream::syntax::uvarint_bytes(nonzero_from(coeff, 0)) + coefficient_bytes(coeff, 0),
    }
}

/// The modes of the blocks.
pub open spec fn control_bytes(list: Seq<syntax::Block>) -> Seq<u8> {
    Seq::new(list.len(), |k: int| block_mode(list[k]))
}

/// The data of the blocks.
pub open spec fn data_bytes(list: Seq<syntax::Block>) -> Seq<u8>
    decreases list.len(),
{
    if list.len() == 0 {
        Seq::empty()
    } else {
        data_bytes(list.drop_last()) + payload_bytes(list.last())
    }
}

/// Modes and data of the blocks in one lane.
pub open spec fn single_bytes(list: Seq<syntax::Block>) -> Seq<u8>
    decreases list.len(),
{
    if list.len() == 0 {
        Seq::empty()
    } else {
        single_bytes(list.drop_last()) + seq![block_mode(list.last())] + payload_bytes(list.last())
    }
}

/// A block that reads back as it was written.
pub open spec fn writable(block: syntax::Block, refs: nat, count: int, q: int) -> bool {
    &&& blocks::block_shaped(block, refs, count)
    &&& blocks::block_scales(block, q)
    &&& block matches syntax::Block::Residual { mode, reference, dx, dy, coeff } ==> {
        &&& mode < 3 ==> reference == 0 && dx == 0 && dy == 0
        &&& forall|i: int| 0 <= i < 64 ==> -1_000_000 <= #[trigger] coeff[i] <= 1_000_000
    }
}

pub proof fn lemma_nonzero(coeff: Seq<int>, i: int)
    requires
        0 <= i <= 64,
    ensures
        nonzero_from(coeff, i) <= 64 - i,
    decreases 64 - i,
{
    if i < 64 {
        lemma_nonzero(coeff, i + 1);
    }
}

/// Reading written coefficients gives them back.
proof fn lemma_read_coefficients(
    data: Seq<u8>,
    pos: int,
    i: int,
    last: int,
    coeff: Seq<int>,
    part: Seq<int>,
)
    requires
        0 <= i <= 64,
        -1 <= last < i,
        0 <= pos,
        coeff.len() == 64,
        part.len() == 64,
        forall|j: int| 0 <= j < i ==> part[j] == coeff[j],
        forall|j: int| i <= j < 64 ==> part[j] == 0,
        forall|j: int| 0 <= j < 64 ==> -1_000_000 <= #[trigger] coeff[j] <= 1_000_000,
        pos + coefficient_bytes(coeff, i).len() <= data.len(),
        data.subrange(pos, pos + coefficient_bytes(coeff, i).len()) == coefficient_bytes(coeff, i),
    ensures
        syntax::read_coefficients(data, pos, nonzero_from(coeff, i), last, part) == Ok::<
            (Seq<int>, int),
            VideoError,
        >((coeff, pos + coefficient_bytes(coeff, i).len())),
    decreases 64 - i,
{
    if i == 64 {
        assert(part =~= coeff);
    } else if coeff[i] == 0 {
        lemma_read_coefficients(data, pos, i + 1, last, coeff, part);
    } else {
        let whole = coefficient_bytes(coeff, i);
        let here = data.subrange(pos, pos + whole.len());
        let a = bitstream::syntax::uvarint_bytes(i as nat);
        let b = bitstream::syntax::svarint_bytes(coeff[i]);
        let rest = coefficient_bytes(coeff, i + 1);
        assert(data.subrange(pos, pos + a.len()) =~= a) by {
            assert(here.subrange(0, a.len() as int) =~= a);
        }
        bitstream::syntax::lemma_uvarint_at(data, pos, i as u64);
        let at = pos + a.len();
        assert(data.subrange(at, at + b.len()) =~= b) by {
            assert(here.subrange(a.len() as int, a.len() as int + b.len()) =~= b);
        }
        bitstream::syntax::lemma_svarint_at(data, at, coeff[i] as i32);
        let next = at + b.len();
        assert(data.subrange(next, next + rest.len()) =~= rest) by {
            assert(here.subrange(a.len() as int + b.len(), here.len() as int) =~= rest);
        }
        lemma_read_coefficients(data, next, i + 1, i, coeff, part.update(i, coeff[i]));
        assert(syntax::read_coefficients(data, pos, nonzero_from(coeff, i), last, part)
            == syntax::read_coefficients(
            data,
            next,
            nonzero_from(coeff, i + 1),
            i,
            part.update(i, coeff[i]),
        ));
    }
}

proof fn lemma_read_residual(
    data: Seq<u8>,
    pos: int,
    mode: u8,
    reference: int,
    dx: int,
    dy: int,
    coeff: Seq<int>,
)
    requires
        0 <= pos,
        coeff.len() == 64,
        forall|j: int| 0 <= j < 64 ==> -1_000_000 <= #[trigger] coeff[j] <= 1_000_000,
        ({
            let tail = bitstream::syntax::uvarint_bytes(nonzero_from(coeff, 0)) + coefficient_bytes(
                coeff,
                0,
            );
            pos + tail.len() <= data.len() && data.subrange(pos, pos + tail.len()) == tail
        }),
    ensures
        syntax::read_residual(data, pos, mode, reference, dx, dy) == Ok::<
            (syntax::Block, int),
            VideoError,
        >(
            (
                syntax::Block::Residual { mode, reference, dx, dy, coeff },
                pos + bitstream::syntax::uvarint_bytes(nonzero_from(coeff, 0)).len()
                    + coefficient_bytes(coeff, 0).len(),
            ),
        ),
{
    let n = nonzero_from(coeff, 0);
    lemma_nonzero(coeff, 0);
    let a = bitstream::syntax::uvarint_bytes(n);
    let b = coefficient_bytes(coeff, 0);
    let here = data.subrange(pos, pos + (a + b).len());
    assert(data.subrange(pos, pos + a.len()) =~= a) by {
        assert(here.subrange(0, a.len() as int) =~= a);
    }
    bitstream::syntax::lemma_uvarint_at(data, pos, n as u64);
    let at = pos + a.len();
    assert(data.subrange(at, at + b.len()) =~= b) by {
        assert(here.subrange(a.len() as int, here.len() as int) =~= b);
    }
    lemma_read_coefficients(data, at, 0, -1, coeff, syntax::no_coefficients());
}

proof fn lemma_four_in_a_byte(a: int, b: int, c: int, d: int)
    requires
        0 <= a < 4,
        0 <= b < 4,
        0 <= c < 4,
        0 <= d < 4,
    ensures
        ({
            let v = a + 4 * b + 16 * c + 64 * d;
            &&& 0 <= v < 256
            &&& v % 4 == a
            &&& v / 4 % 4 == b
            &&& v / 16 % 4 == c
            &&& v / 64 == d
        }),
{
    let v = a + 4 * b + 16 * c + 64 * d;
    vstd::arithmetic::div_mod::lemma_fundamental_div_mod_converse(v, 4, b + 4 * c + 16 * d, a);
    vstd::arithmetic::div_mod::lemma_fundamental_div_mod_converse(
        b + 4 * c + 16 * d,
        4,
        c + 4 * d,
        b,
    );
    vstd::arithmetic::div_mod::lemma_fundamental_div_mod_converse(v, 16, c + 4 * d, a + 4 * b);
    vstd::arithmetic::div_mod::lemma_fundamental_div_mod_converse(c + 4 * d, 4, d, c);
    vstd::arithmetic::div_mod::lemma_fundamental_div_mod_converse(v, 64, d, a + 4 * b + 16 * c);
}

proof fn lemma_packed(index: Seq<u8>, k: int)
    requires
        0 <= k < index.len(),
        index[k] < 4,
    ensures
        syntax::packed_index(packed_bytes(index), k) == index[k],
{
    let j = k / 4;
    let (a, b, c, d) = (
        index_at(index, 4 * j),
        index_at(index, 4 * j + 1),
        index_at(index, 4 * j + 2),
        index_at(index, 4 * j + 3),
    );
    lemma_four_in_a_byte(a, b, c, d);
    assert(packed_bytes(index)[j] == packed_byte(index, j));
    assert(k == 4 * j + k % 4);
    assert(index_at(index, k) == index[k]);
}

proof fn lemma_palette_write_read(
    data: Seq<u8>,
    pos: int,
    colors: Seq<u8>,
    index: Seq<u8>,
    count: int,
)
    requires
        0 <= pos,
        0 < count <= 64,
        1 <= colors.len() <= 4,
        index.len() == count,
        forall|k: int| 0 <= k < count ==> #[trigger] index[k] < colors.len(),
        ({
            let whole = payload_bytes(syntax::Block::Palette { colors, index });
            pos + whole.len() <= data.len() && data.subrange(pos, pos + whole.len()) == whole
        }),
    ensures
        syntax::read_palette(data, pos, count) == Ok::<(syntax::Block, int), VideoError>(
            (
                syntax::Block::Palette { colors, index },
                pos + payload_bytes(syntax::Block::Palette { colors, index }).len(),
            ),
        ),
{
    let whole = payload_bytes(syntax::Block::Palette { colors, index });
    let here = data.subrange(pos, pos + whole.len());
    let n = colors.len() as int;
    let packed = packed_bytes(index);
    assert(whole.len() == 1 + n + 1 + packed.len());
    assert(here[0] == data[pos]);
    assert(data[pos] == n);
    assert(here[1 + n] == data[pos + 1 + n]);
    assert(data[pos + 1 + n] == count);
    let start = pos + 1 + n + 1;
    assert(data.subrange(pos + 1, pos + 1 + n) =~= colors) by {
        assert(here.subrange(1, 1 + n) =~= colors);
    }
    let end = start + (count + 3) / 4;
    assert(data.subrange(start, end) =~= packed) by {
        assert(here.subrange(1 + n + 1, here.len() as int) =~= packed);
    }
    let read = Seq::new(
        count as nat,
        |k: int| syntax::packed_index(data.subrange(start, end), k),
    );
    assert forall|k: int| 0 <= k < count implies #[trigger] read[k] == index[k] by {
        assert(index[k] < colors.len());
        lemma_packed(index, k);
    }
    assert(read =~= index);
}

proof fn lemma_inter_write_read(
    data: Seq<u8>,
    pos: int,
    reference: int,
    dx: int,
    dy: int,
    coeff: Seq<int>,
    refs: nat,
    count: int,
)
    requires
        0 <= pos,
        0 <= reference < refs <= 255,
        -64 <= dx <= 64,
        -64 <= dy <= 64,
        coeff.len() == 64,
        forall|j: int| 0 <= j < 64 ==> -1_000_000 <= #[trigger] coeff[j] <= 1_000_000,
        ({
            let whole = payload_bytes(
                syntax::Block::Residual { mode: 3, reference, dx, dy, coeff },
            );
            pos + whole.len() <= data.len() && data.subrange(pos, pos + whole.len()) == whole
        }),
    ensures
        syntax::read_block(data, pos, 3, refs, count) == Ok::<(syntax::Block, int), VideoError>(
            (
                syntax::Block::Residual { mode: 3, reference, dx, dy, coeff },
                pos + payload_bytes(
                    syntax::Block::Residual { mode: 3, reference, dx, dy, coeff },
                ).len(),
            ),
        ),
{
    let whole = payload_bytes(syntax::Block::Residual { mode: 3, reference, dx, dy, coeff });
    let here = data.subrange(pos, pos + whole.len());
    let nz = bitstream::syntax::uvarint_bytes(nonzero_from(coeff, 0));
    let rest = coefficient_bytes(coeff, 0);
    let tail = nz + rest;
    let a = bitstream::syntax::svarint_bytes(dx);
    let b = bitstream::syntax::svarint_bytes(dy);
    assert(whole =~= seq![reference as u8] + a + b + tail);
    assert(here[0] == data[pos]);
    assert(data[pos] == reference);
    assert(data.subrange(pos + 1, pos + 1 + a.len()) =~= a) by {
        assert(here.subrange(1, 1 + a.len() as int) =~= a);
    }
    bitstream::syntax::lemma_svarint_at(data, pos + 1, dx as i32);
    let at = pos + 1 + a.len();
    assert(data.subrange(at, at + b.len()) =~= b) by {
        assert(here.subrange(1 + a.len() as int, 1 + a.len() as int + b.len()) =~= b);
    }
    bitstream::syntax::lemma_svarint_at(data, at, dy as i32);
    let next = at + b.len();
    assert(data.subrange(next, next + tail.len()) =~= tail) by {
        assert(here.subrange(1 + a.len() as int + b.len(), here.len() as int) =~= tail);
    }
    lemma_read_residual(data, next, 3, reference, dx, dy, coeff);
}

/// Reading what was written for a block gives the block back and ends behind it.
pub proof fn law_block_write_read(
    data: Seq<u8>,
    pos: int,
    block: syntax::Block,
    refs: nat,
    count: int,
    q: int,
)
    requires
        0 <= pos,
        0 < count <= 64,
        refs <= 255,
        writable(block, refs, count, q),
        pos + payload_bytes(block).len() <= data.len(),
        data.subrange(pos, pos + payload_bytes(block).len()) == payload_bytes(block),
    ensures
        syntax::read_block(data, pos, block_mode(block), refs, count) == Ok::<
            (syntax::Block, int),
            VideoError,
        >((block, pos + payload_bytes(block).len())),
{
    match block {
        syntax::Block::Palette { colors, index } => {
            lemma_palette_write_read(data, pos, colors, index, count);
        },
        syntax::Block::Residual { mode, reference, dx, dy, coeff } => {
            if mode == 3 {
                lemma_inter_write_read(data, pos, reference, dx, dy, coeff, refs, count);
            } else {
                let tail = bitstream::syntax::uvarint_bytes(nonzero_from(coeff, 0))
                    + coefficient_bytes(coeff, 0);
                assert(payload_bytes(block) =~= tail);
                lemma_read_residual(data, pos, mode, 0, 0, 0, coeff);
            }
        },
    }
}

// ---------------------------------------------------------------------------------------------
// Whole planes

/// The plane after the first `k` blocks of a list.
pub open spec fn rendered(
    list: Seq<syntax::Block>,
    k: int,
    refs: Seq<Seq<u8>>,
    w: int,
    h: int,
    q: int,
) -> Seq<u8>
    decreases k,
{
    if k <= 0 {
        syntax::gray(w, h)
    } else {
        syntax::with_block(
            rendered(list, k - 1, refs, w, h, q),
            refs,
            w,
            h,
            syntax::block_x(w, k - 1),
            syntax::block_y(w, k - 1),
            q,
            list[k - 1],
        )
    }
}

/// A block list for a whole plane that reads back as it was written.
pub open spec fn plane_writable(list: Seq<syntax::Block>, refs: nat, w: int, h: int, q: int) -> bool {
    &&& list.len() == syntax::block_count(w, h)
    &&& forall|k: int|
        0 <= k < list.len() ==> writable(
            #[trigger] list[k],
            refs,
            syntax::cut(w, syntax::block_x(w, k)) * syntax::cut(h, syntax::block_y(w, k)),
            q,
        )
}

/// The lanes in which a block list can be written.
pub open spec fn written(list: Seq<syntax::Block>, split: bool) -> syntax::Lanes {
    if split {
        syntax::Lanes::Split(control_bytes(list), data_bytes(list))
    } else {
        syntax::Lanes::Single(single_bytes(list))
    }
}

/// Where the tokens of block `k` start in the data lane.
pub open spec fn lane_offset(list: Seq<syntax::Block>, split: bool, k: int) -> int {
    if split {
        data_bytes(list.take(k)).len() as int
    } else {
        single_bytes(list.take(k)).len() as int
    }
}

/// The lane of a list starts with the lane of each of its prefixes.
proof fn lemma_lane_prefix(list: Seq<syntax::Block>, k: int)
    requires
        0 <= k <= list.len(),
    ensures
        data_bytes(list.take(k)).len() <= data_bytes(list).len(),
        data_bytes(list).take(data_bytes(list.take(k)).len() as int) == data_bytes(list.take(k)),
        single_bytes(list.take(k)).len() <= single_bytes(list).len(),
        single_bytes(list).take(single_bytes(list.take(k)).len() as int) == single_bytes(
            list.take(k),
        ),
    decreases list.len(),
{
    if k == list.len() {
        assert(list.take(k) =~= list);
        assert(data_bytes(list).take(data_bytes(list).len() as int) =~= data_bytes(list));
        assert(single_bytes(list).take(single_bytes(list).len() as int) =~= single_bytes(list));
    } else {
        lemma_lane_prefix(list.drop_last(), k);
        assert(list.drop_last().take(k) =~= list.take(k));
        let n = data_bytes(list.take(k)).len() as int;
        let m = single_bytes(list.take(k)).len() as int;
        assert(data_bytes(list).take(n) =~= data_bytes(list.drop_last()).take(n));
        assert(single_bytes(list).take(m) =~= single_bytes(list.drop_last()).take(m));
    }
}

proof fn lemma_lane_block(list: Seq<syntax::Block>, k: int)
    requires
        0 <= k < list.len(),
    ensures
        ({
            let data = data_bytes(list);
            let n = data_bytes(list.take(k)).len() as int;
            let p = payload_bytes(list[k]);
            &&& n + p.len() <= data.len()
            &&& data.subrange(n, n + p.len()) == p
            &&& data_bytes(list.take(k + 1)).len() == n + p.len()
        }),
        ({
            let data = single_bytes(list);
            let n = single_bytes(list.take(k)).len() as int;
            let p = payload_bytes(list[k]);
            &&& n + 1 + p.len() <= data.len()
            &&& data[n] == block_mode(list[k])
            &&& data.subrange(n + 1, n + 1 + p.len()) == p
            &&& single_bytes(list.take(k + 1)).len() == n + 1 + p.len()
        }),
{
    let head = list.take(k + 1);
    assert(head.drop_last() =~= list.take(k));
    assert(head.last() == list[k]);
    lemma_lane_prefix(list, k + 1);
    let p = payload_bytes(list[k]);
    let d = data_bytes(head);
    let n = data_bytes(list.take(k)).len() as int;
    assert(d.subrange(n, n + p.len()) =~= p);
    assert(data_bytes(list).subrange(n, n + p.len()) =~= data_bytes(list).take(
        d.len() as int,
    ).subrange(n, n + p.len()));
    let s = single_bytes(head);
    let m = single_bytes(list.take(k)).len() as int;
    assert(s.subrange(m + 1, m + 1 + p.len()) =~= p);
    assert(s[m] == block_mode(list[k]));
    assert(single_bytes(list).subrange(m + 1, m + 1 + p.len()) =~= single_bytes(list).take(
        s.len() as int,
    ).subrange(m + 1, m + 1 + p.len()));
    assert(single_bytes(list).take(s.len() as int)[m] == single_bytes(list)[m]);
}

proof fn lemma_decoded_from_written(
    list: Seq<syntax::Block>,
    split: bool,
    k: int,
    refs: Seq<Seq<u8>>,
    w: int,
    h: int,
    q: int,
)
    requires
        0 < w,
        0 < h,
        refs.len() <= 255,
        plane_writable(list, refs.len(), w, h, q),
        0 <= k <= list.len(),
    ensures
        syntax::decoded_from(
            written(list, split),
            k,
            lane_offset(list, split, k),
            refs,
            w,
            h,
            q,
            rendered(list, k, refs, w, h, q),
        ) == Ok::<Seq<u8>, VideoError>(rendered(list, list.len() as int, refs, w, h, q)),
    decreases list.len() - k,
{
    let lanes = written(list, split);
    let pos = lane_offset(list, split, k);
    if k == list.len() {
        assert(list.take(k) =~= list);
    } else {
        lemma_lane_block(list, k);
        syntax::lemma_block_place(w, h, k);
        let (bw, bh) = (
            syntax::cut(w, syntax::block_x(w, k)),
            syntax::cut(h, syntax::block_y(w, k)),
        );
        assert(0 < bw * bh <= 64) by (nonlinear_arith)
            requires
                0 < bw <= 8,
                0 < bh <= 8,
        ;
        let block = list[k];
        let at = if split {
            pos
        } else {
            pos + 1
        };
        law_block_write_read(syntax::data_lane(lanes), at, block, refs.len(), bw * bh, q);
        assert(syntax::read_mode(lanes, k, pos) == Ok::<(u8, int), VideoError>(
            (block_mode(block), at),
        ));
        let end = lane_offset(list, split, k + 1);
        assert(syntax::next_block(lanes, k, pos, refs.len(), w, h, q) == Ok::<
            (syntax::Block, int),
            VideoError,
        >((block, end)));
        lemma_decoded_from_written(list, split, k + 1, refs, w, h, q);
    }
}

/// Decoding the tokens of a plane, in either layout, gives the plane that its blocks describe.
pub proof fn law_plane_write_read(
    list: Seq<syntax::Block>,
    split: bool,
    refs: Seq<Seq<u8>>,
    w: int,
    h: int,
    q: int,
)
    requires
        0 < w,
        0 < h,
        refs.len() <= 255,
        plane_writable(list, refs.len(), w, h, q),
    ensures
        syntax::decoded_plane(written(list, split), refs, w, h, q) == Ok::<Seq<u8>, VideoError>(
            rendered(list, list.len() as int, refs, w, h, q),
        ),
{
    lemma_decoded_from_written(list, split, 0, refs, w, h, q);
    assert(list.take(0) =~= Seq::empty());
}

// ---------------------------------------------------------------------------------------------
// Lengths

proof fn lemma_coefficient_bytes_len(coeff: Seq<int>, i: int)
    requires
        0 <= i <= 64,
        forall|j: int| 0 <= j < 64 ==> -1_000_000 <= #[trigger] coeff[j] <= 1_000_000,
    ensures
        coefficient_bytes(coeff, i).len() <= 4 * (64 - i),
    decreases 64 - i,
{
    if i < 64 {
        lemma_coefficient_bytes_len(coeff, i + 1);
        bitstream::syntax::lemma_uvarint_bytes_len(i as nat);
        bitstream::syntax::lemma_uvarint_bytes_len(bitstream::syntax::zigzag(coeff[i]));
    }
}

/// A block of which no number is large.
pub open spec fn bounded(block: syntax::Block) -> bool {
    match block {
        syntax::Block::Palette { colors, index } => colors.len() <= 4 && index.len() <= 64,
        syntax::Block::Residual { mode, reference, dx, dy, coeff } => {
            &&& -1000 <= dx <= 1000
            &&& -1000 <= dy <= 1000
            &&& forall|j: int| 0 <= j < 64 ==> -1_000_000 <= #[trigger] coeff[j] <= 1_000_000
        },
    }
}

/// No such block takes more than 263 bytes.
pub proof fn lemma_payload_len(block: syntax::Block)
    requires
        bounded(block),
    ensures
        payload_bytes(block).len() <= 262,
{
    match block {
        syntax::Block::Palette { colors, index } => {},
        syntax::Block::Residual { mode, reference, dx, dy, coeff } => {
            lemma_coefficient_bytes_len(coeff, 0);
            lemma_nonzero(coeff, 0);
            bitstream::syntax::lemma_uvarint_bytes_len(nonzero_from(coeff, 0));
            bitstream::syntax::lemma_uvarint_bytes_len(bitstream::syntax::zigzag(dx));
            bitstream::syntax::lemma_uvarint_bytes_len(bitstream::syntax::zigzag(dy));
        },
    }
}

pub proof fn lemma_lane_lens(list: Seq<syntax::Block>)
    requires
        forall|k: int| 0 <= k < list.len() ==> payload_bytes(#[trigger] list[k]).len() <= 262,
    ensures
        data_bytes(list).len() <= 262 * list.len(),
        single_bytes(list).len() <= 263 * list.len(),
    decreases list.len(),
{
    if list.len() > 0 {
        let head = list.drop_last();
        assert forall|k: int| 0 <= k < head.len() implies payload_bytes(#[trigger] head[k]).len()
            <= 262 by {
            assert(head[k] == list[k]);
        }
        lemma_lane_lens(head);
        assert(payload_bytes(list[list.len() - 1]).len() <= 262);
    }
}

/// The lanes of a plane take at most 263 bytes per block.
pub proof fn law_lane_lengths(list: Seq<syntax::Block>, refs: nat, w: int, h: int, q: int)
    requires
        0 < w,
        0 < h,
        plane_writable(list, refs, w, h, q),
    ensures
        control_bytes(list).len() == syntax::block_count(w, h),
        data_bytes(list).len() <= 262 * syntax::block_count(w, h),
        single_bytes(list).len() <= 263 * syntax::block_count(w, h),
{
    assert forall|k: int| 0 <= k < list.len() implies payload_bytes(#[trigger] list[k]).len() <= 262 by {
        syntax::lemma_block_place(w, h, k);
        let (bw, bh) = (
            syntax::cut(w, syntax::block_x(w, k)),
            syntax::cut(h, syntax::block_y(w, k)),
        );
        assert(0 < bw * bh <= 64) by (nonlinear_arith)
            requires
                0 < bw <= 8,
                0 < bh <= 8,
        ;
        lemma_payload_len(list[k]);
    }
    lemma_lane_lens(list);
}

// ---------------------------------------------------------------------------------------------
// Writers

/// How the tokens of a plane are laid out.
#[derive(Debug, Clone, Copy, PartialEq, Eq, Structural)]
pub enum BlockLayout {
    Single,
    Split,
}

/// The tokens of a plane.
pub enum SerializedBlocks {
    Single(Vec<u8>),
    Split { control: Vec<u8>, data: Vec<u8> },
}

impl SerializedBlocks {
    pub open spec fn lanes(&self) -> syntax::Lanes {
        match self {
            SerializedBlocks::Single(tokens) => syntax::Lanes::Single(tokens@),
            SerializedBlocks::Split { control, data } => syntax::Lanes::Split(control@, data@),
        }
    }
}

/// The block with its reference renumbered.
pub open spec fn remapped(block: syntax::Block, remap: Seq<usize>) -> syntax::Block {
    match block {
        syntax::Block::Palette { colors, index } => block,
        syntax::Block::Residual { mode, reference, dx, dy, coeff } => if mode == 3 {
            syntax::Block::Residual { mode, reference: remap[reference] as int, dx, dy, coeff }
        } else {
            block
        },
    }
}

/// The blocks of a list with their references renumbered.
pub open spec fn remapped_list(list: Seq<syntax::Block>, remap: Seq<usize>) -> Seq<syntax::Block> {
    Seq::new(list.len(), |k: int| remapped(list[k], remap))
}

/// What a list of coded blocks says.
pub open spec fn models(list: Seq<BlockRec>) -> Seq<syntax::Block> {
    Seq::new(list.len(), |k: int| list[k].model())
}

fn index_entry(idx: &Vec<u8>, k: usize) -> (r: u8)
    ensures
        r == index_at(idx@, k as int),
        r < 4,
{
    if k < idx.len() {
        idx[k] % 4
    } else {
        0
    }
}

fn put_packed(idx: &Vec<u8>, out: &mut Vec<u8>)
    requires
        idx@.len() <= 64,
    ensures
        final(out)@ == old(out)@ + packed_bytes(idx@),
{
    let n: usize = (idx.len() + 3) / 4;
    let mut j: usize = 0;
    let ghost start = out@;
    while j < n
        invariant
            idx@.len() <= 64,
            n == (idx@.len() + 3) / 4,
            j <= n,
            out@ == start + packed_bytes(idx@).take(j as int),
        decreases n - j,
    {
        let b: u8 = index_entry(idx, 4 * j) + 4 * index_entry(idx, 4 * j + 1) + 16 * index_entry(
            idx,
            4 * j + 2,
        ) + 64 * index_entry(idx, 4 * j + 3);
        out.push(b);
        proof {
            assert(packed_bytes(idx@)[j as int] == b);
            assert(out@ =~= start + packed_bytes(idx@).take(j + 1));
        }
        j = j + 1;
    }
    assert(packed_bytes(idx@).take(n as int) =~= packed_bytes(idx@));
}

fn count_nonzero(qcoeff: &[i32; 64]) -> (r: u64)
    ensures
        r == nonzero_from(scalar::ints(qcoeff@), 0),
{
    let mut n: u64 = 0;
    let mut i: usize = 64;
    while i > 0
        invariant
            i <= 64,
            n == nonzero_from(scalar::ints(qcoeff@), i as int),
            n <= 64 - i,
        decreases i,
    {
        i = i - 1;
        if qcoeff[i] != 0 {
            n = n + 1;
        }
    }
    n
}

fn put_coefficients(qcoeff: &[i32; 64], out: &mut Vec<u8>)
    ensures
        final(out)@ == old(out)@ + coefficient_bytes(scalar::ints(qcoeff@), 0),
{
    let mut i: usize = 0;
    let ghost coeff = scalar::ints(qcoeff@);
    while i < 64
        invariant
            i <= 64,
            coeff == scalar::ints(qcoeff@),
            out@ + coefficient_bytes(coeff, i as int) == old(out)@ + coefficient_bytes(coeff, 0),
        decreases 64 - i,
    {
        if qcoeff[i] != 0 {
            let ghost before = out@;
            put_uvarint(i as u64, out);
            put_svarint_i32(qcoeff[i], out);
            proof {
                assert(before + coefficient_bytes(coeff, i as int) =~= out@ + coefficient_bytes(
                    coeff,
                    i + 1,
                ));
            }
        }
        i = i + 1;
    }
    assert(out@ + Seq::<u8>::empty() =~= out@);
}

/// A block that the writers take.
pub open spec fn serializable(block: syntax::Block, remap: Seq<usize>) -> bool {
    match block {
        syntax::Block::Palette { colors, index } => colors.len() <= 4 && index.len() <= 64,
        syntax::Block::Residual { mode, reference, dx, dy, coeff } => mode == 3 ==> 0 <= reference
            < remap.len() && remap[reference] <= 255,
    }
}

/// Appends what the data lane holds for a block.
fn put_payload(block: &BlockRec, remap: &Vec<usize>, out: &mut Vec<u8>)
    requires
        serializable(block.model(), remap@),
    ensures
        final(out)@ == old(out)@ + payload_bytes(remapped(block.model(), remap@)),
{
    match block {
        BlockRec::Palette { colors, idx } => {
            out.push(colors.len() as u8);
            crate::bytes::put_slice(colors, out);
            out.push(idx.len() as u8);
            put_packed(idx, out);
            assert(out@ =~= old(out)@ + payload_bytes(remapped(block.model(), remap@)));
        },
        BlockRec::Residual { mode, ref_idx, dx2, dy2, qcoeff } => {
            if *mode == 3 {
                out.push(remap[*ref_idx] as u8);
                put_svarint_i32(*dx2, out);
                put_svarint_i32(*dy2, out);
            }
            put_uvarint(count_nonzero(qcoeff), out);
            put_coefficients(qcoeff, out);
            assert(out@ =~= old(out)@ + payload_bytes(remapped(block.model(), remap@)));
        },
    }
}

/// The mode byte of a coded block.
fn mode_byte(block: &BlockRec, Ghost(remap): Ghost<Seq<usize>>) -> (r: u8)
    ensures
        r == block_mode(remapped(block.model(), remap)),
{
    match block {
        BlockRec::Palette { colors, idx } => 4,
        BlockRec::Residual { mode, ref_idx, dx2, dy2, qcoeff } => *mode,
    }
}

/// Writes the blocks of a plane in one of the two layouts, with their references renumbered.
pub fn serialize_blocks(list: &Vec<BlockRec>, remap: &Vec<usize>, layout: BlockLayout) -> (r:
    SerializedBlocks)
    requires
        forall|k: int| 0 <= k < list@.len() ==> serializable((#[trigger] list@[k]).model(), remap@),
    ensures
        r.lanes() == written(
            remapped_list(models(list@), remap@),
            layout == BlockLayout::Split,
        ),
{
    let ghost all = remapped_list(models(list@), remap@);
    let mut control: Vec<u8> = Vec::new();
    let mut data: Vec<u8> = Vec::new();
    let split: bool = match layout {
        BlockLayout::Single => false,
        BlockLayout::Split => true,
    };
    let mut k: usize = 0;
    proof {
        assert(all.take(0) =~= Seq::empty());
        assert(control_bytes(all.take(0)) =~= Seq::empty());
    }
    while k < list.len()
        invariant
            forall|k: int|
                0 <= k < list@.len() ==> serializable((#[trigger] list@[k]).model(), remap@),
            all == remapped_list(models(list@), remap@),
            k <= list@.len(),
            split ==> control@ == control_bytes(all.take(k as int)) && data@ == data_bytes(
                all.take(k as int),
            ),
            !split ==> data@ == single_bytes(all.take(k as int)),
        decreases list@.len() - k,
    {
        let block: &BlockRec = &list[k];
        let mode: u8 = mode_byte(block, Ghost(remap@));
        proof {
            let head = all.take(k + 1);
            assert(head.drop_last() =~= all.take(k as int));
            assert(head.last() == remapped(list@[k as int].model(), remap@));
            assert(control_bytes(head) =~= control_bytes(all.take(k as int)).push(mode));
        }
        if split {
            control.push(mode);
        } else {
            data.push(mode);
        }
        let ghost before = data@;
        put_payload(block, remap, &mut data);
        proof {
            let head = all.take(k + 1);
            assert(!split ==> data@ =~= single_bytes(head));
        }
        k = k + 1;
    }
    assert(all.take(k as int) =~= all);
    if split {
        SerializedBlocks::Split { control, data }
    } else {
        SerializedBlocks::Single(data)
    }
}

} // verus!
