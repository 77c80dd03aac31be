//! What coded numbers and entropy blocks mean, byte by byte.
use crate::bitstream::syntax;
use crate::bitstream::v1::BitstreamError;
use crate::container::v1::layout_laws;
use vstd::prelude::*;

verus! {

// ---------------------------------------------------------------------------------------------
// Numbers

/// The number whose digits to the base of 128 are the lower seven bits of bytes, the lowest first.
pub open spec fn base128(s: Seq<u8>) -> int
    decreases s.len(),
{
    if s.len() == 0 {
        0
    } else {
        s[0] % 128 + 128 * base128(s.drop_first())
    }
}

/// A number that is read is what its bytes spell to the base of 128: all bytes but the last have the
/// top bit, the last one has not and is not zero unless it is the only one, and there are at most ten.
pub proof fn law_number_bytes(input: Seq<u8>, pos: int)
    requires
        0 <= pos,
    ensures
        syntax::read_uvarint(input, pos) matches Ok(v) ==> {
            let end = syntax::uvarint_end(input, pos);
            let s = input.subrange(pos, end);
            &&& pos < end <= input.len()
            &&& end <= pos + 10
            &&& v == base128(s)
            &&& s.last() < 128
            &&& s.len() > 1 ==> s.last() != 0
            &&& forall|i: int| 0 <= i < s.len() - 1 ==> #[trigger] s[i] >= 128
        },
{
    if let Ok(v) = syntax::read_uvarint(input, pos) {
        syntax::law_uvarint_canonical(input, pos);
        syntax::lemma_uvarint_bytes_len(v as nat);
        lemma_bytes(v as nat);
    }
}

proof fn lemma_bytes(v: nat)
    ensures
        ({
            let s = syntax::uvarint_bytes(v);
            &&& s.len() >= 1
            &&& v == base128(s)
            &&& s.last() < 128
            &&& v > 0 ==> s.last() != 0
            &&& s.len() > 1 ==> v > 0
            &&& forall|i: int| 0 <= i < s.len() - 1 ==> #[trigger] s[i] >= 128
        }),
    decreases v,
{
    reveal_with_fuel(base128, 2);
    let s = syntax::uvarint_bytes(v);
    if v >= 128 {
        lemma_bytes(v / 128);
        let rest = syntax::uvarint_bytes(v / 128);
        assert(s.drop_first() =~= rest);
        assert(s[0] % 128 == v % 128);
        assert forall|i: int| 0 <= i < s.len() - 1 implies #[trigger] s[i] >= 128 by {
            if i > 0 {
                assert(s[i] == rest[i - 1]);
            }
        }
    } else {
        assert(s.drop_first() =~= Seq::empty());
    }
}

/// A signed number is coded by twice its value, or, below zero, by one less than twice what cancels
/// it.
pub proof fn law_signed_numbers(v: int)
    ensures
        v >= 0 ==> syntax::zigzag(v) == v + v,
        v < 0 ==> syntax::zigzag(v) == -v - v - 1,
        syntax::svarint_bytes(v) == syntax::uvarint_bytes(syntax::zigzag(v)),
        base128(syntax::svarint_bytes(v)) == syntax::zigzag(v),
{
    lemma_bytes(syntax::zigzag(v));
}

// ---------------------------------------------------------------------------------------------
// Entropy blocks

/// A block that starts with a zero holds its bytes as they are, behind their number.
pub proof fn law_plain_block(input: Seq<u8>, max: nat, fixed: bool, data: Seq<u8>)
    requires
        input.len() >= 5,
        input[0] == 0,
    ensures
        (syntax::decompressed(input, max, fixed) == Ok::<Seq<u8>, BitstreamError>(data)) <==> data.len()
            <= max && layout_laws::four(input, 1) == data.len() && input.len() == 5 + data.len()
            && input.skip(5) == data,
{
    layout_laws::law_numbers(input, 1);
}

/// A block that is accepted says how many bytes it holds, no more than allowed, behind a zero or a
/// two; a one, where older tables are taken too.
pub proof fn law_block_head(input: Seq<u8>, max: nat, fixed: bool)
    ensures
        syntax::decompressed(input, max, fixed) matches Ok(data) ==> {
            &&& input.len() >= 5
            &&& input[0] == 0 || input[0] == 2 || (fixed && input[0] == 1)
            &&& layout_laws::four(input, 1) == data.len() <= max
        },
{
    if let Ok(data) = syntax::decompressed(input, max, fixed) {
        layout_laws::law_numbers(input, 1);
        if input[0] != 0 {
            let used = crate::bytes::le_value(input.subrange(5, 7));
            let (freq, pos) = syntax::block_model(input, used)->Ok_0;
            let n = layout_laws::four(input, 1) as nat;
            let lane = input.skip(pos + 4);
            lemma_count(
                lane,
                4,
                crate::bytes::le_value(lane.take(4)) as int,
                n,
                freq,
            );
        }
    }
}

proof fn lemma_count(coded: Seq<u8>, pos: int, x: int, n: nat, freq: Seq<u16>)
    ensures
        syntax::rans_symbols(coded, pos, x, n, freq) matches Ok(data) ==> data.len() == n,
    decreases n,
{
    if n > 0 {
        if let Some((next, y)) = syntax::refill(coded, pos, syntax::taken(freq, x)) {
            lemma_count(coded, next, y, (n - 1) as nat, freq);
        }
    }
}

/// The shares of the symbols below `s`, added up.
pub open spec fn below(freq: Seq<u16>, s: int) -> int
    decreases s,
{
    if s <= 0 {
        0
    } else {
        freq[s - 1] + below(freq, s - 1)
    }
}

pub proof fn lemma_below(freq: Seq<u16>, s: int)
    ensures
        below(freq, s) == syntax::cum(freq, s),
    decreases s,
{
    if s > 0 {
        lemma_below(freq, s - 1);
    }
}

/// One symbol of a coded lane: the state modulo 4096 lies in the share of the symbol, where the shares
/// of all symbols follow one another from zero to 4096. The next state is the share times the state
/// over 4096, and how far into the share it was; while it is below 2^23 bytes are moved in from below.
pub proof fn law_coded_symbol(
    coded: Seq<u8>,
    pos: int,
    x: int,
    n: nat,
    freq: Seq<u16>,
    data: Seq<u8>,
    s: int,
)
    requires
        freq.len() == 256,
        below(freq, 256) == 4096,
        0 <= pos,
        0 <= x,
        n > 0,
        syntax::rans_symbols(coded, pos, x, n, freq) == Ok::<Seq<u8>, BitstreamError>(data),
        0 <= s < 256,
        below(freq, s) <= x % 4096 < below(freq, s) + freq[s],
    ensures
        ({
            let y = freq[s] * (x / 4096) + x % 4096 - below(freq, s);
            let rest = Ok::<Seq<u8>, BitstreamError>(data.skip(1));
            let m = (n - 1) as nat;
            &&& data.len() == n
            &&& data[0] == s
            &&& y >= 8388608 ==> syntax::rans_symbols(coded, pos, y, m, freq) == rest
            &&& y < 8388608 && 256 * y + coded[pos] >= 8388608 ==> pos < coded.len()
                && syntax::rans_symbols(coded, pos + 1, 256 * y + coded[pos], m, freq) == rest
        }),
{
    lemma_below(freq, s);
    lemma_below(freq, 256);
    syntax::lemma_slot_unique(freq, s, x % 4096);
    let y = syntax::taken(freq, x);
    let m = (n - 1) as nat;
    let (next, z) = syntax::refill(coded, pos, y)->Some_0;
    lemma_count(coded, pos, x, n, freq);
    let back = syntax::rans_symbols(coded, next, z, m, freq)->Ok_0;
    assert(data == seq![s as u8] + back);
    assert(data.skip(1) =~= back);
    reveal_with_fuel(syntax::refill, 2);
}

/// A coded lane starts with its first state in four bytes, the lowest first, which is 2^23 or more.
pub proof fn law_coded_lane(coded: Seq<u8>, n: nat, freq: Seq<u16>, data: Seq<u8>)
    ensures
        syntax::rans_decoded(coded, n, freq) == Ok::<Seq<u8>, BitstreamError>(data) ==> coded.len() >= 4
            && layout_laws::four(coded, 0) >= 8388608 && syntax::rans_symbols(
            coded,
            4,
            layout_laws::four(coded, 0),
            n,
            freq,
        ) == Ok::<Seq<u8>, BitstreamError>(data),
{
    layout_laws::law_numbers(coded, 0);
    if coded.len() >= 4 {
        assert(coded.take(4) =~= coded.subrange(0, 4));
    }
}

/// A table entry: a symbol and its share, which is not zero nor above 4096; no symbol comes twice.
pub proof fn law_table_entry(input: Seq<u8>, pos: int, used: nat, freq: Seq<u16>)
    requires
        used > 0,
        0 <= pos,
        freq.len() == 256,
        syntax::scan_model(input, pos, used, freq) is Ok,
    ensures
        pos < input.len(),
        freq[input[pos] as int] == 0,
        syntax::read_uvarint(input, pos + 1) matches Ok(f) && 0 < f <= 4096 && syntax::scan_model(
            input,
            pos,
            used,
            freq,
        ) == syntax::scan_model(
            input,
            syntax::uvarint_end(input, pos + 1),
            (used - 1) as nat,
            freq.update(input[pos] as int, f as u16),
        ),
{
}

} // verus!
