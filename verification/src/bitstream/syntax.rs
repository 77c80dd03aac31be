//! The byte format of varints and entropy blocks, and what holds of it.
use crate::bitstream::v1::BitstreamError;
use crate::bytes;
use vstd::prelude::*;

verus! {

// ---------------------------------------------------------------------------------------------
// Varints

/// The canonical base-128 form of `v`: seven bits per byte, least significant first, the top bit
/// set on every byte but the last.
pub open spec fn uvarint_bytes(v: nat) -> Seq<u8>
    decreases v,
{
    if v < 128 {
        seq![v as u8]
    } else {
        seq![(v % 128 + 128) as u8] + uvarint_bytes(v / 128)
    }
}

/// Reads the varint byte number `i` at `pos` and those after it. The second component is the
/// position behind the last byte looked at.
pub open spec fn scan_uvarint(input: Seq<u8>, pos: int, i: int) -> (Result<nat, BitstreamError>, int)
    decreases 10 - i,
{
    if i >= 10 {
        (Err(BitstreamError::VarintTooLong), pos)
    } else if !(0 <= pos < input.len()) {
        (Err(BitstreamError::UnexpectedEof), pos)
    } else {
        let payload = input[pos] as nat % 128;
        if i == 9 && payload > 1 {
            (Err(BitstreamError::VarintOverflow), pos + 1)
        } else if input[pos] < 128 {
            if i > 0 && payload == 0 {
                (Err(BitstreamError::OverlongVarint), pos + 1)
            } else {
                (Ok(payload), pos + 1)
            }
        } else {
            let (rest, end) = scan_uvarint(input, pos + 1, i + 1);
            match rest {
                Ok(v) => (Ok(payload + 128 * v), end),
                Err(e) => (Err(e), end),
            }
        }
    }
}

/// The value of the varint at `pos`, or why there is none.
pub open spec fn read_uvarint(input: Seq<u8>, pos: int) -> Result<u64, BitstreamError> {
    match scan_uvarint(input, pos, 0).0 {
        Ok(v) => Ok(v as u64),
        Err(e) => Err(e),
    }
}

/// The position behind the bytes that reading the varint at `pos` looks at.
pub open spec fn uvarint_end(input: Seq<u8>, pos: int) -> int {
    scan_uvarint(input, pos, 0).1
}

/// How large the rest of a varint can be once `i` bytes are read.
pub open spec fn varint_room(i: int) -> nat
    decreases 9 - i,
{
    if i >= 9 {
        2
    } else {
        128 * varint_room(i + 1)
    }
}

pub proof fn lemma_varint_room_0()
    ensures
        varint_room(0) == 0x1_0000_0000_0000_0000,
{
    reveal_with_fuel(varint_room, 10);
}

pub proof fn lemma_varint_room_min(i: int)
    ensures
        varint_room(i) >= 2,
        i < 9 ==> varint_room(i) >= 256,
    decreases 9 - i,
{
    if i < 9 {
        lemma_varint_room_min(i + 1);
    }
}

pub proof fn lemma_scan_uvarint(input: Seq<u8>, pos: int, i: int)
    requires
        0 <= i <= 10,
        0 <= pos,
    ensures
        scan_uvarint(input, pos, i).1 >= pos,
        pos <= input.len() ==> scan_uvarint(input, pos, i).1 <= input.len(),
        scan_uvarint(input, pos, i).0 matches Ok(v) ==> {
            &&& v < varint_room(i)
            &&& scan_uvarint(input, pos, i).1 > pos
            &&& scan_uvarint(input, pos, i).1 <= input.len()
            &&& i > 0 ==> v > 0
            &&& uvarint_bytes(v) == input.subrange(pos, scan_uvarint(input, pos, i).1)
        },
    decreases 10 - i,
{
    if i < 10 && pos < input.len() {
        let payload = input[pos] as nat % 128;
        if i == 9 && payload > 1 {
        } else if input[pos] < 128 {
            lemma_varint_room_min(i);
            assert(input.subrange(pos, pos + 1) =~= seq![input[pos]]);
        } else {
            lemma_scan_uvarint(input, pos + 1, i + 1);
            let (rest, end) = scan_uvarint(input, pos + 1, i + 1);
            if let Ok(v) = rest {
                let whole = payload + 128 * v;
                assert(i < 9);
                assert(v > 0);
                assert(whole % 128 == payload);
                assert(whole / 128 == v);
                assert(seq![input[pos]] + input.subrange(pos + 1, end) =~= input.subrange(pos, end));
            }
        }
    }
}

/// Whatever [`read_uvarint`] accepts is the canonical form of the value it gives: no two byte
/// sequences spell the same number.
pub proof fn law_uvarint_canonical(input: Seq<u8>, pos: int)
    requires
        0 <= pos,
    ensures
        read_uvarint(input, pos) matches Ok(v) ==> {
            &&& pos < uvarint_end(input, pos) <= input.len()
            &&& input.subrange(pos, uvarint_end(input, pos)) == uvarint_bytes(v as nat)
        },
{
    lemma_scan_uvarint(input, pos, 0);
    lemma_varint_room_0();
}

pub proof fn lemma_uvarint_bytes_len(v: nat)
    ensures
        uvarint_bytes(v).len() >= 1,
        v < 128 ==> uvarint_bytes(v).len() == 1,
        v < 16384 ==> uvarint_bytes(v).len() <= 2,
        v < 2097152 ==> uvarint_bytes(v).len() <= 3,
        v < 0x1_0000_0000_0000_0000 ==> uvarint_bytes(v).len() <= 10,
{
    reveal_with_fuel(uvarint_bytes, 11);
}

pub proof fn lemma_scan_of_bytes(input: Seq<u8>, pos: int, i: int, v: nat)
    requires
        0 <= i < 10,
        0 <= pos,
        pos + uvarint_bytes(v).len() <= input.len(),
        input.subrange(pos, pos + uvarint_bytes(v).len()) == uvarint_bytes(v),
        v < varint_room(i),
        i > 0 ==> v > 0,
    ensures
        scan_uvarint(input, pos, i) == (Ok::<nat, BitstreamError>(v), pos + uvarint_bytes(v).len()),
    decreases v,
{
    let b = uvarint_bytes(v);
    assert(b.len() >= 1);
    assert(input[pos] == b[0]) by {
        assert(input.subrange(pos, pos + b.len())[0] == input[pos]);
    }
    if v >= 128 {
        let rest = uvarint_bytes(v / 128);
        assert(b.len() == 1 + rest.len());
        assert(input.subrange(pos + 1, pos + 1 + rest.len()) =~= input.subrange(pos, pos + b.len()).skip(1));
        assert(b.skip(1) =~= rest);
        assert(i < 9);
        lemma_scan_of_bytes(input, pos + 1, i + 1, v / 128);
        assert(input[pos] as nat % 128 == v % 128);
    }
}

/// Reading a written varint gives the value written, wherever it stands, and ends behind it.
pub proof fn law_uvarint_write_read(prefix: Seq<u8>, v: u64, suffix: Seq<u8>)
    ensures
        read_uvarint(prefix + uvarint_bytes(v as nat) + suffix, prefix.len() as int) == Ok::<
            u64,
            BitstreamError,
        >(v),
        uvarint_end(prefix + uvarint_bytes(v as nat) + suffix, prefix.len() as int) == prefix.len()
            + uvarint_bytes(v as nat).len(),
{
    let whole = prefix + uvarint_bytes(v as nat) + suffix;
    assert(whole.subrange(
        prefix.len() as int,
        prefix.len() as int + uvarint_bytes(v as nat).len(),
    ) =~= uvarint_bytes(v as nat));
    lemma_varint_room_0();
    lemma_scan_of_bytes(whole, prefix.len() as int, 0, v as nat);
}

/// As [`law_uvarint_write_read`], for a varint that stands at `pos` of `input`.
pub proof fn lemma_uvarint_at(input: Seq<u8>, pos: int, v: u64)
    requires
        0 <= pos,
        pos + uvarint_bytes(v as nat).len() <= input.len(),
        input.subrange(pos, pos + uvarint_bytes(v as nat).len()) == uvarint_bytes(v as nat),
    ensures
        read_uvarint(input, pos) == Ok::<u64, BitstreamError>(v),
        uvarint_end(input, pos) == pos + uvarint_bytes(v as nat).len(),
{
    lemma_varint_room_0();
    lemma_scan_of_bytes(input, pos, 0, v as nat);
}

/// The ZigZag number of `v`: 0, -1, 1, -2, 2, ... become 0, 1, 2, 3, 4, ...
pub open spec fn zigzag(v: int) -> nat {
    if v >= 0 {
        (2 * v) as nat
    } else {
        (-2 * v - 1) as nat
    }
}

/// The integer whose ZigZag number is `u`.
pub open spec fn unzigzag(u: nat) -> int {
    if u % 2 == 0 {
        u as int / 2
    } else {
        -((u as int + 1) / 2)
    }
}

/// ZigZag numbering is a bijection.
pub proof fn law_zigzag_inverse(v: int, u: nat)
    ensures
        unzigzag(zigzag(v)) == v,
        zigzag(unzigzag(u)) == u,
{
}

/// The canonical signed varint of `v`.
pub open spec fn svarint_bytes(v: int) -> Seq<u8> {
    uvarint_bytes(zigzag(v))
}

/// The signed varint at `pos`, or why there is none.
pub open spec fn read_svarint(input: Seq<u8>, pos: int) -> Result<i32, BitstreamError> {
    match read_uvarint(input, pos) {
        Ok(u) => if u <= u32::MAX {
            Ok(unzigzag(u as nat) as i32)
        } else {
            Err(BitstreamError::VarintOverflow)
        },
        Err(e) => Err(e),
    }
}

/// Reading a written signed varint gives the value written and ends behind it.
pub proof fn law_svarint_write_read(prefix: Seq<u8>, v: i32, suffix: Seq<u8>)
    ensures
        read_svarint(prefix + svarint_bytes(v as int) + suffix, prefix.len() as int) == Ok::<
            i32,
            BitstreamError,
        >(v),
        uvarint_end(prefix + svarint_bytes(v as int) + suffix, prefix.len() as int) == prefix.len()
            + svarint_bytes(v as int).len(),
{
    law_uvarint_write_read(prefix, zigzag(v as int) as u64, suffix);
}

pub proof fn lemma_svarint_at(input: Seq<u8>, pos: int, v: i32)
    requires
        0 <= pos,
        pos + svarint_bytes(v as int).len() <= input.len(),
        input.subrange(pos, pos + svarint_bytes(v as int).len()) == svarint_bytes(v as int),
    ensures
        read_svarint(input, pos) == Ok::<i32, BitstreamError>(v),
        uvarint_end(input, pos) == pos + svarint_bytes(v as int).len(),
{
    lemma_uvarint_at(input, pos, zigzag(v as int) as u64);
}

// ---------------------------------------------------------------------------------------------
// Frequency models

/// The scale that the frequencies of a model sum to.
pub const SCALE: u32 = 4096;

/// The least state of the coder between two symbols.
pub const LOWEST_STATE: u32 = 8_388_608;

/// The sum of the frequencies of the symbols below `s`.
pub open spec fn cum(freq: Seq<u16>, s: int) -> nat
    decreases s,
{
    if s <= 0 {
        0
    } else {
        cum(freq, s - 1) + freq[s - 1] as nat
    }
}

/// One frequency per byte value, and they share out the whole scale.
pub open spec fn valid_model(freq: Seq<u16>) -> bool {
    freq.len() == 256 && cum(freq, 256) == SCALE
}

/// The slots of the scale are dealt to the symbols in order; `x` is one of those of `s`.
pub open spec fn in_slot(freq: Seq<u16>, s: int, x: int) -> bool {
    0 <= s < 256 && cum(freq, s) <= x < cum(freq, s) + freq[s]
}

/// The symbol that owns slot `x`.
pub open spec fn slot_symbol(freq: Seq<u16>, x: int) -> int {
    choose|s: int| in_slot(freq, s, x)
}

pub proof fn lemma_cum_mono(freq: Seq<u16>, a: int, b: int)
    requires
        a <= b,
    ensures
        cum(freq, a) <= cum(freq, b),
    decreases b - a,
{
    if a < b {
        lemma_cum_mono(freq, a, b - 1);
    }
}

pub proof fn lemma_slot_unique(freq: Seq<u16>, s: int, x: int)
    requires
        in_slot(freq, s, x),
    ensures
        slot_symbol(freq, x) == s,
{
    let t = slot_symbol(freq, x);
    assert(in_slot(freq, t, x));
    if s < t {
        lemma_cum_mono(freq, s + 1, t);
    }
    if t < s {
        lemma_cum_mono(freq, t + 1, s);
    }
}

proof fn lemma_slot_search(freq: Seq<u16>, x: int, n: int)
    requires
        0 <= n <= 256,
        0 <= x < cum(freq, n),
    ensures
        exists|s: int| in_slot(freq, s, x),
    decreases n,
{
    if x < cum(freq, n - 1) {
        lemma_slot_search(freq, x, n - 1);
    } else {
        assert(in_slot(freq, n - 1, x));
    }
}

pub proof fn lemma_slot_symbol(freq: Seq<u16>, x: int)
    requires
        valid_model(freq),
        0 <= x < SCALE,
    ensures
        in_slot(freq, slot_symbol(freq, x), x),
        cum(freq, slot_symbol(freq, x)) + freq[slot_symbol(freq, x)] <= SCALE,
{
    lemma_slot_search(freq, x, 256);
    lemma_cum_mono(freq, slot_symbol(freq, x) + 1, 256);
}

pub proof fn lemma_cum_agree(a: Seq<u16>, b: Seq<u16>, s: int)
    requires
        forall|i: int| 0 <= i < s ==> a[i] == b[i],
    ensures
        cum(a, s) == cum(b, s),
    decreases s,
{
    if s > 0 {
        lemma_cum_agree(a, b, s - 1);
    }
}

pub proof fn lemma_cum_update(freq: Seq<u16>, i: int, v: u16, s: int)
    requires
        0 <= i < freq.len(),
        s <= freq.len(),
    ensures
        cum(freq.update(i, v), s) == cum(freq, s) + (if i < s {
            v - freq[i]
        } else {
            0
        }),
    decreases s,
{
    if s > 0 {
        lemma_cum_update(freq, i, v, s - 1);
    }
}

// ---------------------------------------------------------------------------------------------
// The range coder

/// The state that `x` becomes when the symbol in its low slot is taken out.
pub open spec fn taken(freq: Seq<u16>, x: int) -> int {
    let slot = x % SCALE as int;
    let s = slot_symbol(freq, slot);
    freq[s] * (x / SCALE as int) + slot - cum(freq, s)
}

/// Reads bytes at `pos` until the state is no longer below the lowest one. The result is the new
/// position and state; `None` where the bytes run out.
pub open spec fn refill(coded: Seq<u8>, pos: int, x: int) -> Option<(int, int)>
    decreases coded.len() - pos,
{
    if x >= LOWEST_STATE {
        Some((pos, x))
    } else if !(0 <= pos < coded.len()) {
        None
    } else {
        refill(coded, pos + 1, x * 256 + coded[pos])
    }
}

/// The `n` symbols that follow from state `x` and the bytes at `pos`, which must be used up.
pub open spec fn rans_symbols(coded: Seq<u8>, pos: int, x: int, n: nat, freq: Seq<u16>) -> Result<
    Seq<u8>,
    BitstreamError,
>
    decreases n,
{
    if n == 0 {
        if pos == coded.len() {
            Ok(Seq::empty())
        } else {
            Err(BitstreamError::TrailingData)
        }
    } else {
        let s = slot_symbol(freq, x % SCALE as int);
        match refill(coded, pos, taken(freq, x)) {
            None => Err(BitstreamError::UnexpectedEof),
            Some((next, y)) => prepend(
                seq![s as u8],
                rans_symbols(coded, next, y, (n - 1) as nat, freq),
            ),
        }
    }
}

/// `front` put before a decoded sequence; an error stays as it is.
pub open spec fn prepend(front: Seq<u8>, r: Result<Seq<u8>, BitstreamError>) -> Result<
    Seq<u8>,
    BitstreamError,
> {
    match r {
        Ok(back) => Ok(front + back),
        Err(e) => Err(e),
    }
}

/// Decodes `n` symbols from a coded lane: a four-byte state and the refill bytes.
pub open spec fn rans_decoded(coded: Seq<u8>, n: nat, freq: Seq<u16>) -> Result<
    Seq<u8>,
    BitstreamError,
> {
    if coded.len() < 4 {
        Err(BitstreamError::UnexpectedEof)
    } else if bytes::le_value(coded.take(4)) < LOWEST_STATE {
        Err(BitstreamError::BadEntropyState)
    } else {
        rans_symbols(coded, 4, bytes::le_value(coded.take(4)) as int, n, freq)
    }
}

/// Moves low bytes of the state to the front of `tail` until the state is below `cap`.
pub open spec fn shed(x: int, tail: Seq<u8>, cap: int) -> (int, Seq<u8>)
    decreases x,
{
    if x < cap || x <= 0 {
        (x, tail)
    } else {
        shed(x / 256, seq![(x % 256) as u8] + tail, cap)
    }
}

/// The state and refill bytes from which `data` comes out. Coding starts at the last symbol.
pub open spec fn rans_state(data: Seq<u8>, freq: Seq<u16>) -> (int, Seq<u8>)
    decreases data.len(),
{
    if data.len() == 0 {
        (LOWEST_STATE as int, Seq::empty())
    } else {
        let (x0, tail0) = rans_state(data.drop_first(), freq);
        let s = data[0] as int;
        let f = freq[s] as int;
        let (x, tail) = shed(x0, tail0, 524288 * f);
        (x / f * SCALE + x % f + cum(freq, s), tail)
    }
}

/// The coded lane of `data`.
pub open spec fn rans_coded(data: Seq<u8>, freq: Seq<u16>) -> Seq<u8> {
    bytes::le_bytes(rans_state(data, freq).0, 4) + rans_state(data, freq).1
}

/// Every symbol of `data` has a share of the scale.
pub open spec fn covers(freq: Seq<u16>, data: Seq<u8>) -> bool {
    forall|i: int| 0 <= i < data.len() ==> freq[#[trigger] data[i] as int] > 0
}

/// What [`shed`] leaves, and that refilling undoes it.
pub proof fn lemma_shed(x: int, tail: Seq<u8>, cap: int)
    requires
        524288 <= cap,
        x >= 0,
    ensures
        ({
            let (y, t) = shed(x, tail, cap);
            &&& 0 <= y < cap
            &&& x < cap ==> y == x && t == tail
            &&& x >= cap ==> y * 256 >= cap - 255 && y <= x / 256
            &&& t.len() >= tail.len()
            &&& t.skip(t.len() - tail.len()) == tail
        }),
    decreases x,
{
    if x >= cap {
        let first = seq![(x % 256) as u8] + tail;
        lemma_shed(x / 256, first, cap);
        let (y, t) = shed(x / 256, first, cap);
        assert(t.skip(t.len() - tail.len()) =~= t.skip(t.len() - first.len()).skip(1));
        assert(first.skip(1) =~= tail);
    } else {
        assert(tail.skip(0) =~= tail);
    }
}

/// Refilling from what [`shed`] moved out gives the state back.
pub proof fn lemma_refill_undoes_shed(x: int, tail: Seq<u8>, cap: int, coded: Seq<u8>, pos: int)
    requires
        524288 <= cap,
        0 <= pos,
        0 <= x,
        pos + shed(x, tail, cap).1.len() == coded.len(),
        coded.skip(pos) == shed(x, tail, cap).1,
        x < 256 * LOWEST_STATE,
    ensures
        refill(coded, pos, shed(x, tail, cap).0) == refill(
            coded,
            coded.len() - tail.len(),
            x,
        ),
    decreases x,
{
    if x < cap {
    } else {
        let first = seq![(x % 256) as u8] + tail;
        lemma_shed(x, tail, cap);
        lemma_shed(x / 256, first, cap);
        lemma_refill_undoes_shed(x / 256, first, cap, coded, pos);
        // One byte before the tail stands the byte that went out first.
        let at = coded.len() - first.len();
        let t = shed(x / 256, first, cap).1;
        assert(coded[at] == (x % 256) as u8) by {
            assert(coded.skip(pos)[t.len() - first.len()] == coded[at]);
            assert(t.skip(t.len() - first.len())[0] == first[0]);
        }
        assert(x / 256 < LOWEST_STATE);
        assert(refill(coded, at, x / 256) == refill(coded, at + 1, (x / 256) * 256 + coded[at]));
    }
}

pub proof fn lemma_rans_state(data: Seq<u8>, freq: Seq<u16>)
    requires
        valid_model(freq),
        covers(freq, data),
    ensures
        LOWEST_STATE <= rans_state(data, freq).0 < 256 * LOWEST_STATE,
    decreases data.len(),
{
    if data.len() > 0 {
        let rest = data.drop_first();
        assert forall|i: int| 0 <= i < rest.len() implies freq[#[trigger] rest[i] as int] > 0 by {
            assert(rest[i] == data[i + 1]);
        }
        lemma_rans_state(rest, freq);
        let (x0, tail0) = rans_state(rest, freq);
        let s = data[0] as int;
        let f = freq[s] as int;
        assert(f > 0);
        lemma_cum_mono(freq, s + 1, 256);
        lemma_shed(x0, tail0, 524288 * f);
        let (x, tail) = shed(x0, tail0, 524288 * f);
        lemma_state_range(x, f, cum(freq, s) as int);
    }
}

proof fn lemma_state_range(x: int, f: int, c: int)
    requires
        0 < f <= 4096,
        0 <= c,
        c + f <= 4096,
        2048 * f <= x < 524288 * f,
    ensures
        8_388_608 <= x / f * 4096 + x % f + c < 2_147_483_648,
        (x / f * 4096 + x % f + c) % 4096 == x % f + c,
        (x / f * 4096 + x % f + c) / 4096 == x / f,
        0 <= x % f < f,
        f * (x / f) + x % f == x,
{
    vstd::arithmetic::div_mod::lemma_fundamental_div_mod(x, f);
    vstd::arithmetic::div_mod::lemma_mod_bound(x, f);
    let q = x / f;
    assert(q >= 2048) by (nonlinear_arith)
        requires
            2048 * f <= x,
            x == f * q + x % f,
            0 <= x % f < f,
            f > 0,
    ;
    assert(q < 524288) by (nonlinear_arith)
        requires
            x < 524288 * f,
            x == f * q + x % f,
            0 <= x % f < f,
            f > 0,
    ;
}

/// Decoding a coded lane, with the model it was coded with, gives the data back.
pub proof fn lemma_rans_symbols_of_state(data: Seq<u8>, freq: Seq<u16>, coded: Seq<u8>, pos: int)
    requires
        valid_model(freq),
        covers(freq, data),
        0 <= pos <= coded.len(),
        coded.skip(pos) == rans_state(data, freq).1,
    ensures
        rans_symbols(coded, pos, rans_state(data, freq).0, data.len(), freq) == Ok::<
            Seq<u8>,
            BitstreamError,
        >(data),
    decreases data.len(),
{
    if data.len() == 0 {
        assert(coded.skip(pos).len() == 0);
        assert(data =~= Seq::empty());
    } else {
        let rest = data.drop_first();
        assert forall|i: int| 0 <= i < rest.len() implies freq[#[trigger] rest[i] as int] > 0 by {
            assert(rest[i] == data[i + 1]);
        }
        lemma_rans_state(rest, freq);
        let (x0, tail0) = rans_state(rest, freq);
        let s = data[0] as int;
        let f = freq[s] as int;
        assert(f > 0);
        lemma_cum_mono(freq, s + 1, 256);
        lemma_shed(x0, tail0, 524288 * f);
        let (x, tail) = shed(x0, tail0, 524288 * f);
        lemma_state_range(x, f, cum(freq, s) as int);
        let y = x / f * 4096 + x % f + cum(freq, s);
        assert(in_slot(freq, s, y % 4096));
        lemma_slot_unique(freq, s, y % 4096);
        assert(taken(freq, y) == x);
        lemma_refill_undoes_shed(x0, tail0, 524288 * f, coded, pos);
        let next = coded.len() - tail0.len();
        assert(refill(coded, pos, x) == Some((next, x0)));
        assert(coded.skip(next) =~= tail0) by {
            assert(coded.skip(next) =~= coded.skip(pos).skip(next - pos));
        }
        lemma_rans_symbols_of_state(rest, freq, coded, next);
        assert(seq![s as u8] + rest =~= data);
    }
}

/// Decoding a coded lane, with the model it was coded with, gives the data back.
pub proof fn law_rans_code_decode(data: Seq<u8>, freq: Seq<u16>)
    requires
        valid_model(freq),
        covers(freq, data),
    ensures
        rans_decoded(rans_coded(data, freq), data.len(), freq) == Ok::<Seq<u8>, BitstreamError>(
            data,
        ),
{
    lemma_rans_state(data, freq);
    let (x, tail) = rans_state(data, freq);
    let coded = rans_coded(data, freq);
    bytes::lemma_le_bounds();
    bytes::lemma_le_write_read(x, 4);
    assert(coded.take(4) =~= bytes::le_bytes(x, 4));
    assert(coded.skip(4) =~= tail);
    lemma_rans_symbols_of_state(data, freq, coded, 4);
}

// ---------------------------------------------------------------------------------------------
// Choosing a model

/// How often the byte `s` occurs in `data`.
pub open spec fn occurrences(data: Seq<u8>, s: int) -> nat
    decreases data.len(),
{
    if data.len() == 0 {
        0
    } else {
        occurrences(data.drop_last(), s) + (if data.last() == s {
            1nat
        } else {
            0nat
        })
    }
}

pub open spec fn counts(data: Seq<u8>) -> Seq<nat> {
    Seq::new(256, |s: int| occurrences(data, s))
}

/// The share of the scale due to `count` occurrences among `n`, rounded down, but at least one
/// slot for a symbol that occurs.
pub open spec fn quota(count: nat, n: nat) -> u16 {
    if count == 0 {
        0
    } else if count * 4096 / n == 0 {
        1
    } else {
        (count * 4096 / n) as u16
    }
}

/// What rounding a share down cuts off.
pub open spec fn leftover(count: nat, n: nat) -> nat {
    if count == 0 {
        0
    } else {
        count * 4096 % n
    }
}

/// The last among the symbols below `i` that occur and have the greatest leftover; -1 if none
/// occurs.
pub open spec fn most_short(count: Seq<nat>, left: Seq<nat>, i: int) -> int
    decreases i,
{
    if i <= 0 {
        -1
    } else {
        let best = most_short(count, left, i - 1);
        if count[i - 1] != 0 && (best < 0 || left[i - 1] >= left[best]) {
            i - 1
        } else {
            best
        }
    }
}

/// Gives `k` more slots, one at a time, each to the symbol that was cut most.
pub open spec fn grown(freq: Seq<u16>, count: Seq<nat>, left: Seq<nat>, k: nat) -> Seq<u16>
    decreases k,
{
    if k == 0 {
        freq
    } else {
        let s = most_short(count, left, 256);
        grown(freq.update(s, (freq[s] + 1) as u16), count, left.update(s, 0), (k - 1) as nat)
    }
}

/// The last among the symbols below `i` with two slots or more that occurs most often; -1 if none
/// has two.
pub open spec fn most_rich(freq: Seq<u16>, count: Seq<nat>, i: int) -> int
    decreases i,
{
    if i <= 0 {
        -1
    } else {
        let best = most_rich(freq, count, i - 1);
        if freq[i - 1] > 1 && (best < 0 || count[i - 1] >= count[best]) {
            i - 1
        } else {
            best
        }
    }
}

/// Takes `k` slots back, one at a time, each from the most frequent symbol that can spare one.
pub open spec fn shrunk(freq: Seq<u16>, count: Seq<nat>, k: nat) -> Seq<u16>
    decreases k,
{
    if k == 0 {
        freq
    } else {
        let s = most_rich(freq, count, 256);
        shrunk(freq.update(s, (freq[s] - 1) as u16), count, (k - 1) as nat)
    }
}

pub open spec fn quotas(data: Seq<u8>) -> Seq<u16> {
    Seq::new(256, |s: int| quota(occurrences(data, s), data.len()))
}

pub open spec fn leftovers(data: Seq<u8>) -> Seq<nat> {
    Seq::new(256, |s: int| leftover(occurrences(data, s), data.len()))
}

/// The model that `data` is coded with.
pub open spec fn model_for(data: Seq<u8>) -> Seq<u16> {
    if data.len() == 0 {
        Seq::new(
            256,
            |s: int|
                if s == 0 {
                    4096u16
                } else {
                    0u16
                },
        )
    } else {
        let start = quotas(data);
        let sum = cum(start, 256);
        if sum < SCALE {
            grown(start, counts(data), leftovers(data), (SCALE - sum) as nat)
        } else {
            shrunk(start, counts(data), (sum - SCALE) as nat)
        }
    }
}

pub proof fn lemma_occurrences(data: Seq<u8>, s: int)
    ensures
        occurrences(data, s) <= data.len(),
        forall|i: int| 0 <= i < data.len() && data[i] == s ==> occurrences(data, s) > 0,
    decreases data.len(),
{
    if data.len() > 0 {
        lemma_occurrences(data.drop_last(), s);
        assert forall|i: int| 0 <= i < data.len() && data[i] == s implies occurrences(data, s) > 0 by {
            if i < data.len() - 1 {
                assert(data.drop_last()[i] == s);
            }
        }
    }
}

pub proof fn lemma_quota(count: nat, n: nat)
    requires
        count <= n,
        n > 0,
    ensures
        count > 0 ==> 1 <= quota(count, n) <= 4096,
        count == 0 ==> quota(count, n) == 0,
        0 <= count * 4096 / n <= 4096,
        0 <= count * 4096 % n < n,
{
    let scaled = count * 4096;
    assert(scaled / n <= 4096) by (nonlinear_arith)
        requires
            scaled <= 4096 * n,
            n > 0,
    ;
    assert(scaled / n >= 0) by (nonlinear_arith)
        requires
            scaled >= 0,
            n > 0,
    ;
    assert(0 <= scaled % n < n) by (nonlinear_arith)
        requires
            n > 0,
    ;
}

pub proof fn lemma_most_short(count: Seq<nat>, left: Seq<nat>, i: int)
    requires
        0 <= i <= count.len(),
    ensures
        -1 <= most_short(count, left, i) < i,
        most_short(count, left, i) >= 0 ==> count[most_short(count, left, i)] > 0,
        forall|j: int| 0 <= j < i && count[j] > 0 ==> most_short(count, left, i) >= 0,
    decreases i,
{
    if i > 0 {
        lemma_most_short(count, left, i - 1);
    }
}

pub proof fn lemma_most_rich(freq: Seq<u16>, count: Seq<nat>, i: int)
    requires
        0 <= i <= freq.len(),
    ensures
        -1 <= most_rich(freq, count, i) < i,
        most_rich(freq, count, i) >= 0 ==> freq[most_rich(freq, count, i)] > 1,
        most_rich(freq, count, i) < 0 ==> cum(freq, i) <= i,
    decreases i,
{
    if i > 0 {
        lemma_most_rich(freq, count, i - 1);
    }
}

pub proof fn lemma_grown(freq: Seq<u16>, count: Seq<nat>, left: Seq<nat>, k: nat)
    requires
        freq.len() == 256,
        count.len() == 256,
        left.len() == 256,
        cum(freq, 256) + k == SCALE,
        exists|s: int| 0 <= s < 256 && count[s] > 0,
    ensures
        valid_model(grown(freq, count, left, k)),
        forall|s: int| 0 <= s < 256 ==> grown(freq, count, left, k)[s] >= freq[s],
    decreases k,
{
    if k > 0 {
        lemma_most_short(count, left, 256);
        let s = most_short(count, left, 256);
        lemma_cum_mono(freq, s + 1, 256);
        lemma_cum_update(freq, s, (freq[s] + 1) as u16, 256);
        let next = freq.update(s, (freq[s] + 1) as u16);
        lemma_grown(next, count, left.update(s, 0), (k - 1) as nat);
        assert forall|i: int| 0 <= i < 256 implies grown(freq, count, left, k)[i] >= freq[i] by {
            assert(next[i] >= freq[i]);
        }
    }
}

pub proof fn lemma_shrunk(freq: Seq<u16>, count: Seq<nat>, k: nat)
    requires
        freq.len() == 256,
        count.len() == 256,
        cum(freq, 256) == SCALE + k,
    ensures
        valid_model(shrunk(freq, count, k)),
        forall|s: int| 0 <= s < 256 && freq[s] > 0 ==> shrunk(freq, count, k)[s] > 0,
    decreases k,
{
    if k > 0 {
        lemma_most_rich(freq, count, 256);
        let s = most_rich(freq, count, 256);
        lemma_cum_update(freq, s, (freq[s] - 1) as u16, 256);
        let next = freq.update(s, (freq[s] - 1) as u16);
        lemma_shrunk(next, count, (k - 1) as nat);
        assert forall|i: int| 0 <= i < 256 && freq[i] > 0 implies shrunk(freq, count, k)[i] > 0 by {
            assert(next[i] > 0);
        }
    }
}

pub proof fn lemma_cum_bound(freq: Seq<u16>, s: int, each: nat)
    requires
        0 <= s <= freq.len(),
        forall|i: int| 0 <= i < s ==> freq[i] <= each,
    ensures
        cum(freq, s) <= s * each,
    decreases s,
{
    if s > 0 {
        lemma_cum_bound(freq, s - 1, each);
        assert(s * each == (s - 1) * each + each) by (nonlinear_arith);
    }
}

/// The chosen model deals out the whole scale and has a slot for every symbol of the data.
pub proof fn law_model_for(data: Seq<u8>)
    ensures
        valid_model(model_for(data)),
        covers(model_for(data), data),
{
    if data.len() == 0 {
        let m = model_for(data);
        let zero = Seq::new(256, |s: int| 0u16);
        lemma_cum_bound(zero, 256, 0);
        lemma_cum_update(zero, 0, 4096, 256);
        assert(zero.update(0, 4096) =~= m);
    } else {
        let start = quotas(data);
        let count = counts(data);
        let sum = cum(start, 256);
        assert forall|s: int| 0 <= s < 256 implies (#[trigger] start[s] > 0 <==> count[s] > 0) by {
            lemma_occurrences(data, s);
            lemma_quota(occurrences(data, s), data.len());
        }
        lemma_occurrences(data, data[0] as int);
        assert(count[data[0] as int] > 0);
        if sum < SCALE {
            lemma_grown(start, count, leftovers(data), (SCALE - sum) as nat);
        } else {
            lemma_shrunk(start, count, (sum - SCALE) as nat);
        }
        assert forall|i: int| 0 <= i < data.len() implies model_for(data)[#[trigger] data[i] as int] > 0 by {
            lemma_occurrences(data, data[i] as int);
            assert(count[data[i] as int] > 0);
            assert(start[data[i] as int] > 0);
        }
    }
}

// ---------------------------------------------------------------------------------------------
// Entropy blocks

/// The table of a model, from symbol `s` on: each symbol that has slots and their number.
pub open spec fn model_bytes(freq: Seq<u16>, s: int) -> Seq<u8>
    decreases 256 - s,
{
    if s >= 256 {
        Seq::empty()
    } else if freq[s] == 0 {
        model_bytes(freq, s + 1)
    } else {
        seq![s as u8] + uvarint_bytes(freq[s] as nat) + model_bytes(freq, s + 1)
    }
}

/// How many symbols from `s` on have slots.
pub open spec fn used_from(freq: Seq<u16>, s: int) -> nat
    decreases 256 - s,
{
    if s >= 256 {
        0
    } else if freq[s] == 0 {
        used_from(freq, s + 1)
    } else {
        used_from(freq, s + 1) + 1
    }
}

/// A block that holds `data` as it is.
pub open spec fn raw_block(data: Seq<u8>) -> Seq<u8> {
    seq![0u8] + bytes::le_bytes(data.len() as int, 4) + data
}

/// A block that holds the model and the coded lane of `data`.
pub open spec fn coded_block(data: Seq<u8>, freq: Seq<u16>) -> Seq<u8> {
    let coded = rans_coded(data, freq);
    seq![2u8] + bytes::le_bytes(data.len() as int, 4) + bytes::le_bytes(
        used_from(freq, 0) as int,
        2,
    ) + model_bytes(freq, 0) + bytes::le_bytes(coded.len() as int, 4) + coded
}

/// The shorter of the two blocks; the raw one where neither is.
pub open spec fn block_with(data: Seq<u8>, freq: Seq<u16>) -> Seq<u8> {
    if coded_block(data, freq).len() >= data.len() + 5 {
        raw_block(data)
    } else {
        coded_block(data, freq)
    }
}

/// The entropy block of `data`.
pub open spec fn compressed(data: Seq<u8>) -> Seq<u8> {
    block_with(data, model_for(data))
}

/// Reads `used` table entries at `pos` into `freq`.
pub open spec fn scan_model(input: Seq<u8>, pos: int, used: nat, freq: Seq<u16>) -> Result<
    (Seq<u16>, int),
    BitstreamError,
>
    decreases used,
{
    if used == 0 {
        Ok((freq, pos))
    } else if !(0 <= pos < input.len()) {
        Err(BitstreamError::UnexpectedEof)
    } else {
        let s = input[pos] as int;
        match read_uvarint(input, pos + 1) {
            Err(e) => Err(e),
            Ok(f) => if f == 0 || f > SCALE || freq[s] != 0 {
                Err(BitstreamError::BadEntropyModel)
            } else {
                scan_model(
                    input,
                    uvarint_end(input, pos + 1),
                    (used - 1) as nat,
                    freq.update(s, f as u16),
                )
            },
        }
    }
}

/// Reads `used` table entries of three bytes each at `pos` into `freq`: the older table form.
pub open spec fn scan_fixed_model(input: Seq<u8>, pos: int, used: nat, freq: Seq<u16>) -> Result<
    (Seq<u16>, int),
    BitstreamError,
>
    decreases used,
{
    if used == 0 {
        Ok((freq, pos))
    } else {
        let s = input[pos] as int;
        let f = bytes::le_value(input.subrange(pos + 1, pos + 3));
        if f == 0 || freq[s] != 0 {
            Err(BitstreamError::BadEntropyModel)
        } else {
            scan_fixed_model(input, pos + 3, (used - 1) as nat, freq.update(s, f as u16))
        }
    }
}

/// Some model, before any entry is read.
pub open spec fn no_model() -> Seq<u16> {
    Seq::new(256, |s: int| 0u16)
}

/// The model of a coded block and the position behind it.
pub open spec fn block_model(input: Seq<u8>, used: nat) -> Result<(Seq<u16>, int), BitstreamError> {
    if input[0] == 1 {
        if input.len() < 7 + 3 * used + 4 {
            Err(BitstreamError::UnexpectedEof)
        } else {
            scan_fixed_model(input, 7, used, no_model())
        }
    } else {
        scan_model(input, 7, used, no_model())
    }
}

/// The lane of a coded block, from the position behind its model.
pub open spec fn block_lane(input: Seq<u8>, pos: int, n: nat, freq: Seq<u16>) -> Result<
    Seq<u8>,
    BitstreamError,
> {
    if cum(freq, 256) != SCALE {
        Err(BitstreamError::BadEntropyModel)
    } else if input.len() < pos + 4 {
        Err(BitstreamError::UnexpectedEof)
    } else {
        let end = pos + 4 + bytes::le_value(input.subrange(pos, pos + 4));
        if input.len() < end {
            Err(BitstreamError::UnexpectedEof)
        } else if input.len() > end {
            Err(BitstreamError::TrailingData)
        } else {
            rans_decoded(input.skip(pos + 4), n, freq)
        }
    }
}

/// What an entropy block holds, or why it is refused. At most `max` bytes are accepted; `fixed`
/// says whether the older table form is.
pub open spec fn decompressed(input: Seq<u8>, max: nat, fixed: bool) -> Result<
    Seq<u8>,
    BitstreamError,
> {
    if input.len() < 5 {
        Err(BitstreamError::UnexpectedEof)
    } else {
        let n = bytes::le_value(input.subrange(1, 5));
        if n > max {
            Err(BitstreamError::BadEntropyHeader)
        } else if input[0] == 0 {
            if input.len() < 5 + n {
                Err(BitstreamError::UnexpectedEof)
            } else if input.len() > 5 + n {
                Err(BitstreamError::TrailingData)
            } else {
                Ok(input.skip(5))
            }
        } else if input[0] != 2 && !(fixed && input[0] == 1) {
            Err(BitstreamError::BadEntropyHeader)
        } else if input.len() < 7 {
            Err(BitstreamError::UnexpectedEof)
        } else {
            let used = bytes::le_value(input.subrange(5, 7));
            if used == 0 || used > 256 {
                Err(BitstreamError::BadEntropyModel)
            } else {
                match block_model(input, used) {
                    Err(e) => Err(e),
                    Ok((freq, pos)) => block_lane(input, pos, n, freq),
                }
            }
        }
    }
}

pub proof fn lemma_scan_model_pos(input: Seq<u8>, pos: int, used: nat, freq: Seq<u16>)
    requires
        0 <= pos <= input.len(),
        freq.len() == 256,
    ensures
        scan_model(input, pos, used, freq) matches Ok((model, end)) ==> pos <= end <= input.len()
            && model.len() == 256,
    decreases used,
{
    if used > 0 && pos < input.len() {
        let s = input[pos] as int;
        lemma_scan_uvarint(input, pos + 1, 0);
        if let Ok(f) = read_uvarint(input, pos + 1) {
            if !(f == 0 || f > SCALE || freq[s] != 0) {
                lemma_scan_model_pos(
                    input,
                    uvarint_end(input, pos + 1),
                    (used - 1) as nat,
                    freq.update(s, f as u16),
                );
            }
        }
    }
}

pub proof fn lemma_used_from(freq: Seq<u16>, s: int)
    requires
        0 <= s <= 256,
    ensures
        used_from(freq, s) <= 256 - s,
        used_from(freq, s) == 0 ==> forall|i: int| s <= i < 256 ==> freq[i] == 0,
    decreases 256 - s,
{
    if s < 256 {
        lemma_used_from(freq, s + 1);
    }
}

pub proof fn lemma_model_bytes_len(freq: Seq<u16>, s: int)
    requires
        0 <= s <= 256,
        forall|i: int| 0 <= i < 256 ==> freq[i] <= 4096,
    ensures
        model_bytes(freq, s).len() <= 3 * (256 - s),
    decreases 256 - s,
{
    if s < 256 {
        lemma_model_bytes_len(freq, s + 1);
        lemma_uvarint_bytes_len(freq[s] as nat);
    }
}

/// Reading a written model table gives the model back.
pub proof fn lemma_scan_of_model(input: Seq<u8>, pos: int, s: int, freq: Seq<u16>, part: Seq<u16>)
    requires
        0 <= s <= 256,
        0 <= pos,
        freq.len() == 256,
        part.len() == 256,
        forall|i: int| 0 <= i < 256 ==> freq[i] <= SCALE,
        forall|i: int| 0 <= i < s ==> part[i] == freq[i],
        forall|i: int| s <= i < 256 ==> part[i] == 0,
        pos + model_bytes(freq, s).len() <= input.len(),
        input.subrange(pos, pos + model_bytes(freq, s).len()) == model_bytes(freq, s),
    ensures
        scan_model(input, pos, used_from(freq, s), part) == Ok::<(Seq<u16>, int), BitstreamError>(
            (freq, pos + model_bytes(freq, s).len()),
        ),
    decreases 256 - s,
{
    if s == 256 {
        assert(part =~= freq);
    } else if freq[s] == 0 {
        lemma_scan_of_model(input, pos, s + 1, freq, part);
    } else {
        let here = input.subrange(pos, pos + model_bytes(freq, s).len());
        let entry = uvarint_bytes(freq[s] as nat);
        let rest = model_bytes(freq, s + 1);
        assert(here[0] == input[pos]);
        assert(input[pos] == s as u8);
        assert(input.subrange(pos + 1, pos + 1 + entry.len()) =~= entry) by {
            assert(here.subrange(1, 1 + entry.len() as int) =~= entry);
        }
        lemma_uvarint_at(input, pos + 1, freq[s] as u64);
        let next = pos + 1 + entry.len();
        assert(input.subrange(next, next + rest.len()) =~= rest) by {
            assert(here.subrange(1 + entry.len() as int, here.len() as int) =~= rest);
        }
        lemma_scan_of_model(input, next, s + 1, freq, part.update(s, freq[s]));
    }
}

/// An entropy block of `data`, with any model that covers it, holds `data`.
pub proof fn lemma_block_with(data: Seq<u8>, freq: Seq<u16>, max: nat, fixed: bool)
    requires
        data.len() <= max,
        data.len() <= u32::MAX,
        valid_model(freq),
        covers(freq, data),
    ensures
        decompressed(block_with(data, freq), max, fixed) == Ok::<Seq<u8>, BitstreamError>(data),
{
    bytes::lemma_le_bounds();
    bytes::lemma_le_write_read(data.len() as int, 4);
    let n_bytes = bytes::le_bytes(data.len() as int, 4);
    let block = block_with(data, freq);
    if coded_block(data, freq).len() >= data.len() + 5 {
        assert(block.subrange(1, 5) =~= n_bytes);
        assert(block.skip(5) =~= data);
    } else {
        let coded = rans_coded(data, freq);
        let table = model_bytes(freq, 0);
        let used = used_from(freq, 0);
        lemma_used_from(freq, 0);
        if used == 0 {
            lemma_cum_bound(freq, 256, 0);
        }
        assert forall|i: int| 0 <= i < 256 implies freq[i] <= SCALE by {
            lemma_cum_mono(freq, i + 1, 256);
        }
        bytes::lemma_le_write_read(used as int, 2);
        bytes::lemma_le_write_read(coded.len() as int, 4);
        assert(block[0] == 2);
        assert(block.subrange(1, 5) =~= n_bytes);
        assert(block.subrange(5, 7) =~= bytes::le_bytes(used as int, 2));
        assert(block.subrange(7, 7 + table.len() as int) =~= table);
        let pos = 7 + table.len() as int;
        lemma_scan_of_model(block, 7, 0, freq, no_model());
        assert(block.subrange(pos, pos + 4) =~= bytes::le_bytes(coded.len() as int, 4));
        assert(block.skip(pos + 4) =~= coded);
        law_rans_code_decode(data, freq);
    }
}

/// Decompressing what was compressed gives the data back, for every output limit that admits it.
pub proof fn law_entropy_round_trip(data: Seq<u8>, max: nat, fixed: bool)
    requires
        data.len() <= max,
        data.len() <= u32::MAX,
    ensures
        decompressed(compressed(data), max, fixed) == Ok::<Seq<u8>, BitstreamError>(data),
        compressed(data).len() <= data.len() + 5,
{
    law_model_for(data);
    lemma_block_with(data, model_for(data), max, fixed);
    bytes::lemma_le_bytes_len(data.len() as int, 4);
}

/// No block is accepted that holds more than the limit allows.
pub proof fn law_entropy_limit(input: Seq<u8>, max: nat, fixed: bool)
    ensures
        decompressed(input, max, fixed) matches Ok(data) ==> data.len() <= max,
{
    if input.len() >= 5 {
        let n = bytes::le_value(input.subrange(1, 5));
        if input.len() >= 7 {
            let used = bytes::le_value(input.subrange(5, 7));
            if let Ok((freq, pos)) = block_model(input, used) {
                let coded = input.skip(pos + 4);
                lemma_rans_symbols_len(coded, 4, bytes::le_value(coded.take(4)) as int, n, freq);
            }
        }
    }
}

pub proof fn lemma_rans_symbols_len(coded: Seq<u8>, pos: int, x: int, n: nat, freq: Seq<u16>)
    ensures
        rans_symbols(coded, pos, x, n, freq) matches Ok(data) ==> data.len() == n,
    decreases n,
{
    if n > 0 {
        if let Some((next, y)) = refill(coded, pos, taken(freq, x)) {
            lemma_rans_symbols_len(coded, next, y, (n - 1) as nat, freq);
        }
    }
}

} // verus!
