//! Varints and the self-contained entropy block of the first generation.
use crate::bitstream::syntax;
use crate::bytes;
use vstd::prelude::*;

verus! {

/// Why a varint or an entropy block was refused.
#[derive(Debug, Clone, Copy, PartialEq, Eq, Structural)]
pub enum BitstreamError {
    UnexpectedEof,
    VarintTooLong,
    VarintOverflow,
    OverlongVarint,
    BadEntropyHeader,
    BadEntropyModel,
    BadEntropyState,
    TrailingData,
}

/// Appends one canonical unsigned base-128 varint.
pub fn put_uvarint(value: u64, out: &mut Vec<u8>)
    ensures
        final(out)@ == old(out)@ + syntax::uvarint_bytes(value as nat),
{
    let mut rest: u64 = value;
    while rest >= 0x80
        invariant
            out@ + syntax::uvarint_bytes(rest as nat) == old(out)@ + syntax::uvarint_bytes(value as nat),
        decreases rest,
    {
        let ghost before = out@;
        out.push((rest % 0x80 + 0x80) as u8);
        proof {
            assert(before + syntax::uvarint_bytes(rest as nat) =~= out@ + syntax::uvarint_bytes((rest / 0x80) as nat));
        }
        rest = rest / 0x80;
    }
    let ghost before = out@;
    out.push(rest as u8);
    assert(before + syntax::uvarint_bytes(rest as nat) =~= out@);
}

/// Reads one canonical unsigned base-128 varint and advances `pos` only over consumed bytes.
pub fn get_uvarint(input: &[u8], pos: &mut usize) -> (r: Result<u64, BitstreamError>)
    ensures
        r == syntax::read_uvarint(input@, *old(pos) as int),
        *final(pos) == syntax::uvarint_end(input@, *old(pos) as int),
{
    let mut value: u64 = 0;
    let mut unit: u64 = 1;
    let mut i: usize = 0;
    let ghost start = *pos as int;
    proof {
        syntax::lemma_varint_room_0();
    }
    while i < 10
        invariant
            i <= 10,
            i < 10 ==> unit * syntax::varint_room(i as int) == 0x1_0000_0000_0000_0000,
            i < 10 ==> value < unit,
            i > 0 ==> *pos <= input@.len(),
            i == 0 ==> *pos == start,
            syntax::scan_uvarint(input@, start, 0).1 == syntax::scan_uvarint(input@, *pos as int, i as int).1,
            match syntax::scan_uvarint(input@, *pos as int, i as int).0 {
                Ok(v) => syntax::scan_uvarint(input@, start, 0).0 == Ok::<nat, BitstreamError>(value as nat + unit as nat * v),
                Err(e) => syntax::scan_uvarint(input@, start, 0).0 == Err::<nat, BitstreamError>(e),
            },
            start == *old(pos),
        decreases 10 - i,
    {
        if *pos >= input.len() {
            return Err(BitstreamError::UnexpectedEof);
        }
        let byte: u8 = input[*pos];
        let ghost here = *pos as int;
        *pos = *pos + 1;
        let payload: u8 = byte % 128;
        if i == 9 && payload > 1 {
            return Err(BitstreamError::VarintOverflow);
        }
        proof {
            syntax::lemma_scan_uvarint(input@, here, i as int);
            let room = syntax::varint_room(i as int);
            syntax::lemma_varint_room_min(i as int);
            assert(payload < room);
            assert(payload * unit + unit <= unit * room) by (nonlinear_arith)
                requires
                    payload + 1 <= room,
                    unit >= 0,
            ;
            assert(unit as nat * payload as nat == payload * unit) by (nonlinear_arith);
        }
        value = value + payload as u64 * unit;
        if byte < 128 {
            if i > 0 && payload == 0 {
                return Err(BitstreamError::OverlongVarint);
            }
            return Ok(value);
        }
        proof {
            let (rest, end) = syntax::scan_uvarint(input@, here + 1, i + 1);
            if let Ok(v) = rest {
                assert(unit as nat * (payload as nat + 128 * v) == payload * unit + (unit as nat * 128) * v)
                    by (nonlinear_arith);
            }
        }
        if i < 9 {
            proof {
                let next = syntax::varint_room(i + 1);
                syntax::lemma_varint_room_min(i + 1);
                assert(payload * unit <= 127 * unit) by (nonlinear_arith)
                    requires
                        payload <= 127,
                        unit >= 0,
                ;
                assert(unit * (128 * next) == (unit * 128) * next) by (nonlinear_arith);
                assert((unit * 128) * next >= (unit * 128) * 2) by (nonlinear_arith)
                    requires
                        next >= 2,
                        unit >= 0,
                ;
            }
            unit = unit * 128;
        }
        i = i + 1;
    }
    Err(BitstreamError::VarintTooLong)
}

/// Maps a signed 32-bit integer to its ZigZag representation.
pub fn zigzag_i32(value: i32) -> (r: u32)
    ensures
        r == syntax::zigzag(value as int),
{
    if value >= 0 {
        2 * (value as u32)
    } else {
        2 * ((-(value + 1)) as u32) + 1
    }
}

/// Inverts [`zigzag_i32`].
pub fn unzigzag_u32(value: u32) -> (r: i32)
    ensures
        r == syntax::unzigzag(value as nat),
{
    let half: i32 = (value / 2) as i32;
    if value % 2 == 0 {
        half
    } else {
        -half - 1
    }
}

/// Appends a signed 32-bit ZigZag varint.
pub fn put_svarint_i32(value: i32, out: &mut Vec<u8>)
    ensures
        final(out)@ == old(out)@ + syntax::svarint_bytes(value as int),
{
    put_uvarint(zigzag_i32(value) as u64, out);
}

/// Reads a signed 32-bit ZigZag varint.
pub fn get_svarint_i32(input: &[u8], pos: &mut usize) -> (r: Result<i32, BitstreamError>)
    ensures
        r == syntax::read_svarint(input@, *old(pos) as int),
        *final(pos) == syntax::uvarint_end(input@, *old(pos) as int),
{
    match get_uvarint(input, pos) {
        Ok(encoded) => if encoded <= 0xffff_ffff {
            Ok(unzigzag_u32(encoded as u32))
        } else {
            Err(BitstreamError::VarintOverflow)
        },
        Err(e) => Err(e),
    }
}

// ---------------------------------------------------------------------------------------------
// Entropy blocks

/// A validated frequency model with the running sums that coding needs.
pub struct EncodeModel {
    pub freq: Vec<u16>,
    pub cum: Vec<u16>,
}

impl EncodeModel {
    pub open spec fn wf(&self) -> bool {
        &&& syntax::valid_model(self.freq@)
        &&& self.cum@.len() == 256
        &&& forall|i: int| 0 <= i < 256 ==> #[trigger] self.cum@[i] == syntax::cum(self.freq@, i)
    }
}

/// Reusable entropy decode storage: the bytes of the last block and the slot table.
#[derive(Debug)]
pub struct EntropyScratch {
    output: Vec<u8>,
    lookup: Vec<u32>,
}

impl EntropyScratch {
    /// The bytes of the block that was decompressed last.
    pub closed spec fn held(&self) -> Seq<u8> {
        self.output@
    }

    /// Creates empty reusable entropy storage.
    pub fn new() -> (r: Self)
        ensures
            r.held() == Seq::<u8>::empty(),
    {
        EntropyScratch { output: Vec::new(), lookup: Vec::new() }
    }

    /// Current reusable output capacity in bytes.
    pub fn output_capacity(&self) -> (r: usize)
        ensures
            r >= self.held().len(),
    {
        vec_capacity(&self.output)
    }
}

impl Default for EntropyScratch {
    fn default() -> (r: Self)
        ensures
            r.held() == Seq::<u8>::empty(),
    {
        EntropyScratch::new()
    }
}

/// `Vec::capacity` of the standard library: how many bytes fit without reallocating, which is
/// never less than the number held. How much more the allocator gave is left open.
#[verifier::external_body]
fn vec_capacity(v: &Vec<u8>) -> (r: usize)
    ensures
        r >= v@.len(),
{
    v.capacity()
}

/// Validates a 256-symbol frequency table and sums it up.
pub(crate) fn build_encode_model(freq: Vec<u16>) -> (r: Result<EncodeModel, BitstreamError>)
    requires
        freq@.len() == 256,
    ensures
        match r {
            Ok(m) => m.wf() && m.freq@ == freq@,
            Err(e) => e == BitstreamError::BadEntropyModel && syntax::cum(freq@, 256)
                != syntax::SCALE,
        },
{
    let mut cum: Vec<u16> = Vec::new();
    let mut total: u32 = 0;
    let mut i: usize = 0;
    while i < 256
        invariant
            freq@.len() == 256,
            i <= 256,
            total == syntax::cum(freq@, i as int),
            total <= 4096,
            cum@.len() == i,
            forall|j: int| 0 <= j < i ==> #[trigger] cum@[j] == syntax::cum(freq@, j),
        decreases 256 - i,
    {
        cum.push(total as u16);
        total = total + freq[i] as u32;
        if total > syntax::SCALE {
            proof {
                syntax::lemma_cum_mono(freq@, i + 1, 256);
            }
            return Err(BitstreamError::BadEntropyModel);
        }
        i = i + 1;
    }
    if total != syntax::SCALE {
        return Err(BitstreamError::BadEntropyModel);
    }
    Ok(EncodeModel { freq, cum })
}

/// The entry of the slot table for each slot of `s`: symbol, frequency less one, running sum.
pub open spec fn packed(freq: Seq<u16>, s: int) -> int {
    s * 0x100_0000 + (freq[s] - 1) * 0x1000 + syntax::cum(freq, s)
}

/// An entry of the slot table can be taken apart again.
proof fn lemma_unpack(s: int, f: int, c: int)
    requires
        0 <= s < 256,
        0 <= f < 4096,
        0 <= c < 4096,
    ensures
        ({
            let v = s * 0x100_0000 + f * 0x1000 + c;
            &&& v / 0x100_0000 == s
            &&& v / 0x1000 % 0x1000 == f
            &&& v % 0x1000 == c
        }),
{
    let v = s * 0x100_0000 + f * 0x1000 + c;
    vstd::arithmetic::div_mod::lemma_fundamental_div_mod_converse(v, 0x1000, s * 0x1000 + f, c);
    vstd::arithmetic::div_mod::lemma_fundamental_div_mod_converse(s * 0x1000 + f, 0x1000, s, f);
    vstd::arithmetic::div_mod::lemma_fundamental_div_mod_converse(
        v,
        0x100_0000,
        s,
        f * 0x1000 + c,
    );
}

pub open spec fn lookup_ok(lookup: Seq<u32>, freq: Seq<u16>) -> bool {
    &&& lookup.len() == 4096
    &&& forall|x: int|
        0 <= x < 4096 ==> #[trigger] lookup[x] == packed(freq, syntax::slot_symbol(freq, x))
}

/// Builds the packed slot table of a model.
pub(crate) fn build_decode_lookup(freq: &Vec<u16>, lookup: &mut Vec<u32>) -> (r: Result<(), BitstreamError>)
    requires
        freq@.len() == 256,
    ensures
        match r {
            Ok(()) => syntax::valid_model(freq@) && lookup_ok(final(lookup)@, freq@),
            Err(e) => e == BitstreamError::BadEntropyModel && syntax::cum(freq@, 256)
                != syntax::SCALE,
        },
{
    lookup.resize(4096, 0);
    let mut cumulative: u32 = 0;
    let mut symbol: usize = 0;
    while symbol < 256
        invariant
            freq@.len() == 256,
            lookup@.len() == 4096,
            symbol <= 256,
            cumulative == syntax::cum(freq@, symbol as int),
            cumulative <= 4096,
            forall|x: int|
                0 <= x < cumulative ==> #[trigger] lookup@[x] == packed(
                    freq@,
                    syntax::slot_symbol(freq@, x),
                ),
        decreases 256 - symbol,
    {
        let f: u32 = freq[symbol] as u32;
        if f != 0 {
            let end: u32 = cumulative + f;
            if end > syntax::SCALE {
                proof {
                    syntax::lemma_cum_mono(freq@, symbol + 1, 256);
                }
                return Err(BitstreamError::BadEntropyModel);
            }
            let entry: u32 = symbol as u32 * 0x100_0000 + (f - 1) * 0x1000 + cumulative;
            let mut x: u32 = cumulative;
            while x < end
                invariant
                    freq@.len() == 256,
                    lookup@.len() == 4096,
                    symbol < 256,
                    cumulative == syntax::cum(freq@, symbol as int),
                    f == freq@[symbol as int],
                    end == cumulative + f,
                    cumulative <= x <= end <= 4096,
                    entry == packed(freq@, symbol as int),
                    forall|y: int|
                        0 <= y < x ==> #[trigger] lookup@[y] == packed(
                            freq@,
                            syntax::slot_symbol(freq@, y),
                        ),
                decreases end - x,
            {
                lookup.set(x as usize, entry);
                proof {
                    assert(syntax::in_slot(freq@, symbol as int, x as int));
                    syntax::lemma_slot_unique(freq@, symbol as int, x as int);
                }
                x = x + 1;
            }
            cumulative = end;
        }
        symbol = symbol + 1;
    }
    if cumulative != syntax::SCALE {
        return Err(BitstreamError::BadEntropyModel);
    }
    Ok(())
}

/// The last symbol that occurs and has the greatest leftover.
fn most_short(counts: &Vec<u32>, left: &Vec<u64>) -> (r: usize)
    requires
        counts@.len() == 256,
        left@.len() == 256,
        exists|s: int| 0 <= s < 256 && counts@[s] > 0,
    ensures
        r < 256,
        r == syntax::most_short(nats32(counts@), nats64(left@), 256),
{
    let mut best: Option<usize> = None;
    let mut i: usize = 0;
    while i < 256
        invariant
            counts@.len() == 256,
            left@.len() == 256,
            i <= 256,
            match best {
                Some(b) => b < i && b == syntax::most_short(nats32(counts@), nats64(left@), i as int),
                None => syntax::most_short(nats32(counts@), nats64(left@), i as int) == -1,
            },
        decreases 256 - i,
    {
        if counts[i] != 0 {
            match best {
                Some(b) => {
                    if left[i] >= left[b] {
                        best = Some(i);
                    }
                },
                None => {
                    best = Some(i);
                },
            }
        }
        i = i + 1;
    }
    proof {
        let s = choose|s: int| 0 <= s < 256 && counts@[s] > 0;
        assert(nats32(counts@)[s] > 0);
        syntax::lemma_most_short(nats32(counts@), nats64(left@), 256);
    }
    match best {
        Some(b) => b,
        None => 0,
    }
}

/// The most frequent symbol that has two slots or more; the last of them.
pub(crate) fn most_rich(freq: &Vec<u16>, counts: &Vec<u32>) -> (r: usize)
    requires
        freq@.len() == 256,
        counts@.len() == 256,
        syntax::cum(freq@, 256) > 256,
    ensures
        r < 256,
        freq@[r as int] > 1,
        r == syntax::most_rich(freq@, nats32(counts@), 256),
{
    let mut best: Option<usize> = None;
    let mut i: usize = 0;
    while i < 256
        invariant
            counts@.len() == 256,
            freq@.len() == 256,
            i <= 256,
            match best {
                Some(b) => b < i && b == syntax::most_rich(freq@, nats32(counts@), i as int),
                None => syntax::most_rich(freq@, nats32(counts@), i as int) == -1,
            },
        decreases 256 - i,
    {
        if freq[i] > 1 {
            match best {
                Some(b) => {
                    if counts[i] >= counts[b] {
                        best = Some(i);
                    }
                },
                None => {
                    best = Some(i);
                },
            }
        }
        i = i + 1;
    }
    proof {
        syntax::lemma_most_rich(freq@, nats32(counts@), 256);
    }
    match best {
        Some(b) => b,
        None => 0,
    }
}

pub open spec fn nats32(s: Seq<u32>) -> Seq<nat> {
    Seq::new(s.len(), |i: int| s[i] as nat)
}

pub open spec fn nats64(s: Seq<u64>) -> Seq<nat> {
    Seq::new(s.len(), |i: int| s[i] as nat)
}

/// Counts the bytes of `data` by value.
pub fn count_bytes(data: &[u8]) -> (counts: Vec<u32>)
    requires
        data@.len() <= u32::MAX,
    ensures
        counts@.len() == 256,
        nats32(counts@) == syntax::counts(data@),
{
    let mut counts: Vec<u32> = vec![0u32; 256];
    let mut i: usize = 0;
    while i < data.len()
        invariant
            data@.len() <= u32::MAX,
            i <= data@.len(),
            counts@.len() == 256,
            forall|s: int|
                0 <= s < 256 ==> #[trigger] counts@[s] == syntax::occurrences(data@.take(i as int), s),
        decreases data@.len() - i,
    {
        let b: usize = data[i] as usize;
        proof {
            syntax::lemma_occurrences(data@.take(i as int), b as int);
            assert(data@.take(i + 1).drop_last() =~= data@.take(i as int));
        }
        let ghost before = counts@;
        let count: u32 = counts[b];
        counts.set(b, count + 1);
        i = i + 1;
    }
    assert(data@.take(i as int) =~= data@);
    assert(nats32(counts@) =~= syntax::counts(data@));
    counts
}

/// The shares of the scale by frequency, what rounding cut off each, and their sum.
pub(crate) fn shares(data: &[u8], counts: &Vec<u32>) -> (r: (Vec<u16>, Vec<u64>, u32))
    requires
        0 < data@.len() <= u32::MAX,
        counts@.len() == 256,
        nats32(counts@) == syntax::counts(data@),
    ensures
        r.0@ == syntax::quotas(data@),
        r.1@.len() == 256,
        nats64(r.1@) == syntax::leftovers(data@),
        r.2 == syntax::cum(r.0@, 256),
{
    let mut freq: Vec<u16> = vec![0u16; 256];
    let n: u64 = data.len() as u64;
    let mut left: Vec<u64> = vec![0u64; 256];
    let mut sum: u32 = 0;
    let mut symbol: usize = 0;
    while symbol < 256
        invariant
            0 < n == data@.len() <= u32::MAX,
            counts@.len() == 256,
            nats32(counts@) == syntax::counts(data@),
            freq@.len() == 256,
            left@.len() == 256,
            symbol <= 256,
            sum == syntax::cum(freq@, symbol as int),
            sum <= symbol * 4096,
            forall|s: int| 0 <= s < symbol ==> #[trigger] freq@[s] == syntax::quotas(data@)[s],
            forall|s: int| 0 <= s < symbol ==> #[trigger] left@[s] == syntax::leftovers(data@)[s],
            forall|s: int| symbol <= s < 256 ==> #[trigger] freq@[s] == 0,
            forall|s: int| symbol <= s < 256 ==> #[trigger] left@[s] == 0,
        decreases 256 - symbol,
    {
        let count: u32 = counts[symbol];
        let ghost before = freq@;
        proof {
            assert(nats32(counts@)[symbol as int] == count);
            syntax::lemma_occurrences(data@, symbol as int);
            syntax::lemma_quota(count as nat, n as nat);
        }
        if count != 0 {
            let scaled: u64 = count as u64 * 4096;
            let share: u64 = scaled / n;
            let q: u16 = if share == 0 {
                1
            } else {
                share as u16
            };
            freq.set(symbol, q);
            left.set(symbol, scaled % n);
            sum = sum + q as u32;
        }
        proof {
            syntax::lemma_cum_agree(before, freq@, symbol as int);
        }
        symbol = symbol + 1;
    }
    assert(freq@ =~= syntax::quotas(data@));
    assert(nats64(left@) =~= syntax::leftovers(data@));
    (freq, left, sum)
}

/// Takes slots back until the shares sum to the scale.
pub(crate) fn shrink(freq: &mut Vec<u16>, counts: &Vec<u32>, total: u32)
    requires
        old(freq)@.len() == 256,
        counts@.len() == 256,
        total == syntax::cum(old(freq)@, 256),
        total >= syntax::SCALE,
    ensures
        final(freq)@ == syntax::shrunk(
            old(freq)@,
            nats32(counts@),
            (total - syntax::SCALE) as nat,
        ),
{
    let ghost goal = syntax::shrunk(freq@, nats32(counts@), (total - syntax::SCALE) as nat);
    let mut sum: u32 = total;
    while sum > syntax::SCALE
        invariant
            freq@.len() == 256,
            counts@.len() == 256,
            sum == syntax::cum(freq@, 256),
            sum >= syntax::SCALE,
            goal == syntax::shrunk(freq@, nats32(counts@), (sum - syntax::SCALE) as nat),
        decreases sum,
    {
        let s: usize = most_rich(freq, counts);
        let f: u16 = freq[s];
        proof {
            syntax::lemma_cum_update(freq@, s as int, (f - 1) as u16, 256);
        }
        freq.set(s, f - 1);
        sum = sum - 1;
    }
}

/// The model that `data` is coded with: shares by frequency, rounded to sum to the scale.
fn normalize(data: &[u8]) -> (m: EncodeModel)
    requires
        data@.len() <= u32::MAX,
    ensures
        m.wf(),
        m.freq@ == syntax::model_for(data@),
{
    proof {
        syntax::law_model_for(data@);
    }
    let counts: Vec<u32> = count_bytes(data);
    let mut freq: Vec<u16> = vec![0u16; 256];
    if data.len() == 0 {
        freq.set(0, 4096);
        assert(freq@ =~= syntax::model_for(data@));
    } else {
        let (start, mut left, mut sum): (Vec<u16>, Vec<u64>, u32) = shares(data, &counts);
        freq = start;
        let ghost goal = syntax::model_for(data@);
        proof {
            syntax::lemma_occurrences(data@, data@[0] as int);
            assert(nats32(counts@)[data@[0] as int] > 0);
        }
        if sum < syntax::SCALE {
            while sum < syntax::SCALE
                invariant
                    freq@.len() == 256,
                    counts@.len() == 256,
                    left@.len() == 256,
                    sum == syntax::cum(freq@, 256),
                    sum <= syntax::SCALE,
                    exists|s: int| 0 <= s < 256 && counts@[s] > 0,
                    goal == syntax::grown(
                        freq@,
                        nats32(counts@),
                        nats64(left@),
                        (syntax::SCALE - sum) as nat,
                    ),
                decreases syntax::SCALE - sum,
            {
                let s: usize = most_short(&counts, &left);
                let f: u16 = freq[s];
                proof {
                    syntax::lemma_cum_mono(freq@, s + 1, 256);
                    syntax::lemma_cum_update(freq@, s as int, (f + 1) as u16, 256);
                    assert(nats64(left@.update(s as int, 0)) =~= nats64(left@).update(s as int, 0));
                }
                freq.set(s, f + 1);
                left.set(s, 0);
                sum = sum + 1;
            }
        } else {
            shrink(&mut freq, &counts, sum);
        }
        assert(freq@ == goal);
    }
    match build_encode_model(freq) {
        Ok(m) => m,
        Err(_) => EncodeModel { freq: Vec::new(), cum: Vec::new() },
    }
}

/// Codes one byte slice with the supplied model.
pub(crate) fn rans_encode(data: &[u8], model: &EncodeModel) -> (coded: Vec<u8>)
    requires
        model.wf(),
        syntax::covers(model.freq@, data@),
    ensures
        coded@ == syntax::rans_coded(data@, model.freq@),
{
    let mut state: u32 = syntax::LOWEST_STATE;
    let mut shed: Vec<u8> = Vec::new();
    let mut i: usize = data.len();
    proof {
        assert(data@.skip(i as int) =~= Seq::empty());
        assert(shed@.reverse() =~= Seq::empty());
    }
    while i > 0
        invariant
            model.wf(),
            syntax::covers(model.freq@, data@),
            i <= data@.len(),
            (state as int, shed@.reverse()) == syntax::rans_state(data@.skip(i as int), model.freq@),
        decreases i,
    {
        i = i - 1;
        let symbol: usize = data[i] as usize;
        let f: u32 = model.freq[symbol] as u32;
        let c: u32 = model.cum[symbol] as u32;
        let ghost rest = data@.skip(i + 1);
        proof {
            assert(data@.skip(i as int).drop_first() =~= rest);
            lemma_covers_skip(model.freq@, data@, i as int);
            lemma_covers_skip(model.freq@, data@, i + 1);
            syntax::lemma_rans_state(rest, model.freq@);
            syntax::lemma_rans_state(data@.skip(i as int), model.freq@);
            syntax::lemma_cum_mono(model.freq@, symbol + 1, 256);
            assert(freq_at(model.freq@, data@, i as int) > 0);
        }
        let cap: u32 = 524288 * f;
        let ghost (x0, tail0) = (state as int, shed@.reverse());
        while state >= cap
            invariant
                524288 <= cap,
                syntax::shed(state as int, shed@.reverse(), cap as int) == syntax::shed(
                    x0,
                    tail0,
                    cap as int,
                ),
            decreases state,
        {
            let ghost before = shed@;
            shed.push((state % 256) as u8);
            proof {
                assert(shed@.reverse() =~= seq![(state % 256) as u8] + before.reverse());
            }
            state = state / 256;
        }
        proof {
            syntax::lemma_shed(x0, tail0, cap as int);
            vstd::arithmetic::div_mod::lemma_fundamental_div_mod(state as int, f as int);
            vstd::arithmetic::div_mod::lemma_mod_bound(state as int, f as int);
            let q = state as int / f as int;
            assert(q < 524288) by (nonlinear_arith)
                requires
                    state < 524288 * f,
                    state as int == f as int * q + state as int % f as int,
                    0 <= state as int % f as int,
                    f > 0,
            ;
        }
        state = state / f * 4096 + state % f + c;
    }
    assert(data@.skip(0) =~= data@);
    let mut coded: Vec<u8> = Vec::new();
    bytes::put_u32_le(state, &mut coded);
    let ghost head = coded@;
    let mut k: usize = shed.len();
    proof {
        assert(shed@.skip(k as int).reverse() =~= Seq::empty());
    }
    while k > 0
        invariant
            k <= shed@.len(),
            coded@ == head + shed@.skip(k as int).reverse(),
        decreases k,
    {
        k = k - 1;
        let ghost before = coded@;
        coded.push(shed[k]);
        proof {
            assert(shed@.skip(k as int).reverse() =~= shed@.skip(k + 1).reverse().push(shed@[k as int]));
            assert(coded@ =~= head + shed@.skip(k as int).reverse());
        }
    }
    assert(shed@.skip(0) =~= shed@);
    coded
}

spec fn freq_at(freq: Seq<u16>, data: Seq<u8>, i: int) -> u16 {
    freq[data[i] as int]
}

proof fn lemma_covers_skip(freq: Seq<u16>, data: Seq<u8>, k: int)
    requires
        syntax::covers(freq, data),
        0 <= k <= data.len(),
    ensures
        syntax::covers(freq, data.skip(k)),
{
    assert forall|i: int| 0 <= i < data.skip(k).len() implies freq[#[trigger] data.skip(k)[i] as int] > 0 by {
        assert(data.skip(k)[i] == data[i + k]);
    }
}

/// Decodes one coded lane of `raw_len` symbols into `output`.
#[verifier::rlimit(30)]
pub(crate) fn rans_decode_into(
    coded: &[u8],
    raw_len: usize,
    lookup: &Vec<u32>,
    output: &mut Vec<u8>,
    freq: &Vec<u16>,
) -> (r: Result<(), BitstreamError>)
    requires
        syntax::valid_model(freq@),
        lookup_ok(lookup@, freq@),
    ensures
        match r {
            Ok(()) => syntax::rans_decoded(coded@, raw_len as nat, freq@) == Ok::<
                Seq<u8>,
                BitstreamError,
            >(final(output)@),
            Err(e) => syntax::rans_decoded(coded@, raw_len as nat, freq@) == Err::<
                Seq<u8>,
                BitstreamError,
            >(e),
        },
{
    if coded.len() < 4 {
        return Err(BitstreamError::UnexpectedEof);
    }
    let mut state: u32 = bytes::get_u32_le(coded, 0);
    assert(coded@.subrange(0, 4) =~= coded@.take(4));
    if state < syntax::LOWEST_STATE {
        return Err(BitstreamError::BadEntropyState);
    }
    let ghost goal = syntax::rans_decoded(coded@, raw_len as nat, freq@);
    let mut coded_pos: usize = 4;
    output.clear();
    let mut done: usize = 0;
    proof {
        let all = syntax::rans_symbols(coded@, 4, state as int, raw_len as nat, freq@);
        if let Ok(s) = all {
            assert(Seq::<u8>::empty() + s =~= s);
        }
    }
    while done < raw_len
        invariant
            syntax::valid_model(freq@),
            lookup_ok(lookup@, freq@),
            goal == syntax::rans_decoded(coded@, raw_len as nat, freq@),
            done <= raw_len,
            4 <= coded_pos <= coded@.len(),
            syntax::LOWEST_STATE <= state,
            goal == syntax::prepend(
                output@,
                syntax::rans_symbols(
                    coded@,
                    coded_pos as int,
                    state as int,
                    (raw_len - done) as nat,
                    freq@,
                ),
            ),
        decreases raw_len - done,
    {
        let x: u32 = state % 4096;
        let packed: u32 = lookup[x as usize];
        let symbol: u8 = (packed / 0x100_0000) as u8;
        let frequency: u32 = packed / 0x1000 % 0x1000 + 1;
        let cumulative: u32 = packed % 0x1000;
        let ghost state0 = state as int;
        proof {
            let s = syntax::slot_symbol(freq@, x as int);
            syntax::lemma_slot_symbol(freq@, x as int);
            assert(lookup@[x as int] == packed);
            lemma_unpack(s, freq@[s] - 1, syntax::cum(freq@, s) as int);
            assert(symbol == s && frequency == freq@[s] && cumulative == syntax::cum(freq@, s));
            assert(frequency * (state / 4096) <= 4096 * 1048575 && frequency * (state / 4096) + frequency
                <= 4096 * 1048576) by (nonlinear_arith)
                requires
                    frequency <= 4096,
                    state / 4096 <= 1048575,
            ;
        }
        state = frequency * (state / 4096) + (x - cumulative);
        let ghost start = (coded_pos as int, state as int);
        while state < syntax::LOWEST_STATE
            invariant
                4 <= coded_pos <= coded@.len(),
                syntax::refill(coded@, coded_pos as int, state as int) == syntax::refill(
                    coded@,
                    start.0,
                    start.1,
                ),
                goal == syntax::prepend(
                    output@,
                    syntax::rans_symbols(coded@, start.0, state0, (raw_len - done) as nat, freq@),
                ),
                start.1 == syntax::taken(freq@, state0),
                goal == syntax::rans_decoded(coded@, raw_len as nat, freq@),
                done < raw_len,
            decreases coded@.len() - coded_pos,
        {
            if coded_pos >= coded.len() {
                return Err(BitstreamError::UnexpectedEof);
            }
            let byte: u8 = coded[coded_pos];
            coded_pos = coded_pos + 1;
            state = state * 256 + byte as u32;
        }
        let ghost before = output@;
        output.push(symbol);
        proof {
            let rest = syntax::rans_symbols(
                coded@,
                coded_pos as int,
                state as int,
                (raw_len - done - 1) as nat,
                freq@,
            );
            if let Ok(tail) = rest {
                assert(before + (seq![symbol] + tail) =~= output@ + tail);
            }
        }
        done = done + 1;
    }
    if coded_pos != coded.len() {
        return Err(BitstreamError::TrailingData);
    }
    assert(output@ + Seq::<u8>::empty() =~= output@);
    Ok(())
}

/// Writes the raw block of `data`.
pub fn raw_entropy_block(data: &[u8]) -> (raw: Vec<u8>)
    requires
        data@.len() <= u32::MAX,
    ensures
        raw@ == syntax::raw_block(data@),
{
    let mut raw: Vec<u8> = Vec::new();
    raw.push(0);
    bytes::put_u32_le(data.len() as u32, &mut raw);
    bytes::put_slice(data, &mut raw);
    assert(raw@ =~= syntax::raw_block(data@));
    raw
}

/// Writes the table of a model behind `out`.
pub fn put_model_table(freq: &Vec<u16>, out: &mut Vec<u8>)
    requires
        freq@.len() == 256,
    ensures
        final(out)@ == old(out)@ + syntax::model_bytes(freq@, 0),
{
    let mut symbol: usize = 0;
    while symbol < 256
        invariant
            freq@.len() == 256,
            symbol <= 256,
            out@ + syntax::model_bytes(freq@, symbol as int) == old(out)@ + syntax::model_bytes(
                freq@,
                0,
            ),
        decreases 256 - symbol,
    {
        if freq[symbol] != 0 {
            let ghost before = out@;
            out.push(symbol as u8);
            put_uvarint(freq[symbol] as u64, out);
            proof {
                assert(before + syntax::model_bytes(freq@, symbol as int) =~= out@
                    + syntax::model_bytes(freq@, symbol + 1));
            }
        }
        symbol = symbol + 1;
    }
    assert(out@ + Seq::<u8>::empty() =~= out@);
}

/// How many symbols of a model have slots.
pub fn count_used(freq: &Vec<u16>) -> (used: u16)
    requires
        freq@.len() == 256,
    ensures
        used == syntax::used_from(freq@, 0),
{
    let mut used: u16 = 0;
    let mut symbol: usize = 256;
    while symbol > 0
        invariant
            freq@.len() == 256,
            symbol <= 256,
            used == syntax::used_from(freq@, symbol as int),
            used <= 256 - symbol,
        decreases symbol,
    {
        symbol = symbol - 1;
        if freq[symbol] != 0 {
            used = used + 1;
        }
    }
    used
}

/// Writes the shorter of the raw and the coded block of `data` under a model.
pub(crate) fn compress_with(data: &[u8], model: &EncodeModel) -> (block: Vec<u8>)
    requires
        data@.len() <= u32::MAX,
        model.wf(),
        syntax::covers(model.freq@, data@),
    ensures
        block@ == syntax::block_with(data@, model.freq@),
{
    let coded: Vec<u8> = rans_encode(data, model);
    if coded.len() >= data.len() {
        proof {
            bytes::lemma_le_bytes_len(data@.len() as int, 4);
            bytes::lemma_le_bytes_len(coded@.len() as int, 4);
            bytes::lemma_le_bytes_len(syntax::used_from(model.freq@, 0) as int, 2);
        }
        return raw_entropy_block(data);
    }
    let used: u16 = count_used(&model.freq);
    let mut entropy: Vec<u8> = Vec::new();
    entropy.push(2);
    bytes::put_u32_le(data.len() as u32, &mut entropy);
    bytes::put_u16_le(used, &mut entropy);
    put_model_table(&model.freq, &mut entropy);
    bytes::put_u32_le(coded.len() as u32, &mut entropy);
    bytes::put_slice(&coded, &mut entropy);
    assert(entropy@ =~= syntax::coded_block(data@, model.freq@));
    if entropy.len() >= 5 && entropy.len() - 5 >= data.len() {
        raw_entropy_block(data)
    } else {
        entropy
    }
}

/// Compresses a byte sequence into a raw or a coded block, whichever is shorter.
pub fn entropy_compress(data: &[u8]) -> (block: Vec<u8>)
    requires
        data@.len() <= u32::MAX,
    ensures
        block@ == syntax::compressed(data@),
{
    proof {
        syntax::law_model_for(data@);
    }
    let model: EncodeModel = normalize(data);
    compress_with(data, &model)
}

/// Reads a symbol and frequency table and refuses invalid ones.
pub fn parse_entropy_model(
    input: &[u8],
    used: usize,
    pos: &mut usize,
    freq: &mut Vec<u16>,
) -> (r: Result<(), BitstreamError>)
    requires
        old(freq)@.len() == 256,
    ensures
        final(freq)@.len() == 256,
        match r {
            Ok(()) => syntax::scan_model(
                input@,
                *old(pos) as int,
                used as nat,
                syntax::no_model(),
            ) == Ok::<(Seq<u16>, int), BitstreamError>((final(freq)@, *final(pos) as int)),
            Err(e) => syntax::scan_model(
                input@,
                *old(pos) as int,
                used as nat,
                syntax::no_model(),
            ) == Err::<(Seq<u16>, int), BitstreamError>(e),
        },
{
    freq.clear();
    freq.resize(256, 0);
    assert(freq@ =~= syntax::no_model());
    let ghost goal = syntax::scan_model(
        input@,
        *old(pos) as int,
        used as nat,
        syntax::no_model(),
    );
    let mut i: usize = 0;
    while i < used
        invariant
            i <= used,
            freq@.len() == 256,
            goal == syntax::scan_model(input@, *old(pos) as int, used as nat, syntax::no_model()),
            goal == syntax::scan_model(input@, *pos as int, (used - i) as nat, freq@),
        decreases used - i,
    {
        if *pos >= input.len() {
            return Err(BitstreamError::UnexpectedEof);
        }
        let symbol: usize = input[*pos] as usize;
        *pos = *pos + 1;
        match get_uvarint(input, pos) {
            Err(e) => {
                return Err(e);
            },
            Ok(frequency) => {
                if frequency == 0 || frequency > 4096 || freq[symbol] != 0 {
                    return Err(BitstreamError::BadEntropyModel);
                }
                freq.set(symbol, frequency as u16);
            },
        }
        i = i + 1;
    }
    Ok(())
}

/// Reads a table of symbols and 16-bit frequencies and refuses invalid ones.
fn parse_fixed_model(input: &[u8], used: usize, pos: &mut usize, freq: &mut Vec<u16>) -> (r: Result<
    (),
    BitstreamError,
>)
    requires
        *old(pos) + 3 * used <= input@.len(),
    ensures
        final(freq)@.len() == 256,
        match r {
            Ok(()) => *final(pos) == *old(pos) + 3 * used && syntax::scan_fixed_model(
                input@,
                *old(pos) as int,
                used as nat,
                syntax::no_model(),
            ) == Ok::<(Seq<u16>, int), BitstreamError>((final(freq)@, *final(pos) as int)),
            Err(e) => syntax::scan_fixed_model(
                input@,
                *old(pos) as int,
                used as nat,
                syntax::no_model(),
            ) == Err::<(Seq<u16>, int), BitstreamError>(e),
        },
{
    freq.clear();
    freq.resize(256, 0);
    assert(freq@ =~= syntax::no_model());
    let ghost goal = syntax::scan_fixed_model(
        input@,
        *old(pos) as int,
        used as nat,
        syntax::no_model(),
    );
    let mut i: usize = 0;
    while i < used
        invariant
            i <= used,
            freq@.len() == 256,
            *pos == *old(pos) + 3 * i,
            *old(pos) + 3 * used <= input@.len(),
            goal == syntax::scan_fixed_model(
                input@,
                *old(pos) as int,
                used as nat,
                syntax::no_model(),
            ),
            goal == syntax::scan_fixed_model(input@, *pos as int, (used - i) as nat, freq@),
        decreases used - i,
    {
        assert(input.len() == input@.len());
        let symbol: usize = input[*pos] as usize;
        let frequency: u16 = bytes::get_u16_le(input, *pos + 1);
        *pos = *pos + 3;
        if frequency == 0 || freq[symbol] != 0 {
            return Err(BitstreamError::BadEntropyModel);
        }
        freq.set(symbol, frequency);
        i = i + 1;
    }
    Ok(())
}

/// Decompresses one entropy block into reusable storage and returns the decoded bytes.
pub fn entropy_decompress_with_scratch<'a>(
    input: &[u8],
    max_output: usize,
    scratch: &'a mut EntropyScratch,
) -> (r: Result<&'a [u8], BitstreamError>)
    ensures
        match r {
            Ok(out) => syntax::decompressed(input@, max_output as nat, false) == Ok::<
                Seq<u8>,
                BitstreamError,
            >(out@) && final(scratch).held() == out@,
            Err(e) => syntax::decompressed(input@, max_output as nat, false) == Err::<
                Seq<u8>,
                BitstreamError,
            >(e),
        },
{
    match decompress_into(input, max_output, false, &mut scratch.lookup, &mut scratch.output) {
        Ok(()) => Ok(scratch.output.as_slice()),
        Err(e) => Err(e),
    }
}

/// Decompresses one entropy block; `fixed` says whether the older table form is accepted.
pub(crate) fn decompress_into(
    input: &[u8],
    max_output: usize,
    fixed: bool,
    lookup: &mut Vec<u32>,
    output: &mut Vec<u8>,
) -> (r: Result<(), BitstreamError>)
    ensures
        match r {
            Ok(()) => syntax::decompressed(input@, max_output as nat, fixed) == Ok::<
                Seq<u8>,
                BitstreamError,
            >(final(output)@),
            Err(e) => syntax::decompressed(input@, max_output as nat, fixed) == Err::<
                Seq<u8>,
                BitstreamError,
            >(e),
        },
{
    if input.len() < 5 {
        return Err(BitstreamError::UnexpectedEof);
    }
    let mode: u8 = input[0];
    let raw_len: usize = bytes::get_u32_le(input, 1) as usize;
    if raw_len > max_output {
        return Err(BitstreamError::BadEntropyHeader);
    }
    if mode == 0 {
        let held: usize = input.len() - 5;
        if held < raw_len {
            return Err(BitstreamError::UnexpectedEof);
        }
        if held > raw_len {
            return Err(BitstreamError::TrailingData);
        }
        output.clear();
        bytes::put_slice(&input[5..input.len()], output);
        assert(output@ =~= input@.skip(5));
        return Ok(());
    }
    if mode != 2 && !(fixed && mode == 1) {
        return Err(BitstreamError::BadEntropyHeader);
    }
    if input.len() < 7 {
        return Err(BitstreamError::UnexpectedEof);
    }
    let used: usize = bytes::get_u16_le(input, 5) as usize;
    if used < 1 || used > 256 {
        return Err(BitstreamError::BadEntropyModel);
    }
    let mut pos: usize = 7;
    let mut freq: Vec<u16> = vec![0u16; 256];
    let table: Result<(), BitstreamError> = if mode == 1 {
        if input.len() < 11 + 3 * used {
            return Err(BitstreamError::UnexpectedEof);
        }
        parse_fixed_model(input, used, &mut pos, &mut freq)
    } else {
        parse_entropy_model(input, used, &mut pos, &mut freq)
    };
    match table {
        Ok(()) => {},
        Err(e) => {
            return Err(e);
        },
    }
    match build_decode_lookup(&freq, lookup) {
        Ok(()) => {},
        Err(e) => {
            return Err(e);
        },
    }
    proof {
        if mode == 2 {
            syntax::lemma_scan_model_pos(input@, 7, used as nat, syntax::no_model());
        }
    }
    if input.len() - pos < 4 {
        return Err(BitstreamError::UnexpectedEof);
    }
    let coded_len: usize = bytes::get_u32_le(input, pos) as usize;
    pos = pos + 4;
    let rest: usize = input.len() - pos;
    if rest < coded_len {
        return Err(BitstreamError::UnexpectedEof);
    }
    if rest > coded_len {
        return Err(BitstreamError::TrailingData);
    }
    let lane: &[u8] = &input[pos..input.len()];
    assert(lane@ =~= input@.skip(pos as int));
    rans_decode_into(lane, raw_len, lookup, output, &freq)
}

/// Decompresses one entropy block with an explicit output-size ceiling.
pub fn entropy_decompress(input: &[u8], max_output: usize) -> (r: Result<Vec<u8>, BitstreamError>)
    ensures
        match r {
            Ok(out) => syntax::decompressed(input@, max_output as nat, false) == Ok::<
                Seq<u8>,
                BitstreamError,
            >(out@),
            Err(e) => syntax::decompressed(input@, max_output as nat, false) == Err::<
                Seq<u8>,
                BitstreamError,
            >(e),
        },
{
    let mut scratch: EntropyScratch = EntropyScratch::new();
    match decompress_into(input, max_output, false, &mut scratch.lookup, &mut scratch.output) {
        Ok(()) => Ok(scratch.output),
        Err(e) => Err(e),
    }
}

} // verus!
