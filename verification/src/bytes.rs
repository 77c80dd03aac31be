//! Little-endian integers in byte sequences.
use vstd::prelude::*;

verus! {

/// The `n` low bytes of `v`, least significant first.
pub open spec fn le_bytes(v: int, n: nat) -> Seq<u8>
    decreases n,
{
    if n == 0 {
        Seq::empty()
    } else {
        seq![(v % 256) as u8] + le_bytes(v / 256, (n - 1) as nat)
    }
}

/// The number that `s` spells, least significant byte first.
pub open spec fn le_value(s: Seq<u8>) -> nat
    decreases s.len(),
{
    if s.len() == 0 {
        0
    } else {
        s[0] as nat + 256 * le_value(s.drop_first())
    }
}

/// `256` to the power `n`: the number of values that `n` bytes can spell.
pub open spec fn le_bound(n: nat) -> nat
    decreases n,
{
    if n == 0 {
        1
    } else {
        256 * le_bound((n - 1) as nat)
    }
}

pub proof fn lemma_le_bounds()
    ensures
        le_bound(1) == 0x100,
        le_bound(2) == 0x1_0000,
        le_bound(4) == 0x1_0000_0000,
        le_bound(8) == 0x1_0000_0000_0000_0000,
{
    reveal_with_fuel(le_bound, 9);
}

pub proof fn lemma_le_bytes_len(v: int, n: nat)
    ensures
        le_bytes(v, n).len() == n,
    decreases n,
{
    if n > 0 {
        lemma_le_bytes_len(v / 256, (n - 1) as nat);
    }
}

pub proof fn lemma_le_value_bound(s: Seq<u8>)
    ensures
        le_value(s) < le_bound(s.len()),
    decreases s.len(),
{
    if s.len() > 0 {
        lemma_le_value_bound(s.drop_first());
    }
}

/// Reading back what was written gives the number written.
pub proof fn lemma_le_write_read(v: int, n: nat)
    requires
        0 <= v < le_bound(n),
    ensures
        le_bytes(v, n).len() == n,
        le_value(le_bytes(v, n)) == v,
    decreases n,
{
    lemma_le_bytes_len(v, n);
    if n > 0 {
        lemma_le_write_read(v / 256, (n - 1) as nat);
        assert(le_bytes(v, n).drop_first() =~= le_bytes(v / 256, (n - 1) as nat));
    }
}

/// Writing the number that a byte sequence spells gives the sequence back.
pub proof fn lemma_le_read_write(s: Seq<u8>)
    ensures
        le_bytes(le_value(s) as int, s.len()) == s,
    decreases s.len(),
{
    if s.len() > 0 {
        lemma_le_read_write(s.drop_first());
        let rest = le_value(s.drop_first());
        assert((s[0] as nat + 256 * rest) % 256 == s[0] as nat);
        assert((s[0] as nat + 256 * rest) / 256 == rest);
        assert(seq![s[0]] + s.drop_first() =~= s);
    } else {
        assert(s =~= Seq::empty());
    }
}

pub proof fn lemma_le_value_2(s: Seq<u8>)
    requires
        s.len() == 2,
    ensures
        le_value(s) == s[0] + 256 * s[1],
{
    reveal_with_fuel(le_value, 3);
}

pub proof fn lemma_le_value_4(s: Seq<u8>)
    requires
        s.len() == 4,
    ensures
        le_value(s) == s[0] + 256 * s[1] + 65536 * s[2] + 16777216 * s[3],
{
    reveal_with_fuel(le_value, 5);
}

pub proof fn lemma_le_value_split(s: Seq<u8>, k: int)
    requires
        0 <= k <= s.len(),
    ensures
        le_value(s) == le_value(s.take(k)) + le_bound(k as nat) * le_value(s.skip(k)),
    decreases s.len(),
{
    if k == 0 {
        assert(s.skip(0) =~= s);
        assert(s.take(0) =~= Seq::empty());
        assert(le_bound(0) == 1);
        assert(1 * le_value(s) == le_value(s));
    } else {
        lemma_le_value_split(s.drop_first(), k - 1);
        assert(s.drop_first().take(k - 1) =~= s.take(k).drop_first());
        assert(s.drop_first().skip(k - 1) =~= s.skip(k));
        let a = le_value(s.take(k).drop_first());
        let b = le_value(s.skip(k));
        let m = le_bound((k - 1) as nat);
        assert(256 * (a + m * b) == 256 * a + (256 * m) * b) by (nonlinear_arith);
        assert(s.take(k)[0] == s[0]);
        assert(le_bound(k as nat) == 256 * m);
    }
}

/// Only the low bytes of a number are written.
proof fn lemma_le_bytes_mod(v: int, n: nat)
    requires
        0 <= v,
    ensures
        le_bytes(v % le_bound(n) as int, n) == le_bytes(v, n),
        le_bound(n) > 0,
    decreases n,
{
    if n > 0 {
        let m = le_bound((n - 1) as nat) as int;
        lemma_le_bytes_mod(v / 256, (n - 1) as nat);
        vstd::arithmetic::div_mod::lemma_breakdown(v, 256, m);
        let low = v % (256 * m);
        assert(low == 256 * ((v / 256) % m) + v % 256);
        assert(low % 256 == v % 256);
        assert(low / 256 == (v / 256) % m);
    }
}

/// Counts are written by their low bytes.
pub proof fn lemma_le_bytes_low(v: int)
    requires
        0 <= v,
    ensures
        le_bytes(v % 0x1_0000, 2) == le_bytes(v, 2),
        le_bytes(v % 0x1_0000_0000, 4) == le_bytes(v, 4),
{
    lemma_le_bounds();
    lemma_le_bytes_mod(v, 2);
    lemma_le_bytes_mod(v, 4);
}

/// Appends `v` as two bytes.
pub fn put_u16_le(v: u16, out: &mut Vec<u8>)
    ensures
        final(out)@ == old(out)@ + le_bytes(v as int, 2),
{
    out.push((v % 256) as u8);
    out.push((v / 256) as u8);
    proof {
        reveal_with_fuel(le_bytes, 3);
        assert(out@ =~= old(out)@ + le_bytes(v as int, 2));
    }
}

/// Appends `v` as four bytes.
pub fn put_u32_le(v: u32, out: &mut Vec<u8>)
    ensures
        final(out)@ == old(out)@ + le_bytes(v as int, 4),
{
    out.push((v % 256) as u8);
    out.push((v / 256 % 256) as u8);
    out.push((v / 256 / 256 % 256) as u8);
    out.push((v / 256 / 256 / 256) as u8);
    proof {
        reveal_with_fuel(le_bytes, 5);
        assert(out@ =~= old(out)@ + le_bytes(v as int, 4));
    }
}

/// Appends `v` as eight bytes.
pub fn put_u64_le(v: u64, out: &mut Vec<u8>)
    ensures
        final(out)@ == old(out)@ + le_bytes(v as int, 8),
{
    let low: u32 = (v % 0x1_0000_0000) as u32;
    let high: u32 = (v / 0x1_0000_0000) as u32;
    put_u32_le(low, out);
    put_u32_le(high, out);
    proof {
        lemma_le_bounds();
        lemma_le_write_read(low as int, 4);
        lemma_le_write_read(high as int, 4);
        let whole = le_bytes(low as int, 4) + le_bytes(high as int, 4);
        lemma_le_value_split(whole, 4);
        assert(whole.take(4) =~= le_bytes(low as int, 4));
        assert(whole.skip(4) =~= le_bytes(high as int, 4));
        assert(le_value(whole) == v);
        lemma_le_read_write(whole);
        assert(out@ =~= old(out)@ + whole);
    }
}

/// Reads the two bytes at `pos`.
pub fn get_u16_le(s: &[u8], pos: usize) -> (v: u16)
    requires
        pos + 2 <= s@.len(),
    ensures
        v == le_value(s@.subrange(pos as int, pos + 2)),
{
    proof {
        lemma_le_value_2(s@.subrange(pos as int, pos + 2));
    }
    s[pos] as u16 + 256 * s[pos + 1] as u16
}

/// Reads the four bytes at `pos`.
pub fn get_u32_le(s: &[u8], pos: usize) -> (v: u32)
    requires
        pos + 4 <= s@.len(),
    ensures
        v == le_value(s@.subrange(pos as int, pos + 4)),
{
    proof {
        lemma_le_value_4(s@.subrange(pos as int, pos + 4));
    }
    s[pos] as u32 + 256 * s[pos + 1] as u32 + 65536 * s[pos + 2] as u32 + 16777216 * s[pos + 3] as u32
}

/// Reads the eight bytes at `pos`.
pub fn get_u64_le(s: &[u8], pos: usize) -> (v: u64)
    requires
        pos + 8 <= s@.len(),
    ensures
        v == le_value(s@.subrange(pos as int, pos + 8)),
{
    assert(s.len() == s@.len());
    let low: u32 = get_u32_le(s, pos);
    let high: u32 = get_u32_le(s, pos + 4);
    proof {
        lemma_le_bounds();
        let whole = s@.subrange(pos as int, pos + 8);
        lemma_le_value_split(whole, 4);
        assert(whole.take(4) =~= s@.subrange(pos as int, pos + 4));
        assert(whole.skip(4) =~= s@.subrange(pos + 4, pos + 8));
    }
    assert(0x1_0000_0000 * high <= 0xffff_ffff_0000_0000) by (nonlinear_arith)
        requires
            high <= 0xffff_ffff,
    ;
    low as u64 + 0x1_0000_0000 * high as u64
}

/// Appends all of `s`.
pub fn put_slice(s: &[u8], out: &mut Vec<u8>)
    ensures
        final(out)@ == old(out)@ + s@,
{
    out.extend_from_slice(s);
    assert(out@ =~= old(out)@ + s@);
}

} // verus!
