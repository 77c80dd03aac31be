//! Damage that can be repeated: bits that a number picks.
use crate::bytes::put_slice;
use vstd::prelude::*;

verus! {

/// The number after this one.
pub open spec fn following(x: u64) -> u64 {
    let a = x ^ (x << 7u64);
    let b = a ^ (a >> 9u64);
    b ^ (b << 8u64)
}

/// The number after this one.
pub fn next_number(x: u64) -> (r: u64)
    ensures
        r == following(x),
{
    let a: u64 = x ^ (x << 7u64);
    let b: u64 = a ^ (a >> 9u64);
    b ^ (b << 8u64)
}

/// Bytes with one bit flipped: the byte is picked by `place`, the bit by the low three bits of
/// `bit`. Nothing can be flipped in nothing.
pub open spec fn flipped(data: Seq<u8>, place: usize, bit: u64) -> Seq<u8> {
    if data.len() == 0 {
        data
    } else {
        let p = place as int % data.len() as int;
        data.update(p, data[p] ^ (1u8 << ((bit & 7) as u8)))
    }
}

/// Copies bytes and flips one bit.
pub fn flip_bit(data: &[u8], place: usize, bit: u64) -> (r: Vec<u8>)
    ensures
        r@ == flipped(data@, place, bit),
{
    let mut m: Vec<u8> = Vec::new();
    put_slice(data, &mut m);
    assert(m@ =~= data@);
    if m.len() == 0 {
        return m;
    }
    let p: usize = place % m.len();
    proof {
        assert(bit & 7 < 8) by (bit_vector);
    }
    let k: u8 = (bit & 7) as u8;
    let v: u8 = m[p];
    m[p] = v ^ (1u8 << k);
    assert(m@ =~= flipped(data@, place, bit));
    m
}

} // verus!
