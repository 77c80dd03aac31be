//! Samples as signed 16-bit little-endian bytes.
use vstd::prelude::*;

verus! {

/// The number that two bytes spell, the low byte first, as a signed one.
pub open spec fn sample_of(low: u8, high: u8) -> i16 {
    let v = low + 256 * high;
    if v < 32768 {
        v as i16
    } else {
        (v - 65536) as i16
    }
}

/// The low and the high byte of a sample.
pub open spec fn bytes_of(s: i16) -> (u8, u8) {
    let v = if s < 0 {
        s + 65536
    } else {
        s as int
    };
    ((v % 256) as u8, (v / 256) as u8)
}

/// The samples that bytes spell; an odd byte at the end does not count.
pub open spec fn samples_of(b: Seq<u8>) -> Seq<i16> {
    Seq::new(b.len() / 2, |i: int| sample_of(b[2 * i], b[2 * i + 1]))
}

/// The bytes of samples.
pub open spec fn spelled(samples: Seq<i16>) -> Seq<u8> {
    Seq::new(
        samples.len() * 2,
        |i: int|
            if i % 2 == 0 {
                bytes_of(samples[i / 2]).0
            } else {
                bytes_of(samples[i / 2]).1
            },
    )
}

/// Samples come back from their bytes.
pub proof fn law_round_trip(samples: Seq<i16>)
    ensures
        samples_of(spelled(samples)) == samples,
{
    let b = spelled(samples);
    assert forall|i: int| 0 <= i < samples.len() implies #[trigger] samples_of(b)[i] == samples[i] by {
        assert((2 * i) % 2 == 0 && (2 * i) / 2 == i);
        assert((2 * i + 1) % 2 == 1 && (2 * i + 1) / 2 == i);
        let (low, high) = bytes_of(samples[i]);
        assert(b[2 * i] == low);
        assert(b[2 * i + 1] == high);
    }
    assert(samples_of(b) =~= samples);
}

/// Reads samples.
pub fn samples_from_bytes(b: &[u8]) -> (r: Vec<i16>)
    ensures
        r@ == samples_of(b@),
{
    let mut r: Vec<i16> = Vec::new();
    let n: usize = b.len() / 2;
    let mut i: usize = 0;
    while i < n
        invariant
            n == b@.len() / 2,
            i <= n,
            r@ == samples_of(b@).take(i as int),
        decreases n - i,
    {
        assert(b.len() == b@.len());
        let v: u16 = b[2 * i] as u16 + 256 * b[2 * i + 1] as u16;
        let s: i16 = if v < 32768 {
            v as i16
        } else {
            (v as i32 - 65536) as i16
        };
        r.push(s);
        assert(r@ =~= samples_of(b@).take(i + 1));
        i = i + 1;
    }
    assert(r@ =~= samples_of(b@));
    r
}

/// Writes samples.
pub fn bytes_from_samples(samples: &[i16]) -> (r: Vec<u8>)
    ensures
        r@ == spelled(samples@),
{
    let mut r: Vec<u8> = Vec::new();
    let mut i: usize = 0;
    while i < samples.len()
        invariant
            i <= samples@.len(),
            r@.len() == 2 * i,
            r@ == spelled(samples@).take(2 * i),
        decreases samples@.len() - i,
    {
        let s: i16 = samples[i];
        let v: i32 = if s < 0 {
            s as i32 + 65536
        } else {
            s as i32
        };
        r.push((v % 256) as u8);
        r.push((v / 256) as u8);
        proof {
            let want = spelled(samples@);
            assert((2 * i) % 2 == 0 && (2 * i) / 2 == i as int);
            assert((2 * i + 1) % 2 == 1 && (2 * i + 1) / 2 == i as int);
            assert(want[2 * i] == bytes_of(s).0 && want[2 * i + 1] == bytes_of(s).1);
            assert(r@ =~= want.take(2 * (i + 1)));
        }
        i = i + 1;
    }
    assert(r@ =~= spelled(samples@));
    r
}

} // verus!
