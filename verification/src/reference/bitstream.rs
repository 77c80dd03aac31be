//! Varints and entropy blocks as the reference codecs write and read them. The blocks differ from
//! the production ones in which of several equally short symbols gets a spare slot, and the older
//! table form is still read.
use crate::bitstream::syntax;
use crate::bitstream::v1::{
    build_encode_model, compress_with, count_bytes, decompress_into, shares, shrink, EncodeModel,
};
use crate::bitstream::v1;
use vstd::prelude::*;

pub use crate::bitstream::v1::{
    get_svarint_i32, get_uvarint, put_svarint_i32, put_uvarint, unzigzag_u32, zigzag_i32,
    BitstreamError,
};

verus! {

/// The first among the symbols below `i` with the greatest leftover; a symbol that does not occur
/// is taken only as the very first.
pub open spec fn first_short(count: Seq<nat>, left: Seq<nat>, i: int) -> int
    decreases i,
{
    if i <= 1 {
        0
    } else {
        let best = first_short(count, left, i - 1);
        if count[i - 1] > 0 && left[i - 1] > left[best] {
            i - 1
        } else {
            best
        }
    }
}

/// Gives `k` more slots, one at a time, each to the first symbol that was cut most.
pub open spec fn grown(freq: Seq<u16>, count: Seq<nat>, left: Seq<nat>, k: nat) -> Seq<u16>
    decreases k,
{
    if k == 0 {
        freq
    } else {
        let s = first_short(count, left, 256);
        grown(freq.update(s, (freq[s] + 1) as u16), count, left.update(s, 0), (k - 1) as nat)
    }
}

/// The model that `data` is coded with.
pub open spec fn model_for(data: Seq<u8>) -> Seq<u16> {
    if data.len() == 0 {
        syntax::model_for(data)
    } else {
        let start = syntax::quotas(data);
        let sum = syntax::cum(start, 256);
        if sum < syntax::SCALE {
            grown(
                start,
                syntax::counts(data),
                syntax::leftovers(data),
                (syntax::SCALE - sum) as nat,
            )
        } else {
            syntax::shrunk(start, syntax::counts(data), (sum - syntax::SCALE) as nat)
        }
    }
}

/// The entropy block of `data`.
pub open spec fn compressed(data: Seq<u8>) -> Seq<u8> {
    syntax::block_with(data, model_for(data))
}

proof fn lemma_first_short(count: Seq<nat>, left: Seq<nat>, i: int)
    requires
        1 <= i,
    ensures
        0 <= first_short(count, left, i) < i,
    decreases i,
{
    if i > 1 {
        lemma_first_short(count, left, i - 1);
    }
}

proof fn lemma_grown(freq: Seq<u16>, count: Seq<nat>, left: Seq<nat>, k: nat)
    requires
        freq.len() == 256,
        syntax::cum(freq, 256) + k == syntax::SCALE,
    ensures
        syntax::valid_model(grown(freq, count, left, k)),
        forall|s: int| 0 <= s < 256 ==> grown(freq, count, left, k)[s] >= freq[s],
    decreases k,
{
    if k > 0 {
        lemma_first_short(count, left, 256);
        let s = first_short(count, left, 256);
        syntax::lemma_cum_mono(freq, s + 1, 256);
        syntax::lemma_cum_update(freq, s, (freq[s] + 1) as u16, 256);
        let next = freq.update(s, (freq[s] + 1) as u16);
        lemma_grown(next, count, left.update(s, 0), (k - 1) as nat);
        assert forall|i: int| 0 <= i < 256 implies grown(freq, count, left, k)[i] >= freq[i] by {
            assert(next[i] >= freq[i]);
        }
    }
}

/// The chosen model deals out the whole scale and has a slot for every symbol of the data.
pub proof fn law_model_for(data: Seq<u8>)
    ensures
        syntax::valid_model(model_for(data)),
        syntax::covers(model_for(data), data),
{
    if data.len() == 0 {
        syntax::law_model_for(data);
    } else {
        let start = syntax::quotas(data);
        let count = syntax::counts(data);
        let sum = syntax::cum(start, 256);
        assert forall|s: int| 0 <= s < 256 implies (#[trigger] start[s] > 0 <==> count[s] > 0) by {
            syntax::lemma_occurrences(data, s);
            syntax::lemma_quota(syntax::occurrences(data, s), data.len());
        }
        if sum < syntax::SCALE {
            lemma_grown(start, count, syntax::leftovers(data), (syntax::SCALE - sum) as nat);
        } else {
            syntax::lemma_shrunk(start, count, (sum - syntax::SCALE) as nat);
        }
        assert forall|i: int| 0 <= i < data.len() implies model_for(data)[#[trigger] data[i] as int]
            > 0 by {
            syntax::lemma_occurrences(data, data[i] as int);
            assert(count[data[i] as int] > 0);
            assert(start[data[i] as int] > 0);
        }
    }
}

/// A reference block is read back by the reference and by production, for every output limit that
/// admits its data; and so is a production block by the reference.
pub proof fn law_blocks_exchange(data: Seq<u8>, max: nat, fixed: bool)
    requires
        data.len() <= max,
        data.len() <= u32::MAX,
    ensures
        syntax::decompressed(compressed(data), max, fixed) == Ok::<Seq<u8>, BitstreamError>(data),
        syntax::decompressed(syntax::compressed(data), max, fixed) == Ok::<Seq<u8>, BitstreamError>(
            data,
        ),
        compressed(data).len() <= data.len() + 5,
{
    law_model_for(data);
    syntax::lemma_block_with(data, model_for(data), max, fixed);
    syntax::law_entropy_round_trip(data, max, fixed);
    crate::bytes::lemma_le_bytes_len(data.len() as int, 4);
}

/// What production reads of a block, the reference reads too.
pub proof fn law_older_form_only_adds(input: Seq<u8>, max: nat)
    ensures
        syntax::decompressed(input, max, false) matches Ok(data) ==> syntax::decompressed(
            input,
            max,
            true,
        ) == Ok::<Seq<u8>, BitstreamError>(data),
{
}

/// The first symbol with the greatest leftover.
fn find_short(counts: &Vec<u32>, left: &Vec<u64>) -> (r: usize)
    requires
        counts@.len() == 256,
        left@.len() == 256,
    ensures
        r < 256,
        r == first_short(v1::nats32(counts@), v1::nats64(left@), 256),
{
    let mut best: usize = 0;
    let mut i: usize = 1;
    while i < 256
        invariant
            counts@.len() == 256,
            left@.len() == 256,
            1 <= i <= 256,
            best < i,
            best == first_short(v1::nats32(counts@), v1::nats64(left@), i as int),
        decreases 256 - i,
    {
        if counts[i] > 0 && left[i] > left[best] {
            best = i;
        }
        i = i + 1;
    }
    best
}

/// The model that `data` is coded with: shares by frequency, rounded to sum to the scale.
fn normalize(data: &[u8]) -> (m: EncodeModel)
    requires
        data@.len() <= u32::MAX,
    ensures
        m.wf(),
        m.freq@ == model_for(data@),
{
    proof {
        law_model_for(data@);
    }
    let counts: Vec<u32> = count_bytes(data);
    let mut freq: Vec<u16> = vec![0u16; 256];
    if data.len() == 0 {
        freq.set(0, 4096);
        assert(freq@ =~= model_for(data@));
    } else {
        let (start, mut left, mut sum): (Vec<u16>, Vec<u64>, u32) = shares(data, &counts);
        freq = start;
        let ghost goal = model_for(data@);
        if sum < syntax::SCALE {
            while sum < syntax::SCALE
                invariant
                    freq@.len() == 256,
                    counts@.len() == 256,
                    left@.len() == 256,
                    sum == syntax::cum(freq@, 256),
                    sum <= syntax::SCALE,
                    goal == grown(
                        freq@,
                        v1::nats32(counts@),
                        v1::nats64(left@),
                        (syntax::SCALE - sum) as nat,
                    ),
                decreases syntax::SCALE - sum,
            {
                let s: usize = find_short(&counts, &left);
                let f: u16 = freq[s];
                proof {
                    syntax::lemma_cum_mono(freq@, s + 1, 256);
                    syntax::lemma_cum_update(freq@, s as int, (f + 1) as u16, 256);
                    assert(v1::nats64(left@.update(s as int, 0)) =~= v1::nats64(left@).update(
                        s as int,
                        0,
                    ));
                }
                freq.set(s, f + 1);
                left.set(s, 0);
                sum = sum + 1;
            }
        } else {
            shrink(&mut freq, &counts, sum);
        }
        assert(freq@ == goal);
    }
    match build_encode_model(freq) {
        Ok(m) => m,
        Err(_) => EncodeModel { freq: Vec::new(), cum: Vec::new() },
    }
}

/// Compresses a byte sequence into a raw or a coded block, whichever is shorter.
pub fn entropy_compress(data: &[u8]) -> (block: Vec<u8>)
    requires
        data@.len() <= u32::MAX,
    ensures
        block@ == compressed(data@),
{
    proof {
        law_model_for(data@);
    }
    let model: EncodeModel = normalize(data);
    compress_with(data, &model)
}

/// Decompresses one entropy block, of the present or the older table form, with an explicit
/// output-size ceiling.
pub fn entropy_decompress(input: &[u8], max_output: usize) -> (r: Result<Vec<u8>, BitstreamError>)
    ensures
        match r {
            Ok(out) => syntax::decompressed(input@, max_output as nat, true) == Ok::<
                Seq<u8>,
                BitstreamError,
            >(out@),
            Err(e) => syntax::decompressed(input@, max_output as nat, true) == Err::<
                Seq<u8>,
                BitstreamError,
            >(e),
        },
{
    let mut lookup: Vec<u32> = Vec::new();
    let mut output: Vec<u8> = Vec::new();
    match decompress_into(input, max_output, true, &mut lookup, &mut output) {
        Ok(()) => Ok(output),
        Err(e) => Err(e),
    }
}

} // verus!
