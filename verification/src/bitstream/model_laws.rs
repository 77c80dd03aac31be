//! How the scale of a model is shared out, and which form a block takes.
use crate::bitstream::syntax;
use crate::reference::bitstream;
use vstd::prelude::*;

verus! {

// ---------------------------------------------------------------------------------------------
// Counts

/// A byte more counts for its own value and for no other; nothing counts before there is a byte.
pub proof fn law_counted(data: Seq<u8>, v: u8, s: int)
    ensures
        syntax::occurrences(Seq::empty(), s) == 0,
        syntax::occurrences(data.push(v), s) == syntax::occurrences(data, s) + if v == s {
            1int
        } else {
            0
        },
{
    assert(data.push(v).drop_last() =~= data);
}

/// The share of 4096 that is due to `count` bytes of `n`: what fits, and one at least.
pub open spec fn due(share: int, count: int, n: int) -> bool {
    if count == 0 {
        share == 0
    } else {
        &&& share >= 1
        &&& 4096 * count < (share + 1) * n
        &&& share > 1 ==> share * n <= 4096 * count
    }
}

/// What is due to a value is the start of its share.
pub proof fn law_due(data: Seq<u8>, s: int)
    requires
        data.len() > 0,
        0 <= s < 256,
    ensures
        due(
            syntax::quotas(data)[s] as int,
            syntax::occurrences(data, s) as int,
            data.len() as int,
        ),
{
    let (count, n) = (syntax::occurrences(data, s), data.len());
    syntax::lemma_occurrences(data, s);
    syntax::lemma_quota(count, n);
    let t = count * 4096 / n;
    vstd::arithmetic::div_mod::lemma_fundamental_div_mod((count * 4096) as int, n as int);
    assert(n * t == t * n) by (nonlinear_arith);
    assert((t + 1) * n == t * n + n) by (nonlinear_arith);
    assert(2 * n == n + n);
}

// ---------------------------------------------------------------------------------------------
// Shares

/// `s` was cut by more than `t`, or by as much and has the higher value.
pub open spec fn ahead(left: Seq<nat>, s: int, t: int) -> bool {
    left[s] > left[t] || left[s] == left[t] && s > t
}

proof fn lemma_most_short_ahead(count: Seq<nat>, left: Seq<nat>, i: int, t: int)
    requires
        0 <= t < i <= count.len(),
        count[t] > 0,
    ensures
        ({
            let s = syntax::most_short(count, left, i);
            s >= 0 && (s == t || ahead(left, s, t))
        }),
    decreases i,
{
    if t < i - 1 {
        lemma_most_short_ahead(count, left, i - 1, t);
    } else {
        syntax::lemma_most_short(count, left, i - 1);
    }
}

/// What is left of the scale goes, slot by slot, to the values that were cut most, and among equals to
/// the highest; a value gets a second one only when all that were cut have got one.
#[verifier::spinoff_prover]
proof fn lemma_grown(freq: Seq<u16>, count: Seq<nat>, left: Seq<nat>, k: nat, s: int, t: int)
    requires
        freq.len() == 256,
        count.len() == 256,
        left.len() == 256,
        syntax::cum(freq, 256) + k == 4096,
        exists|v: int| 0 <= v < 256 && count[v] > 0,
        0 <= s < 256,
        0 <= t < 256,
        count[t] > 0,
    ensures
        ({
            let all = syntax::grown(freq, count, left, k);
            &&& all[s] >= freq[s] && all[t] >= freq[t]
            &&& count[s] == 0 ==> all[s] == freq[s]
            &&& all[s] > freq[s] && all[t] == freq[t] ==> ahead(left, s, t)
            &&& all[s] > freq[s] + 1 && left[t] > 0 ==> all[t] > freq[t]
        }),
    decreases k,
{
    if k > 0 {
        let p = syntax::most_short(count, left, 256);
        syntax::lemma_most_short(count, left, 256);
        lemma_most_short_ahead(count, left, 256, t);
        syntax::lemma_cum_mono(freq, p + 1, 256);
        syntax::lemma_cum_update(freq, p, (freq[p] + 1) as u16, 256);
        let next = freq.update(p, (freq[p] + 1) as u16);
        lemma_grown(next, count, left.update(p, 0), (k - 1) as nat, s, t);
    }
}

proof fn lemma_most_rich(freq: Seq<u16>, count: Seq<nat>, i: int, t: int)
    requires
        0 <= t < i <= freq.len(),
        freq[t] > 1,
    ensures
        ({
            let s = syntax::most_rich(freq, count, i);
            s >= 0 && count[s] >= count[t] && (count[s] == count[t] ==> s >= t)
        }),
    decreases i,
{
    if t < i - 1 {
        lemma_most_rich(freq, count, i - 1, t);
    } else {
        syntax::lemma_most_rich(freq, count, i - 1);
    }
}

/// What there is too much goes, slot by slot, from the most frequent values, and among equals from the
/// highest; where one has lost a slot, those before it in that order have one left.
#[verifier::spinoff_prover]
proof fn lemma_shrunk(freq: Seq<u16>, count: Seq<nat>, k: nat, s: int, t: int)
    requires
        freq.len() == 256,
        count.len() == 256,
        syntax::cum(freq, 256) == 4096 + k,
        0 <= s < 256,
        0 <= t < 256,
    ensures
        ({
            let all = syntax::shrunk(freq, count, k);
            &&& all[s] <= freq[s]
            &&& all[s] < freq[s] ==> all[s] >= 1
            &&& all[s] < freq[s] && (count[t] > count[s] || count[t] == count[s] && t > s) ==> all[t]
                <= 1
        }),
    decreases k,
{
    if k > 0 {
        syntax::lemma_most_rich(freq, count, 256);
        let p = syntax::most_rich(freq, count, 256);
        syntax::lemma_cum_update(freq, p, (freq[p] - 1) as u16, 256);
        let next = freq.update(p, (freq[p] - 1) as u16);
        lemma_shrunk(next, count, (k - 1) as nat, s, t);
        lemma_shrunk(next, count, (k - 1) as nat, t, t);
        if freq[t] > 1 {
            lemma_most_rich(freq, count, 256, t);
        }
    }
}

/// How much is cut from the share of a value: what 4096 times its count leaves when the bytes divide
/// it.
pub open spec fn cut(data: Seq<u8>, s: int, c: int) -> bool {
    &&& 0 <= c < data.len()
    &&& exists|t: int| #[trigger] (t * data.len()) + c == 4096 * syntax::occurrences(data, s)
}

/// A model shares 4096 out among the values of the data. Where less than that is due, no value has
/// less than is due to it, the rest goes to those that were cut most, among equals to the highest, and
/// none gets a second slot before all that were cut have got one. Where more is due, no value has more,
/// and what is too much goes from the most frequent ones.
pub proof fn law_shares(data: Seq<u8>, s: int, t: int)
    requires
        data.len() > 0,
        0 <= s < 256,
        0 <= t < 256,
        syntax::occurrences(data, t) > 0,
    ensures
        ({
            let all = syntax::model_for(data);
            let start = syntax::quotas(data);
            let left = syntax::leftovers(data);
            let (a, b) = (syntax::occurrences(data, s), syntax::occurrences(data, t));
            &&& all.len() == 256
            &&& syntax::cum(all, 256) == 4096
            &&& a == 0 ==> all[s] == 0
            &&& all[t] >= 1
            &&& syntax::cum(start, 256) <= 4096 ==> {
                &&& all[s] >= start[s]
                &&& all[s] > start[s] && all[t] == start[t] ==> ahead(left, s, t)
                &&& all[s] > start[s] + 1 && left[t] > 0 ==> all[t] > start[t]
            }
            &&& syntax::cum(start, 256) > 4096 ==> {
                &&& all[s] <= start[s]
                &&& all[s] < start[s] && (b > a || b == a && t > s) ==> all[t] <= 1
            }
        }),
{
    let start = syntax::quotas(data);
    let count = syntax::counts(data);
    let left = syntax::leftovers(data);
    let sum = syntax::cum(start, 256);
    syntax::law_model_for(data);
    syntax::lemma_occurrences(data, s);
    syntax::lemma_occurrences(data, t);
    syntax::lemma_quota(syntax::occurrences(data, s), data.len());
    syntax::lemma_quota(syntax::occurrences(data, t), data.len());
    assert(count[t] > 0);
    if sum < 4096 {
        lemma_grown(start, count, left, (4096 - sum) as nat, s, t);
    } else {
        lemma_shrunk(start, count, (sum - 4096) as nat, s, t);
        lemma_shrunk(start, count, (sum - 4096) as nat, t, t);
    }
}

/// What is cut from a share is what a division leaves.
pub proof fn law_cut(data: Seq<u8>, s: int)
    requires
        data.len() > 0,
        0 <= s < 256,
    ensures
        cut(data, s, syntax::leftovers(data)[s] as int),
{
    let (count, n) = (syntax::occurrences(data, s), data.len());
    syntax::lemma_occurrences(data, s);
    syntax::lemma_quota(count, n);
    let t = (count * 4096 / n) as int;
    vstd::arithmetic::div_mod::lemma_fundamental_div_mod((count * 4096) as int, n as int);
    assert(n * t == t * n) by (nonlinear_arith);
    if count == 0 {
        assert(0int * n == 0) by (nonlinear_arith);
        assert((0int * data.len()) + 0 == 4096 * count);
    } else {
        assert((t * data.len()) + syntax::leftovers(data)[s] == 4096 * count);
    }
}

// ---------------------------------------------------------------------------------------------
// The reference encoder

/// `s` was cut by more than `t`, or by as much and has the lower value.
pub open spec fn first_ahead(left: Seq<nat>, s: int, t: int) -> bool {
    left[s] > left[t] || left[s] == left[t] && s < t
}

proof fn lemma_first_short(count: Seq<nat>, left: Seq<nat>, i: int, t: int)
    requires
        0 <= t < i,
        count[t] > 0,
    ensures
        ({
            let s = bitstream::first_short(count, left, i);
            0 <= s < i && (s == t || first_ahead(left, s, t))
        }),
    decreases i,
{
    if i > 1 {
        if t < i - 1 {
            lemma_first_short(count, left, i - 1, t);
        } else {
            lemma_first_place(count, left, i - 1);
        }
    }
}

proof fn lemma_first_place(count: Seq<nat>, left: Seq<nat>, i: int)
    requires
        1 <= i,
    ensures
        0 <= bitstream::first_short(count, left, i) < i,
    decreases i,
{
    if i > 1 {
        lemma_first_place(count, left, i - 1);
    }
}

#[verifier::spinoff_prover]
proof fn lemma_reference_grown(
    freq: Seq<u16>,
    count: Seq<nat>,
    left: Seq<nat>,
    k: nat,
    s: int,
    t: int,
)
    requires
        freq.len() == 256,
        count.len() == 256,
        left.len() == 256,
        syntax::cum(freq, 256) + k == 4096,
        0 <= s < 256,
        0 <= t < 256,
        count[t] > 0,
    ensures
        ({
            let all = bitstream::grown(freq, count, left, k);
            &&& all[s] >= freq[s] && all[t] >= freq[t]
            &&& all[s] > freq[s] && all[t] == freq[t] ==> first_ahead(left, s, t)
            &&& all[s] > freq[s] + 1 && left[t] > 0 ==> all[t] > freq[t]
        }),
    decreases k,
{
    if k > 0 {
        let p = bitstream::first_short(count, left, 256);
        lemma_first_short(count, left, 256, t);
        syntax::lemma_cum_mono(freq, p + 1, 256);
        syntax::lemma_cum_update(freq, p, (freq[p] + 1) as u16, 256);
        let next = freq.update(p, (freq[p] + 1) as u16);
        lemma_reference_grown(next, count, left.update(p, 0), (k - 1) as nat, s, t);
    }
}

/// The same of the reference encoder, which among equals gives to the lowest value.
pub proof fn law_reference_shares(data: Seq<u8>, s: int, t: int)
    requires
        data.len() > 0,
        0 <= s < 256,
        0 <= t < 256,
        syntax::occurrences(data, t) > 0,
    ensures
        ({
            let all = bitstream::model_for(data);
            let start = syntax::quotas(data);
            let left = syntax::leftovers(data);
            let (a, b) = (syntax::occurrences(data, s), syntax::occurrences(data, t));
            &&& all.len() == 256
            &&& syntax::cum(all, 256) == 4096
            &&& all[t] >= 1
            &&& syntax::cum(start, 256) <= 4096 ==> {
                &&& all[s] >= start[s]
                &&& all[s] > start[s] && all[t] == start[t] ==> first_ahead(left, s, t)
                &&& all[s] > start[s] + 1 && left[t] > 0 ==> all[t] > start[t]
            }
            &&& syntax::cum(start, 256) > 4096 ==> {
                &&& all[s] <= start[s]
                &&& all[s] < start[s] && (b > a || b == a && t > s) ==> all[t] <= 1
            }
        }),
{
    let start = syntax::quotas(data);
    let count = syntax::counts(data);
    let left = syntax::leftovers(data);
    let sum = syntax::cum(start, 256);
    bitstream::law_model_for(data);
    syntax::lemma_occurrences(data, t);
    syntax::lemma_quota(syntax::occurrences(data, t), data.len());
    assert(count[t] > 0);
    if sum < 4096 {
        lemma_reference_grown(start, count, left, (4096 - sum) as nat, s, t);
    } else {
        lemma_shrunk(start, count, (sum - 4096) as nat, s, t);
        lemma_shrunk(start, count, (sum - 4096) as nat, t, t);
    }
}

// ---------------------------------------------------------------------------------------------
// Coding

/// Nothing is coded by the state 2^23 and no bytes.
pub proof fn law_coder_starts(freq: Seq<u16>)
    ensures
        syntax::rans_state(Seq::empty(), freq) == (8388608int, Seq::<u8>::empty()),
{
}

/// One more symbol in front, where the state need not shed bytes: the state is the share of the symbol
/// times some number and a rest; the number counts 4096 times, and the rest is added to where the share
/// starts.
pub proof fn law_coder_steps(
    data: Seq<u8>,
    v: u8,
    freq: Seq<u16>,
    x: int,
    tail: Seq<u8>,
    n: int,
    rest: int,
)
    requires
        syntax::rans_state(data, freq) == (x, tail),
        0 <= x < 524288 * freq[v as int],
        x == n * freq[v as int] + rest,
        0 <= rest < freq[v as int],
    ensures
        syntax::rans_state(seq![v] + data, freq) == (
            4096 * n + crate::bitstream::value_laws::below(freq, v as int) + rest,
            tail,
        ),
{
    let all = seq![v] + data;
    assert(all.drop_first() =~= data);
    assert(all[0] == v);
    crate::bitstream::value_laws::lemma_below(freq, v as int);
    vstd::arithmetic::div_mod::lemma_fundamental_div_mod_converse(x, freq[v as int] as int, n, rest);
}

/// Where it is too large it sheds its lowest byte, which goes in front of the others.
pub proof fn law_coder_sheds(x: int, tail: Seq<u8>, cap: int)
    requires
        x >= cap > 0,
    ensures
        syntax::shed(x, tail, cap) == syntax::shed(x / 256, seq![(x % 256) as u8] + tail, cap),
{
}

// ---------------------------------------------------------------------------------------------
// Blocks

/// A block is the shorter of the one with the bytes as they are, which takes five more, and the coded
/// one; where both take as much, the first.
pub proof fn law_shorter(data: Seq<u8>, freq: Seq<u16>)
    ensures
        ({
            let (block, coded) = (syntax::block_with(data, freq), syntax::coded_block(data, freq));
            &&& block.len() == if data.len() + 5 <= coded.len() {
                data.len() + 5
            } else {
                coded.len()
            }
            &&& block[0] == if data.len() + 5 <= coded.len() {
                0u8
            } else {
                2
            }
        }),
{
    crate::bytes::lemma_le_bytes_len(data.len() as int, 4);
}

/// The table of a block lists the values that have slots, in ascending order: what is listed from `a`
/// on starts with the least of them.
pub proof fn law_table_order(freq: Seq<u16>, a: int, s: int)
    requires
        0 <= a <= s < 256,
        freq[s] != 0,
        forall|i: int| a <= i < s ==> #[trigger] freq[i] == 0,
    ensures
        syntax::model_bytes(freq, a) == seq![s as u8] + syntax::uvarint_bytes(freq[s] as nat)
            + syntax::model_bytes(freq, s + 1),
        syntax::used_from(freq, a) == syntax::used_from(freq, s + 1) + 1,
    decreases s - a,
{
    if a < s {
        assert(freq[a] == 0);
        law_table_order(freq, a + 1, s);
    }
}

/// Where no value has slots any more, nothing is listed.
pub proof fn law_table_end(freq: Seq<u16>, a: int)
    requires
        0 <= a <= 256,
        forall|i: int| a <= i < 256 ==> #[trigger] freq[i] == 0,
    ensures
        syntax::model_bytes(freq, a).len() == 0,
        syntax::used_from(freq, a) == 0,
    decreases 256 - a,
{
    if a < 256 {
        assert(freq[a] == 0);
        law_table_end(freq, a + 1);
    }
}

} // verus!
