//! Why numbers and entropy blocks are refused; and that nothing else is.
use crate::bitstream::syntax;
use crate::bitstream::v1::BitstreamError;
use crate::container::v1::layout_laws;
use vstd::prelude::*;

verus! {

// ---------------------------------------------------------------------------------------------
// Numbers

/// A byte of a number with more to follow: its low seven bits count, and the rest counts 128 times as
/// much. A number has at most ten bytes.
pub proof fn law_number_goes_on(input: Seq<u8>, pos: int, i: int)
    requires
        0 <= i < 9,
        0 <= pos < input.len(),
        input[pos] >= 128,
    ensures
        ({
            let (rest, end) = syntax::scan_uvarint(input, pos + 1, i + 1);
            &&& syntax::scan_uvarint(input, pos, i).1 == end
            &&& match rest {
                Ok(v) => syntax::scan_uvarint(input, pos, i).0 == Ok::<nat, BitstreamError>(
                    (input[pos] - 128 + 128 * v) as nat,
                ),
                Err(e) => syntax::scan_uvarint(input, pos, i).0 == Err::<nat, BitstreamError>(e),
            }
        }),
{
}

/// The last byte of a number is below 128; one that adds nothing is refused, unless it is the only
/// one. The tenth byte may add one bit, and nothing may follow it. A number that stops short is refused.
pub proof fn law_number_ends(input: Seq<u8>, pos: int, i: int)
    requires
        0 <= i <= 9,
        0 <= pos,
    ensures
        pos >= input.len() ==> syntax::scan_uvarint(input, pos, i).0 == Err::<nat, BitstreamError>(
            BitstreamError::UnexpectedEof,
        ),
        pos < input.len() && input[pos] < 128 ==> syntax::scan_uvarint(input, pos, i) == (if i == 9
            && input[pos] > 1 {
            Err::<nat, BitstreamError>(BitstreamError::VarintOverflow)
        } else if i > 0 && input[pos] == 0 {
            Err(BitstreamError::OverlongVarint)
        } else {
            Ok(input[pos] as nat)
        }, pos + 1),
        pos < input.len() && i == 9 && input[pos] > 129 ==> syntax::scan_uvarint(input, pos, i) == (
            Err::<nat, BitstreamError>(BitstreamError::VarintOverflow),
            pos + 1,
        ),
        pos < input.len() && i == 9 && 128 <= input[pos] <= 129 ==> syntax::scan_uvarint(input, pos, i).0
            == Err::<nat, BitstreamError>(BitstreamError::VarintTooLong),
{
    reveal_with_fuel(syntax::scan_uvarint, 2);
}

/// A signed number is read from one of at most 32 bits: half of it where that is even, and where it is
/// odd what cancels half of the next one.
pub proof fn law_signed_read(input: Seq<u8>, pos: int, u: u64)
    requires
        syntax::read_uvarint(input, pos) == Ok::<u64, BitstreamError>(u),
    ensures
        u < 4294967296 && u % 2 == 0 ==> (syntax::read_svarint(input, pos) matches Ok(
            v,
        ) && v + v == u),
        u < 4294967296 && u % 2 == 1 ==> (syntax::read_svarint(input, pos) matches Ok(
            v,
        ) && -v - v == u + 1),
        u >= 4294967296 ==> syntax::read_svarint(input, pos) == Err::<i32, BitstreamError>(
            BitstreamError::VarintOverflow,
        ),
{
}

// ---------------------------------------------------------------------------------------------
// Blocks

/// The faults of an entropy block, in the order in which they are looked for.
pub proof fn law_block_faults(input: Seq<u8>, max: nat, fixed: bool)
    ensures
        ({
            let told = syntax::decompressed(input, max, fixed);
            let n = layout_laws::four(input, 1);
            let used = layout_laws::two(input, 5);
            let long = input.len() >= 5;
            let small = long && n <= max;
            let coded = small && (input[0] == 2 || input[0] == 1 && fixed);
            let headed = coded && input.len() >= 7;
            &&& !long || coded && !headed || small && input[0] == 0 && input.len() < 5 + n ==> told
                == Err::<Seq<u8>, BitstreamError>(BitstreamError::UnexpectedEof)
            &&& long && !small || small && input[0] != 0 && !coded ==> told == Err::<
                Seq<u8>,
                BitstreamError,
            >(BitstreamError::BadEntropyHeader)
            &&& small && input[0] == 0 && input.len() > 5 + n ==> told == Err::<Seq<u8>, BitstreamError>(
                BitstreamError::TrailingData,
            )
            &&& headed && !(1 <= used <= 256) ==> told == Err::<Seq<u8>, BitstreamError>(
                BitstreamError::BadEntropyModel,
            )
            &&& headed && 1 <= used <= 256 && input[0] == 2 ==> match syntax::scan_model(
                input,
                7,
                used as nat,
                Seq::new(256, |s: int| 0u16),
            ) {
                Err(e) => told == Err::<Seq<u8>, BitstreamError>(e),
                Ok((freq, pos)) => told == syntax::block_lane(input, pos, n as nat, freq),
            }
            &&& headed && 1 <= used <= 256 && input[0] == 1 ==> if input.len() < 11 + 3 * used {
                told == Err::<Seq<u8>, BitstreamError>(BitstreamError::UnexpectedEof)
            } else {
                match syntax::scan_fixed_model(input, 7, used as nat, Seq::new(256, |s: int| 0u16)) {
                    Err(e) => told == Err::<Seq<u8>, BitstreamError>(e),
                    Ok((freq, pos)) => told == syntax::block_lane(input, pos, n as nat, freq),
                }
            }
        }),
{
    layout_laws::law_numbers(input, 1);
    layout_laws::law_numbers(input, 5);
    assert(syntax::no_model() =~= Seq::new(256, |s: int| 0u16));
}

/// A table entry is a value and a share; it is taken if the share is between 1 and 4096 and the value has
/// none so far.
pub proof fn law_entries_taken(input: Seq<u8>, pos: int, used: nat, freq: Seq<u16>)
    requires
        used > 0,
        0 <= pos,
    ensures
        pos >= input.len() ==> syntax::scan_model(input, pos, used, freq) == Err::<
            (Seq<u16>, int),
            BitstreamError,
        >(BitstreamError::UnexpectedEof),
        pos < input.len() ==> match syntax::read_uvarint(input, pos + 1) {
            Err(e) => syntax::scan_model(input, pos, used, freq) == Err::<
                (Seq<u16>, int),
                BitstreamError,
            >(e),
            Ok(f) => syntax::scan_model(input, pos, used, freq) == if 1 <= f <= 4096
                && freq[input[pos] as int] == 0 {
                syntax::scan_model(
                    input,
                    syntax::uvarint_end(input, pos + 1),
                    (used - 1) as nat,
                    freq.update(input[pos] as int, f as u16),
                )
            } else {
                Err(BitstreamError::BadEntropyModel)
            },
        },
{
}

/// An entry of the older table is a value and a share in two bytes, the low one first; it is taken if
/// the share is not zero and the value has none so far.
pub proof fn law_older_entries_taken(input: Seq<u8>, pos: int, used: nat, freq: Seq<u16>)
    requires
        used > 0,
        0 <= pos,
        pos + 3 <= input.len(),
    ensures
        ({
            let f = input[pos + 1] + 256 * input[pos + 2];
            syntax::scan_fixed_model(input, pos, used, freq) == if f != 0 && freq[input[pos] as int] == 0 {
                syntax::scan_fixed_model(
                    input,
                    pos + 3,
                    (used - 1) as nat,
                    freq.update(input[pos] as int, f as u16),
                )
            } else {
                Err(BitstreamError::BadEntropyModel)
            }
        }),
{
    layout_laws::law_numbers(input, pos + 1);
}

/// The lane of a block stands behind its table, after its length in four bytes, and ends the block; the
/// shares of the table make 4096.
pub proof fn law_lane_faults(input: Seq<u8>, pos: int, n: nat, freq: Seq<u16>)
    requires
        0 <= pos,
    ensures
        ({
            let told = syntax::block_lane(input, pos, n, freq);
            let m = layout_laws::four(input, pos);
            let full = crate::bitstream::value_laws::below(freq, 256) == 4096;
            &&& !full ==> told == Err::<Seq<u8>, BitstreamError>(BitstreamError::BadEntropyModel)
            &&& full && (input.len() < pos + 4 || input.len() < pos + 4 + m) ==> told == Err::<
                Seq<u8>,
                BitstreamError,
            >(BitstreamError::UnexpectedEof)
            &&& full && input.len() >= pos + 4 && input.len() > pos + 4 + m ==> told == Err::<
                Seq<u8>,
                BitstreamError,
            >(BitstreamError::TrailingData)
            &&& full && input.len() >= pos + 4 && input.len() == pos + 4 + m ==> told
                == syntax::rans_decoded(input.skip(pos + 4), n, freq)
        }),
{
    layout_laws::law_numbers(input, pos);
    crate::bitstream::value_laws::lemma_below(freq, 256);
}

} // verus!
