//! What each form of token reads as, field by field.
//!
//! Between them these laws settle every command byte in every state: which
//! instruction it is, where its operands end, and when it is refused.

use vstd::prelude::*;

use crate::grammar;
use crate::grammar::Instruction;

verus! {

/// `zeros` zero bytes stand at `at`, closed by the byte `closing`, which is not
/// zero.
pub open spec fn extension_stands(stream: Seq<u8>, at: int, zeros: int, closing: int) -> bool {
    &&& 0 <= at
    &&& 0 <= zeros
    &&& at + zeros < stream.len()
    &&& forall|i: int| at <= i < at + zeros ==> #[trigger] stream[i] == 0
    &&& stream[at + zeros] == closing
    &&& closing != 0
}

/// The operand at `at` holds `bits` of distance and `trailing` literals: the
/// low six bits of distance stand over the count in the first byte, the upper
/// eight in the second.
pub open spec fn operand_stands(stream: Seq<u8>, at: int, bits: int, trailing: int) -> bool {
    &&& 0 <= at
    &&& at + 1 < stream.len()
    &&& 0 <= bits <= 16383
    &&& 0 <= trailing <= 3
    &&& stream[at] == 4 * (bits % 64) + trailing
    &&& stream[at + 1] == bits / 64
}

/// `1 L L D D D S S` and a byte `H` read in every state as a match of `5 + L`
/// bytes, `8 H + D + 1` back, with `S` literals behind it.
pub proof fn near_matches_of_five_to_eight(
    stream: Seq<u8>,
    at: int,
    state: int,
    limit: Option<int>,
    l: int,
    d: int,
    s: int,
)
    requires
        0 <= at,
        at + 1 < stream.len(),
        0 <= l <= 3,
        0 <= d <= 7,
        0 <= s <= 3,
        stream[at] == 128 + 32 * l + 4 * d + s,
    ensures
        grammar::instruction(stream, at, state, limit) == Some(
            (
                Instruction::Match { len: 5 + l, dist: 8 * stream[at + 1] + d + 1, trailing: s },
                at + 2,
            ),
        ),
{
}

/// `0 1 L D D D S S` and a byte `H` read in every state as a match of `3 + L`
/// bytes, `8 H + D + 1` back, with `S` literals behind it.
pub proof fn near_matches_of_three_or_four(
    stream: Seq<u8>,
    at: int,
    state: int,
    limit: Option<int>,
    l: int,
    d: int,
    s: int,
)
    requires
        0 <= at,
        at + 1 < stream.len(),
        0 <= l <= 1,
        0 <= d <= 7,
        0 <= s <= 3,
        stream[at] == 64 + 32 * l + 4 * d + s,
    ensures
        grammar::instruction(stream, at, state, limit) == Some(
            (
                Instruction::Match { len: 3 + l, dist: 8 * stream[at + 1] + d + 1, trailing: s },
                at + 2,
            ),
        ),
{
}

/// `0 0 1 L L L L L` with a length field that is not zero, and an operand, read
/// in every state as a match of `2 + L` bytes, one more than the operand's
/// distance bits back.
pub proof fn middle_matches(
    stream: Seq<u8>,
    at: int,
    state: int,
    limit: Option<int>,
    l: int,
    bits: int,
    s: int,
)
    requires
        0 <= at < stream.len(),
        1 <= l <= 31,
        stream[at] == 32 + l,
        operand_stands(stream, at + 1, bits, s),
    ensures
        grammar::instruction(stream, at, state, limit) == Some(
            (Instruction::Match { len: 2 + l, dist: bits + 1, trailing: s }, at + 3),
        ),
{
}

/// `0 0 1 0 0 0 0 0`, an extension and an operand read in every state as a
/// match of `33` bytes and what the extension is worth, as long as that is
/// within the bound, and are refused otherwise.
pub proof fn extended_middle_matches(
    stream: Seq<u8>,
    at: int,
    state: int,
    limit: Option<int>,
    zeros: int,
    closing: int,
    bits: int,
    s: int,
)
    requires
        0 <= at < stream.len(),
        stream[at] == 32,
        extension_stands(stream, at + 1, zeros, closing),
        operand_stands(stream, at + 2 + zeros, bits, s),
    ensures
        ({
            let read = grammar::instruction(stream, at, state, limit);
            let value = 31 + 255 * zeros + closing;
            match limit {
                Some(most) if value > most => read is None,
                _ => read == Some(
                    (
                        Instruction::Match { len: value + 2, dist: bits + 1, trailing: s },
                        at + zeros + 4,
                    ),
                ),
            }
        }),
{
    lemma_extension(stream, at + 1, 31, limit, zeros, closing);
}

/// `0 0 0 1 H L L L` with a length field that is not zero, and an operand, read
/// in every state as a match of `2 + L` bytes, `16384` and `16384 H` and the
/// operand's distance bits back. If nothing is added to the `16384`, they end
/// the stream.
pub proof fn far_matches(
    stream: Seq<u8>,
    at: int,
    state: int,
    limit: Option<int>,
    h: int,
    l: int,
    bits: int,
    s: int,
)
    requires
        0 <= at < stream.len(),
        0 <= h <= 1,
        1 <= l <= 7,
        stream[at] == 16 + 8 * h + l,
        operand_stands(stream, at + 1, bits, s),
    ensures
        grammar::instruction(stream, at, state, limit) == Some(
            (
                if h == 0 && bits == 0 {
                    Instruction::End
                } else {
                    Instruction::Match {
                        len: 2 + l,
                        dist: 16384 + 16384 * h + bits,
                        trailing: s,
                    }
                },
                at + 3,
            ),
        ),
{
}

/// `0 0 0 1 H 0 0 0`, an extension and an operand read in every state as a
/// match of `9` bytes and what the extension is worth, or end the stream, as
/// long as the length is within the bound, and are refused otherwise.
pub proof fn extended_far_matches(
    stream: Seq<u8>,
    at: int,
    state: int,
    limit: Option<int>,
    h: int,
    zeros: int,
    closing: int,
    bits: int,
    s: int,
)
    requires
        0 <= at < stream.len(),
        0 <= h <= 1,
        stream[at] == 16 + 8 * h,
        extension_stands(stream, at + 1, zeros, closing),
        operand_stands(stream, at + 2 + zeros, bits, s),
    ensures
        ({
            let read = grammar::instruction(stream, at, state, limit);
            let value = 7 + 255 * zeros + closing;
            let op = if h == 0 && bits == 0 {
                Instruction::End
            } else {
                Instruction::Match {
                    len: value + 2,
                    dist: 16384 + 16384 * h + bits,
                    trailing: s,
                }
            };
            match limit {
                Some(most) if value > most => read is None,
                _ => read == Some((op, at + zeros + 4)),
            }
        }),
{
    lemma_extension(stream, at + 1, 7, limit, zeros, closing);
}

/// `0 0 0 0 L L L L` with a length field that is not zero reads in state 0 as a
/// literal run of `3 + L` bytes.
pub proof fn literal_runs(stream: Seq<u8>, at: int, limit: Option<int>, l: int)
    requires
        0 <= at < stream.len(),
        1 <= l <= 15,
        stream[at] == l,
    ensures
        grammar::instruction(stream, at, 0, limit) == Some(
            (Instruction::Literals { len: 3 + l }, at + 1),
        ),
{
}

/// A zero byte and an extension read in state 0 as a literal run of `18` bytes
/// and what the extension is worth, as long as that is within the bound, and
/// are refused otherwise.
pub proof fn extended_literal_runs(
    stream: Seq<u8>,
    at: int,
    limit: Option<int>,
    zeros: int,
    closing: int,
)
    requires
        0 <= at < stream.len(),
        stream[at] == 0,
        extension_stands(stream, at + 1, zeros, closing),
    ensures
        ({
            let read = grammar::instruction(stream, at, 0, limit);
            let value = 15 + 255 * zeros + closing;
            match limit {
                Some(most) if value > most => read is None,
                _ => read == Some((Instruction::Literals { len: value + 3 }, at + zeros + 2)),
            }
        }),
{
    lemma_extension(stream, at + 1, 15, limit, zeros, closing);
}

/// `0 0 0 0 D D S S` and a byte `H` read behind one to three trailing literals
/// as a match of 2 bytes, `4 H + D + 1` back, with `S` literals behind it.
pub proof fn short_matches_behind_trailing_literals(
    stream: Seq<u8>,
    at: int,
    state: int,
    limit: Option<int>,
    d: int,
    s: int,
)
    requires
        0 <= at,
        at + 1 < stream.len(),
        1 <= state <= 3,
        0 <= d <= 3,
        0 <= s <= 3,
        stream[at] == 4 * d + s,
    ensures
        grammar::instruction(stream, at, state, limit) == Some(
            (
                Instruction::Match { len: 2, dist: 4 * stream[at + 1] + d + 1, trailing: s },
                at + 2,
            ),
        ),
{
}

/// `0 0 0 0 D D S S` and a byte `H` read behind a long literal run as a match
/// of 3 bytes, `2049 + 4 H + D` back, with `S` literals behind it.
pub proof fn short_matches_behind_a_long_run(
    stream: Seq<u8>,
    at: int,
    limit: Option<int>,
    d: int,
    s: int,
)
    requires
        0 <= at,
        at + 1 < stream.len(),
        0 <= d <= 3,
        0 <= s <= 3,
        stream[at] == 4 * d + s,
    ensures
        grammar::instruction(stream, at, 4, limit) == Some(
            (
                Instruction::Match { len: 3, dist: 2049 + 4 * stream[at + 1] + d, trailing: s },
                at + 2,
            ),
        ),
{
}

/// Behind literals a command byte below 16 reaches every distance of its range
/// with exactly one pair of `H` and `D`: 1 to 1024 behind trailing literals,
/// 2049 to 3072 behind a long run.
pub proof fn short_distances_have_one_token(
    stream: Seq<u8>,
    at: int,
    state: int,
    limit: Option<int>,
    reach: int,
    s: int,
)
    requires
        0 <= at,
        at + 1 < stream.len(),
        1 <= state <= 4,
        0 <= reach < 1024,
        0 <= s <= 3,
        stream[at] < 16,
    ensures
        ({
            let (len, base): (int, int) = if state == 4 {
                (3, 2049)
            } else {
                (2, 1)
            };
            grammar::instruction(stream, at, state, limit) == Some(
                (Instruction::Match { len, dist: base + reach, trailing: s }, at + 2),
            ) <==> stream[at] == 4 * (reach % 4) + s && stream[at + 1] == reach / 4
        }),
{
}

/// Near matches reach every distance from 1 to 2048 with exactly one pair of
/// `H` and `D`, at each of the lengths 3 to 8.
pub proof fn near_distances_have_one_token(
    stream: Seq<u8>,
    at: int,
    state: int,
    limit: Option<int>,
    len: int,
    dist: int,
    s: int,
)
    requires
        0 <= at,
        at + 1 < stream.len(),
        3 <= len <= 8,
        1 <= dist <= 2048,
        0 <= s <= 3,
        stream[at] >= 64,
    ensures
        grammar::instruction(stream, at, state, limit) == Some(
            (Instruction::Match { len, dist, trailing: s }, at + 2),
        ) <==> stream[at] == 32 * (len - 1) + 4 * ((dist - 1) % 8) + s && stream[at + 1] == (dist
            - 1) / 8,
{
}

/// There is no instruction where the stream has ended.
pub proof fn nothing_behind_the_end(stream: Seq<u8>, at: int, state: int, limit: Option<int>)
    requires
        at >= stream.len(),
    ensures
        grammar::instruction(stream, at, state, limit) is None,
{
}

/// A token whose operand is cut off is refused: one byte behind a command byte
/// of 64 or more, or of less than 16 behind literals; two behind one from 16
/// to 63 whose length field is not zero.
pub proof fn cut_operands_are_refused(stream: Seq<u8>, at: int, state: int, limit: Option<int>)
    requires
        0 <= at < stream.len(),
    ensures
        at + 1 == stream.len() && (stream[at] >= 16 || state != 0 || stream[at] == 0)
            ==> grammar::instruction(stream, at, state, limit) is None,
        at + 2 == stream.len() && (16 < stream[at] < 24 || 24 < stream[at] < 32 || 32 < stream[at]
            < 64) ==> grammar::instruction(stream, at, state, limit) is None,
{
    lemma_no_extension(stream, at + 1, 7, limit);
    lemma_no_extension(stream, at + 1, 15, limit);
    lemma_no_extension(stream, at + 1, 31, limit);
}

/// An extended match whose operand is cut off is refused.
pub proof fn cut_operands_of_extended_matches_are_refused(
    stream: Seq<u8>,
    at: int,
    state: int,
    limit: Option<int>,
    zeros: int,
    closing: int,
)
    requires
        0 <= at < stream.len(),
        stream[at] == 16 || stream[at] == 24 || stream[at] == 32,
        extension_stands(stream, at + 1, zeros, closing),
        at + zeros + 4 > stream.len(),
    ensures
        grammar::instruction(stream, at, state, limit) is None,
{
    lemma_extension(stream, at + 1, 7, limit, zeros, closing);
    lemma_extension(stream, at + 1, 31, limit, zeros, closing);
}

/// A length whose extension is not closed is refused, however many zeros it
/// has.
pub proof fn open_extensions_are_refused(stream: Seq<u8>, at: int, state: int, limit: Option<int>)
    requires
        0 <= at < stream.len(),
        stream[at] == 16 || stream[at] == 24 || stream[at] == 32 || (stream[at] == 0 && state
            == 0),
        forall|i: int| at < i < stream.len() ==> stream[i] == 0,
    ensures
        grammar::instruction(stream, at, state, limit) is None,
{
    lemma_no_extension(stream, at + 1, 7, limit);
    lemma_no_extension(stream, at + 1, 15, limit);
    lemma_no_extension(stream, at + 1, 31, limit);
}

/// A closed extension is worth 255 for each of its zeros and the value of its
/// closing byte, over the length that it extends.
proof fn lemma_extension(
    stream: Seq<u8>,
    at: int,
    base: int,
    limit: Option<int>,
    zeros: int,
    closing: int,
)
    requires
        extension_stands(stream, at, zeros, closing),
    ensures
        ({
            let read = grammar::extended_length(stream, at, base, limit);
            let value = base + 255 * zeros + closing;
            match limit {
                Some(most) if value > most => read is None,
                _ => read == Some((value, at + zeros + 1)),
            }
        }),
    decreases zeros,
{
    if zeros > 0 {
        assert(stream[at] == 0);
        lemma_extension(stream, at + 1, base + 255, limit, zeros - 1, closing);
    }
}

proof fn lemma_no_extension(stream: Seq<u8>, at: int, base: int, limit: Option<int>)
    requires
        0 <= at,
    ensures
        (forall|i: int| at <= i < stream.len() ==> stream[i] == 0) ==> grammar::extended_length(
            stream,
            at,
            base,
            limit,
        ) is None,
    decreases stream.len() - at,
{
    if at < stream.len() {
        lemma_no_extension(stream, at + 1, base + 255, limit);
    }
}

} // verus!
