//! The LZO1X byte-stream grammar.
//!
//! A stream is a sequence of *instructions*. Each one is a command byte `t`,
//! sometimes followed by extension or distance bytes. It either copies a run
//! of literal bytes straight from the stream, or is a *match*: a
//! back-reference that copies `len` bytes from `dist` bytes earlier in the
//! output produced so far. A match also says how many literals (0..=3) are
//! copied right behind it; that count is the *state* carried into the next
//! instruction.
//!
//! ```text
//! 0 0 0 0 L L L L  (t < 16)  keyed by the carried state:
//!     state 0:     a literal run, len = 3 + (t == 0 ? 15 + extension : t);
//!                  the state becomes 4, "a long literal run just happened"
//!     state 1..=3: a 2-byte match, dist = (next << 2) + ((t >> 2) & 3) + 1
//!     state 4:     a 3-byte match, dist = (next << 2) + ((t >> 2) & 3) + 2049
//!     in both match cases t & 3 literals follow
//! 0 0 0 1 H L L L  (16..=31)
//!     match, len = 2 + (LLL == 0 ? 7 + extension : LLL),
//!     dist = 16384 + (H << 14) + (operand >> 2), operand & 3 literals follow;
//!     a token of this bucket that adds no distance to the base is the
//!     end-of-stream marker, whatever its length bits hold
//! 0 0 1 L L L L L  (32..=63)
//!     match, len = 2 + (LLLLL == 0 ? 31 + extension : LLLLL),
//!     dist = (operand >> 2) + 1, operand & 3 literals follow
//! 0 1 L D D D S S  (64..=127)
//!     match, len = 3 + L, dist = (next << 3) + DDD + 1, SS literals follow
//! 1 L L D D D S S  (128..=255)
//!     match, len = 5 + LL, dist = (next << 3) + DDD + 1, SS literals follow
//! ```
//!
//! An *operand* is two bytes, little-endian. An *extension* is a run of zero
//! bytes, each worth 255, closed by one non-zero byte worth its own value.
//!
//! The first command byte of a stream is special: a value of 18 or more is a
//! leading literal run of `t - 17` bytes, after which the state is
//! `min(t - 17, 4)`. Lower values follow the rules above, in state 0.

use vstd::prelude::*;

verus! {

/// What each zero byte of a length extension is worth.
pub const ZERO_RUN_INCREMENT: usize = 255;

/// Upper bound on a single extended length, as a defence against a corrupt
/// all-zeros stream.
///
/// This is not a format limit: the grammar permits arbitrarily long runs, but
/// no real block is anywhere near 16 MiB, so a length beyond it means that the
/// stream is garbage rather than merely large. The decoder refuses every
/// longer extended length, of a match and of a literal run alike. So it also
/// refuses the streams of inputs in which no match covers a longer stretch,
/// though [`crate::compress()`] writes them and the format permits them: the
/// bound takes precedence over reading those back.
pub const MAX_EXTENDED_LENGTH: usize = 0x100_0000;

/// Base distance of the `0 0 0 1 H L L L` bucket.
pub const LONG_MATCH_DISTANCE_BASE: usize = 16384;

/// Base distance of the three-byte match that follows a long literal run.
pub const POST_LITERAL_MATCH_DISTANCE_BASE: usize = 2049;

/// The state after a long literal run. Unlike the values below it, it counts
/// no literals.
pub const LONG_LITERAL_RUN_STATE: usize = 4;

/// One instruction of a stream.
pub enum Instruction {
    /// Copies `len` bytes of the stream to the output.
    Literals {
        /// How many bytes.
        len: int,
    },
    /// Copies `len` bytes from `dist` bytes behind the end of the output,
    /// then `trailing` bytes of the stream.
    Match {
        /// How many bytes are repeated.
        len: int,
        /// How far back they stand.
        dist: int,
        /// How many literals follow.
        trailing: int,
    },
    /// Ends the stream.
    End,
}

/// What a stream decodes to.
pub struct Decoded {
    /// The bytes produced.
    pub output: Seq<u8>,
    /// How many bytes of the stream were read, the end marker included.
    pub consumed: int,
}

/// The bound on extended lengths that the decoder keeps. `None` in its place
/// stands for the format itself, which has none.
pub open spec fn decoder_limit() -> Option<int> {
    Some(MAX_EXTENDED_LENGTH as int)
}

/// `len` is within a bound.
pub open spec fn within(len: int, limit: Option<int>) -> bool {
    match limit {
        Some(most) => len <= most,
        None => true,
    }
}

/// The length given by an extension at `at` over a length of `base`, with the
/// position behind it. `None` if the stream ends first or the length is not
/// within `limit`.
pub open spec fn extended_length(
    stream: Seq<u8>,
    at: int,
    base: int,
    limit: Option<int>,
) -> Option<(int, int)>
    decreases stream.len() - at,
{
    if !(0 <= at < stream.len()) {
        None
    } else if stream[at] != 0 {
        if within(base + stream[at], limit) {
            Some((base + stream[at], at + 1))
        } else {
            None
        }
    } else if !within(base + ZERO_RUN_INCREMENT, limit) {
        None
    } else {
        extended_length(stream, at + 1, base + ZERO_RUN_INCREMENT, limit)
    }
}

/// The length held by a length field whose widest value is `mask`, with the
/// position behind it. A field of zero stands for an extension over `mask`.
pub open spec fn field_length(
    stream: Seq<u8>,
    at: int,
    field: int,
    mask: int,
    limit: Option<int>,
) -> Option<(int, int)> {
    if field == 0 {
        extended_length(stream, at, mask, limit)
    } else {
        Some((field, at))
    }
}

/// The instruction of a command byte `t < 16`, at `at - 1`.
pub open spec fn low_instruction(
    stream: Seq<u8>,
    at: int,
    t: int,
    state: int,
    limit: Option<int>,
) -> Option<(Instruction, int)> {
    if state == 0 {
        match field_length(stream, at, t, 15, limit) {
            Some((n, next)) => Some((Instruction::Literals { len: n + 3 }, next)),
            None => None,
        }
    } else if at >= stream.len() {
        None
    } else {
        let reach = stream[at] * 4 + t / 4 % 4;
        let (len, base): (int, int) = if state == LONG_LITERAL_RUN_STATE {
            (3, POST_LITERAL_MATCH_DISTANCE_BASE as int)
        } else {
            (2, 1)
        };
        Some((Instruction::Match { len, dist: reach + base, trailing: t % 4 }, at + 1))
    }
}

/// The instruction of a command byte `16 <= t < 64`, at `at - 1`.
pub open spec fn operand_instruction(
    stream: Seq<u8>,
    at: int,
    t: int,
    limit: Option<int>,
) -> Option<(Instruction, int)> {
    let (field, mask): (int, int) = if t >= 32 {
        (t % 32, 31)
    } else {
        (t % 8, 7)
    };
    match field_length(stream, at, field, mask, limit) {
        None => None,
        Some((n, next)) => if next + 2 > stream.len() {
            None
        } else {
            let operand = stream[next] + 256 * stream[next + 1];
            let reach = operand / 4;
            let trailing = operand % 4;
            let high = t / 8 % 2 * LONG_MATCH_DISTANCE_BASE;
            if t >= 32 {
                Some((Instruction::Match { len: n + 2, dist: reach + 1, trailing }, next + 2))
            } else if high + reach == 0 {
                Some((Instruction::End, next + 2))
            } else {
                let dist = LONG_MATCH_DISTANCE_BASE + high + reach;
                Some((Instruction::Match { len: n + 2, dist, trailing }, next + 2))
            }
        },
    }
}

/// The instruction of a command byte `t >= 64`, at `at - 1`.
pub open spec fn short_instruction(stream: Seq<u8>, at: int, t: int) -> Option<
    (Instruction, int),
> {
    if at >= stream.len() {
        None
    } else {
        let len = if t >= 128 {
            5 + t / 32 % 4
        } else {
            3 + t / 32 % 2
        };
        let dist = stream[at] * 8 + t / 4 % 8 + 1;
        Some((Instruction::Match { len, dist, trailing: t % 4 }, at + 1))
    }
}

/// The instruction whose command byte stands at `at`, read in `state`, with
/// the position behind its last operand. `None` if the stream ends first or an
/// extended length is not within `limit`.
pub open spec fn instruction(
    stream: Seq<u8>,
    at: int,
    state: int,
    limit: Option<int>,
) -> Option<(Instruction, int)> {
    if !(0 <= at < stream.len()) {
        None
    } else {
        let t = stream[at] as int;
        if t >= 64 {
            short_instruction(stream, at + 1, t)
        } else if t >= 16 {
            operand_instruction(stream, at + 1, t, limit)
        } else {
            low_instruction(stream, at + 1, t, state, limit)
        }
    }
}

/// `out` followed by `len` bytes, each equal to the one `dist` bytes before
/// it. The bytes repeated may themselves be among those just added.
pub open spec fn copy_back(out: Seq<u8>, dist: int, len: int) -> Seq<u8>
    decreases len,
{
    if len <= 0 {
        out
    } else {
        let shorter = copy_back(out, dist, len - 1);
        shorter.push(shorter[shorter.len() - dist])
    }
}

/// Decodes the instructions from `at` on, read in `state`, behind the output
/// `out`. `None` if the stream ends before its end marker, an extended length
/// is not within `limit`, or a match reaches back before the start of the
/// output.
pub open spec fn decode_from(
    stream: Seq<u8>,
    at: int,
    state: int,
    out: Seq<u8>,
    limit: Option<int>,
) -> Option<Decoded>
    decreases stream.len() - at,
{
    proof {
        lemma_instruction_advances(stream, at, state, limit);
    }
    match instruction(stream, at, state, limit) {
        None => None,
        Some((Instruction::End, next)) => Some(Decoded { output: out, consumed: next }),
        Some((Instruction::Literals { len }, next)) => if next + len > stream.len() {
            None
        } else {
            decode_from(
                stream,
                next + len,
                LONG_LITERAL_RUN_STATE as int,
                out + stream.subrange(next, next + len),
                limit,
            )
        },
        Some((Instruction::Match { len, dist, trailing }, next)) => if dist > out.len() || next
            + trailing > stream.len() {
            None
        } else {
            decode_from(
                stream,
                next + trailing,
                trailing,
                copy_back(out, dist, len) + stream.subrange(next, next + trailing),
                limit,
            )
        },
    }
}

/// The state after a leading literal run of `n` bytes.
pub open spec fn leading_state(n: int) -> int {
    if n < LONG_LITERAL_RUN_STATE {
        n
    } else {
        LONG_LITERAL_RUN_STATE as int
    }
}

/// Decodes the stream that opens at `at`, behind the output `out`.
pub open spec fn decode_at(stream: Seq<u8>, at: int, out: Seq<u8>, limit: Option<int>) -> Option<
    Decoded,
> {
    if !(0 <= at < stream.len()) {
        None
    } else if stream[at] >= 18 {
        let next = at + 1;
        let n = stream[at] - 17;
        if next + n > stream.len() {
            None
        } else {
            decode_from(
                stream,
                next + n,
                leading_state(n),
                out + stream.subrange(next, next + n),
                limit,
            )
        }
    } else {
        decode_from(stream, at, 0, out, limit)
    }
}

/// What a stream decodes to, up to its end marker; what stands behind the
/// marker is not looked at. `None` if the stream is malformed, or is taken for
/// malformed because of an extended length above [`MAX_EXTENDED_LENGTH`].
pub open spec fn decode(stream: Seq<u8>) -> Option<Decoded> {
    decode_at(stream, 0, Seq::empty(), decoder_limit())
}

/// What a stream decodes to by the format itself, which bounds no length.
pub open spec fn decode_unlimited(stream: Seq<u8>) -> Option<Decoded> {
    decode_at(stream, 0, Seq::empty(), None)
}

/// `longer` begins with `front`.
pub open spec fn begins_with(longer: Seq<u8>, front: Seq<u8>) -> bool {
    &&& front.len() <= longer.len()
    &&& forall|i: int| 0 <= i < front.len() ==> #[trigger] longer[i] == front[i]
}

/// An extension moves forward, does not shorten a length, and is within the
/// bound.
pub proof fn lemma_extended_length_advances(
    stream: Seq<u8>,
    at: int,
    base: int,
    limit: Option<int>,
)
    ensures
        extended_length(stream, at, base, limit) matches Some((len, next)) ==> {
            &&& at < next <= stream.len()
            &&& base < len
            &&& within(len, limit)
        },
    decreases stream.len() - at,
{
    if 0 <= at < stream.len() && stream[at] == 0 && within(base + ZERO_RUN_INCREMENT, limit) {
        lemma_extended_length_advances(stream, at + 1, base + ZERO_RUN_INCREMENT, limit);
    }
}

/// An instruction moves forward, and its operands are in range. The end marker
/// closes with an operand that adds no distance.
pub proof fn lemma_instruction_advances(
    stream: Seq<u8>,
    at: int,
    state: int,
    limit: Option<int>,
)
    ensures
        instruction(stream, at, state, limit) matches Some((op, next)) ==> {
            &&& at < next <= stream.len()
            &&& op matches Instruction::Literals { len } ==> len >= 4
            &&& op matches Instruction::Match { len, dist, trailing } ==> {
                &&& len >= 2
                &&& dist >= 1
                &&& 0 <= trailing <= 3
            }
            &&& op is End ==> at + 3 <= next && stream[next - 2] < 4 && stream[next - 1] == 0
        },
{
    lemma_extended_length_advances(stream, at + 1, 15, limit);
    lemma_extended_length_advances(stream, at + 1, 31, limit);
    lemma_extended_length_advances(stream, at + 1, 7, limit);
}

/// What a back-reference adds: `out` stays in front, and every byte behind it
/// equals the one `dist` bytes before.
pub proof fn lemma_copy_back(out: Seq<u8>, dist: int, len: int)
    requires
        len >= 0,
    ensures
        copy_back(out, dist, len).len() == out.len() + len,
        begins_with(copy_back(out, dist, len), out),
        1 <= dist <= out.len() ==> forall|i: int|
            out.len() <= i < out.len() + len ==> #[trigger] copy_back(out, dist, len)[i]
                == copy_back(out, dist, len)[i - dist],
    decreases len,
{
    if len > 0 {
        lemma_copy_back(out, dist, len - 1);
    }
}

/// Decoding only ever adds to the output, and reads up to an end marker within
/// the stream.
pub proof fn lemma_output_grows(
    stream: Seq<u8>,
    at: int,
    state: int,
    out: Seq<u8>,
    limit: Option<int>,
)
    ensures
        decode_from(stream, at, state, out, limit) matches Some(decoded) ==> {
            &&& begins_with(decoded.output, out)
            &&& at + 3 <= decoded.consumed <= stream.len()
            &&& stream[decoded.consumed - 2] < 4
            &&& stream[decoded.consumed - 1] == 0
        },
    decreases stream.len() - at,
{
    lemma_instruction_advances(stream, at, state, limit);
    match instruction(stream, at, state, limit) {
        Some((Instruction::Literals { len }, next)) => {
            if next + len <= stream.len() {
                lemma_output_grows(
                    stream,
                    next + len,
                    LONG_LITERAL_RUN_STATE as int,
                    out + stream.subrange(next, next + len),
                    limit,
                );
            }
        },
        Some((Instruction::Match { len, dist, trailing }, next)) => {
            if dist <= out.len() && next + trailing <= stream.len() {
                lemma_copy_back(out, dist, len);
                lemma_output_grows(
                    stream,
                    next + trailing,
                    trailing,
                    copy_back(out, dist, len) + stream.subrange(next, next + trailing),
                    limit,
                );
            }
        },
        _ => {},
    }
}

} // verus!
