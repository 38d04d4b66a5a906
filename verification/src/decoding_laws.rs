//! What each instruction of a stream does to the output, and how a stream
//! opens.
//!
//! Together with [`crate::instruction_laws`] these laws settle what every
//! stream decodes to.

use vstd::prelude::*;

use crate::decoder;
use crate::error::Error;
use crate::grammar;
use crate::grammar::{Decoded, Instruction};
use crate::instruction_laws;

verus! {

/// `after` is `out` with a back-reference behind it: `len` bytes more, each of
/// them equal to the byte exactly `dist` before it.
pub open spec fn repeats(out: Seq<u8>, after: Seq<u8>, dist: int, len: int) -> bool {
    &&& after.len() == out.len() + len
    &&& forall|i: int| 0 <= i < out.len() ==> #[trigger] after[i] == out[i]
    &&& forall|i: int| out.len() <= i < after.len() ==> #[trigger] after[i] == after[i - dist]
}

/// What is returned is the output of the stream if that is within the bound,
/// and `Malformed` in every other case.
pub proof fn bound_decides_alone(stream: Seq<u8>, max_out: int, output: Seq<u8>)
    ensures
        decoder::decompressed(stream, max_out) == Ok::<Seq<u8>, Error>(output) <==> {
            &&& grammar::decode(stream) matches Some(decoded)
            &&& decoded.output == output
            &&& output.len() <= max_out
        },
        decoder::decompressed(stream, max_out) is Err ==> decoder::decompressed(stream, max_out)
            == Err::<Seq<u8>, Error>(Error::Malformed),
{
}

/// A stream of no bytes decodes to nothing.
pub proof fn empty_streams_are_refused(stream: Seq<u8>)
    requires
        stream.len() == 0,
    ensures
        grammar::decode(stream) is None,
        grammar::decode_unlimited(stream) is None,
{
}

/// A first byte of 18 or more is a literal run of 17 bytes less: these bytes
/// open the output. Behind one to three of them the stream goes on as behind as
/// many trailing literals, behind more as behind a long run. The decoder bounds
/// extended lengths by `2^24`.
pub proof fn leading_runs_open_the_output(stream: Seq<u8>, n: int)
    requires
        1 <= n <= 238,
        n < stream.len(),
        stream[0] == 17 + n,
    ensures
        ({
            let literals = stream.subrange(1, 1 + n);
            let state = if n >= 4 {
                4
            } else {
                n
            };
            &&& grammar::decode(stream) == grammar::decode_from(
                stream,
                1 + n,
                state,
                literals,
                Some(16777216),
            )
            &&& grammar::decode_unlimited(stream) == grammar::decode_from(
                stream,
                1 + n,
                state,
                literals,
                None,
            )
        }),
{
    assert(Seq::empty() + stream.subrange(1, 1 + n) =~= stream.subrange(1, 1 + n));
}

/// A leading run that is cut off is refused.
pub proof fn cut_leading_runs_are_refused(stream: Seq<u8>)
    requires
        0 < stream.len() <= stream[0] - 17,
    ensures
        grammar::decode(stream) is None,
        grammar::decode_unlimited(stream) is None,
{
}

/// A first byte below 18 is an ordinary command byte, in state 0.
pub proof fn other_streams_open_in_state_zero(stream: Seq<u8>)
    requires
        stream.len() > 0,
        stream[0] < 18,
    ensures
        grammar::decode(stream) == grammar::decode_from(
            stream,
            0,
            0,
            Seq::empty(),
            Some(16777216),
        ),
        grammar::decode_unlimited(stream) == grammar::decode_from(
            stream,
            0,
            0,
            Seq::empty(),
            None,
        ),
{
}

/// Where no instruction can be read, the stream is refused.
pub proof fn unreadable_instructions_are_refused(
    stream: Seq<u8>,
    at: int,
    state: int,
    out: Seq<u8>,
    limit: Option<int>,
)
    requires
        grammar::instruction(stream, at, state, limit) is None,
    ensures
        grammar::decode_from(stream, at, state, out, limit) is None,
{
}

/// The end marker leaves the output as it is, and decoding stops behind it.
pub proof fn the_marker_ends_the_output(
    stream: Seq<u8>,
    at: int,
    next: int,
    state: int,
    out: Seq<u8>,
    limit: Option<int>,
)
    requires
        grammar::instruction(stream, at, state, limit) == Some((Instruction::End, next)),
    ensures
        grammar::decode_from(stream, at, state, out, limit) == Some(
            Decoded { output: out, consumed: next },
        ),
{
}

/// A literal run adds the bytes that stand behind it to the output, no more
/// and no fewer, and the stream goes on as behind a long run.
pub proof fn literal_runs_are_copied(
    stream: Seq<u8>,
    at: int,
    next: int,
    state: int,
    out: Seq<u8>,
    after: Seq<u8>,
    len: int,
    limit: Option<int>,
)
    requires
        grammar::instruction(stream, at, state, limit) == Some(
            (Instruction::Literals { len }, next),
        ),
        next + len <= stream.len(),
        after.len() == out.len() + len,
        forall|i: int| 0 <= i < out.len() ==> #[trigger] after[i] == out[i],
        forall|i: int| 0 <= i < len ==> #[trigger] stream[next + i] == after[out.len() + i],
    ensures
        grammar::decode_from(stream, at, state, out, limit) == grammar::decode_from(
            stream,
            next + len,
            4,
            after,
            limit,
        ),
{
    grammar::lemma_instruction_advances(stream, at, state, limit);
    let run = stream.subrange(next, next + len);
    assert forall|i: int| 0 <= i < after.len() implies after[i] == (out + run)[i] by {
        if i >= out.len() {
            assert(stream[next + (i - out.len())] == after[out.len() + (i - out.len())]);
        }
    }
    assert(after =~= out + run);
}

/// A literal run that is cut off is refused.
pub proof fn cut_literal_runs_are_refused(
    stream: Seq<u8>,
    at: int,
    next: int,
    state: int,
    out: Seq<u8>,
    len: int,
    limit: Option<int>,
)
    requires
        grammar::instruction(stream, at, state, limit) == Some(
            (Instruction::Literals { len }, next),
        ),
        next + len > stream.len(),
    ensures
        grammar::decode_from(stream, at, state, out, limit) is None,
{
}

/// A match repeats earlier output, byte for byte from exactly its distance,
/// whether or not the two stretches overlap, then adds its trailing literals;
/// the stream goes on in the state of their count.
pub proof fn matches_are_copied(
    stream: Seq<u8>,
    at: int,
    next: int,
    state: int,
    out: Seq<u8>,
    repeated: Seq<u8>,
    len: int,
    dist: int,
    trailing: int,
    limit: Option<int>,
)
    requires
        grammar::instruction(stream, at, state, limit) == Some(
            (Instruction::Match { len, dist, trailing }, next),
        ),
        dist <= out.len(),
        repeats(out, repeated, dist, len),
        next + trailing <= stream.len(),
    ensures
        grammar::decode_from(stream, at, state, out, limit) == grammar::decode_from(
            stream,
            next + trailing,
            trailing,
            repeated + stream.subrange(next, next + trailing),
            limit,
        ),
{
    grammar::lemma_instruction_advances(stream, at, state, limit);
    lemma_repeats(out, repeated, dist, len);
}

/// There is always exactly one such repetition, so that the law above speaks
/// of every match that reaches no further back than the output.
pub proof fn repetitions_are_unique(out: Seq<u8>, dist: int, len: int, other: Seq<u8>)
    requires
        1 <= dist <= out.len(),
        0 <= len,
    ensures
        repeats(out, grammar::copy_back(out, dist, len), dist, len),
        repeats(out, other, dist, len) ==> other == grammar::copy_back(out, dist, len),
{
    grammar::lemma_copy_back(out, dist, len);
    let copied = grammar::copy_back(out, dist, len);
    assert forall|i: int| 0 <= i < out.len() implies #[trigger] copied[i] == out[i] by {}
    if repeats(out, other, dist, len) {
        lemma_repeats(out, other, dist, len);
    }
}

/// A match that reaches back before the start of the output is refused,
/// whatever its distance and its length.
pub proof fn references_before_the_start_are_refused(
    stream: Seq<u8>,
    at: int,
    next: int,
    state: int,
    out: Seq<u8>,
    len: int,
    dist: int,
    trailing: int,
    limit: Option<int>,
)
    requires
        grammar::instruction(stream, at, state, limit) == Some(
            (Instruction::Match { len, dist, trailing }, next),
        ),
        dist > out.len(),
    ensures
        grammar::decode_from(stream, at, state, out, limit) is None,
{
}

/// A match whose trailing literals are cut off is refused.
pub proof fn cut_trailing_literals_are_refused(
    stream: Seq<u8>,
    at: int,
    next: int,
    state: int,
    out: Seq<u8>,
    len: int,
    dist: int,
    trailing: int,
    limit: Option<int>,
)
    requires
        grammar::instruction(stream, at, state, limit) == Some(
            (Instruction::Match { len, dist, trailing }, next),
        ),
        next + trailing > stream.len(),
    ensures
        grammar::decode_from(stream, at, state, out, limit) is None,
{
}

/// No stream of a leading run and a match that reaches back before it
/// decompresses, under any bound and whatever follows.
pub proof fn bad_references_are_malformed(
    stream: Seq<u8>,
    n: int,
    next: int,
    len: int,
    dist: int,
    trailing: int,
    max_out: int,
)
    requires
        1 <= n <= 238,
        n < stream.len(),
        stream[0] == 17 + n,
        grammar::instruction(
            stream,
            1 + n,
            if n >= 4 {
                4
            } else {
                n
            },
            Some(16777216),
        ) == Some((Instruction::Match { len, dist, trailing }, next)),
        dist > n,
    ensures
        decoder::decompressed(stream, max_out) == Err::<Seq<u8>, Error>(Error::Malformed),
{
    leading_runs_open_the_output(stream, n);
}

/// The smallest whole stream with a match: a leading run, a match that reaches
/// no further back than the run, and the end marker. It decompresses to the
/// run and the repetition, under every bound that admits them and under no
/// other.
pub proof fn a_run_and_a_match_decompress(
    stream: Seq<u8>,
    n: int,
    next: int,
    len: int,
    dist: int,
    repeated: Seq<u8>,
    max_out: int,
)
    requires
        1 <= n <= 238,
        n < stream.len(),
        stream[0] == 17 + n,
        grammar::instruction(
            stream,
            1 + n,
            if n >= 4 {
                4
            } else {
                n
            },
            Some(16777216),
        ) == Some((Instruction::Match { len, dist, trailing: 0 }, next)),
        dist <= n,
        repeats(stream.subrange(1, 1 + n), repeated, dist, len),
        next + 3 <= stream.len(),
        stream[next] == 17,
        stream[next + 1] == 0,
        stream[next + 2] == 0,
    ensures
        decoder::decompressed(stream, max_out) == if n + len <= max_out {
            Ok::<Seq<u8>, Error>(repeated)
        } else {
            Err(Error::Malformed)
        },
{
    let limit = Some(16777216);
    let out = stream.subrange(1, 1 + n);
    let state = if n >= 4 {
        4
    } else {
        n
    };
    leading_runs_open_the_output(stream, n);
    grammar::lemma_instruction_advances(stream, 1 + n, state, limit);
    matches_are_copied(stream, 1 + n, next, state, out, repeated, len, dist, 0, limit);
    assert(repeated + stream.subrange(next, next) =~= repeated);
    instruction_laws::far_matches(stream, next, 0, limit, 0, 1, 0, 0);
    the_marker_ends_the_output(stream, next, next + 3, 0, repeated, limit);
}

/// A repetition is what [`grammar::copy_back`] gives.
proof fn lemma_repeats(out: Seq<u8>, after: Seq<u8>, dist: int, len: int)
    requires
        1 <= dist <= out.len(),
        0 <= len,
        repeats(out, after, dist, len),
    ensures
        after == grammar::copy_back(out, dist, len),
    decreases len,
{
    if len > 0 {
        let shorter = after.take(after.len() - 1);
        assert forall|i: int| out.len() <= i < shorter.len() implies #[trigger] shorter[i]
            == shorter[i - dist] by {
            assert(after[i] == after[i - dist]);
        }
        lemma_repeats(out, shorter, dist, len - 1);
        let last = after.len() - 1;
        assert(after[last] == after[last - dist]);
        assert(after =~= shorter.push(shorter[shorter.len() - dist]));
    } else {
        assert(after =~= out);
    }
}

} // verus!
