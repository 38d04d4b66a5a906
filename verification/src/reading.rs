//! How the decoder reads what the encoder writes, token by token.

use vstd::prelude::*;

use crate::compress;
use crate::compress::{MAX_BOOTSTRAP_LITERALS, MAX_INLINE_LITERALS};
use crate::grammar;
use crate::grammar::{
    Decoded, Instruction, LONG_LITERAL_RUN_STATE, MAX_EXTENDED_LENGTH, ZERO_RUN_INCREMENT,
};
use crate::matcher;
use crate::matcher::{Piece, MAX_DISTANCE, MAX_MATCH, MIN_MATCH};

verus! {

/// Longest literal run that the decoder reads back: three bytes over the
/// longest extended length that it takes.
pub const MAX_LITERAL_RUN: usize = MAX_EXTENDED_LENGTH + 3;

/// The length of a piece, if it is a literal run, is within what extended
/// lengths up to `limit` can carry.
pub open spec fn piece_fits(piece: Piece, limit: Option<int>) -> bool {
    match piece {
        Piece::Literals { start: _, len } => grammar::within(len - 3, limit),
        Piece::Match { .. } => true,
    }
}

/// No literal run is longer than extended lengths up to `limit` can carry.
pub open spec fn runs_fit(found: Seq<Piece>, limit: Option<int>) -> bool {
    forall|i: int| 0 <= i < found.len() ==> #[trigger] piece_fits(found[i], limit)
}

/// No literal run is longer than [`MAX_LITERAL_RUN`].
pub open spec fn readable(found: Seq<Piece>) -> bool {
    forall|i: int|
        0 <= i < found.len() ==> match #[trigger] found[i] {
            Piece::Literals { start: _, len } => len <= MAX_LITERAL_RUN,
            Piece::Match { .. } => true,
        }
}

/// A bound on extended lengths that is none, or wide enough for every match
/// that is written.
pub open spec fn takes_matches(limit: Option<int>) -> bool {
    grammar::within(MAX_MATCH as int, limit)
}

/// `bytes` stand in the stream at `at`.
pub open spec fn stands_at(stream: Seq<u8>, at: int, bytes: Seq<u8>) -> bool {
    &&& 0 <= at
    &&& at + bytes.len() <= stream.len()
    &&& forall|i: int| 0 <= i < bytes.len() ==> #[trigger] bytes[i] == stream[at + i]
}

/// Where two strings stand one behind the other, each stands in its place.
pub proof fn lemma_stands_split(stream: Seq<u8>, at: int, front: Seq<u8>, back: Seq<u8>)
    requires
        stands_at(stream, at, front + back),
    ensures
        stands_at(stream, at, front),
        stands_at(stream, at + front.len(), back),
{
    let both = front + back;
    assert forall|i: int| 0 <= i < front.len() implies #[trigger] front[i] == stream[at + i] by {
        assert(both[i] == front[i]);
    }
    assert forall|i: int| 0 <= i < back.len() implies #[trigger] back[i] == stream[at
        + front.len() + i] by {
        assert(both[front.len() + i] == back[i]);
    }
}

/// A length extension reads back as the length that it was written for, as
/// long as that is within the bound.
pub proof fn lemma_reads_extension(
    stream: Seq<u8>,
    at: int,
    base: int,
    remainder: int,
    limit: Option<int>,
)
    requires
        remainder >= 1,
        stands_at(stream, at, compress::extension_bytes(remainder)),
    ensures
        grammar::extended_length(stream, at, base, limit) == if grammar::within(
            base + remainder,
            limit,
        ) {
            Some((base + remainder, at + compress::extension_bytes(remainder).len()))
        } else {
            None
        },
    decreases remainder,
{
    let bytes = compress::extension_bytes(remainder);
    assert(bytes[0] == stream[at + 0]);
    if remainder > ZERO_RUN_INCREMENT {
        let rest = compress::extension_bytes(remainder - ZERO_RUN_INCREMENT);
        lemma_stands_split(stream, at, seq![0u8], rest);
        lemma_reads_extension(
            stream,
            at + 1,
            base + ZERO_RUN_INCREMENT,
            remainder - ZERO_RUN_INCREMENT,
            limit,
        );
    }
}

/// A length field, with or without an extension, reads back as the length that
/// it was written for, as long as that is within the bound.
pub proof fn lemma_reads_command(
    stream: Seq<u8>,
    at: int,
    command: int,
    value: int,
    mask: int,
    limit: Option<int>,
)
    requires
        value >= 1,
        1 <= mask,
        0 <= command <= command + mask <= 255,
        stands_at(stream, at, compress::command_bytes(command, value, mask)),
    ensures
        command <= stream[at] <= command + mask,
        grammar::field_length(stream, at + 1, stream[at] - command, mask, limit) == if value
            <= mask || grammar::within(value, limit) {
            Some((value, at + compress::command_bytes(command, value, mask).len()))
        } else {
            None
        },
{
    let bytes = compress::command_bytes(command, value, mask);
    assert(bytes[0] == stream[at + 0]);
    if value > mask {
        lemma_stands_split(
            stream,
            at,
            seq![command as u8],
            compress::extension_bytes(value - mask),
        );
        lemma_reads_extension(stream, at + 1, mask, value - mask, limit);
    }
}

/// A match token reads back as the match that it was written for, in any
/// state. In particular it is never taken for the end marker.
pub proof fn lemma_reads_match(
    stream: Seq<u8>,
    at: int,
    state: int,
    len: int,
    dist: int,
    inline: int,
    limit: Option<int>,
)
    requires
        takes_matches(limit),
        MIN_MATCH <= len <= MAX_MATCH,
        1 <= dist <= MAX_DISTANCE,
        0 <= inline <= MAX_INLINE_LITERALS,
        stands_at(stream, at, compress::match_bytes(len, dist, inline)),
    ensures
        grammar::instruction(stream, at, state, limit) == Some(
            (
                Instruction::Match { len, dist, trailing: inline },
                at + compress::match_bytes(len, dist, inline).len(),
            ),
        ),
{
    let offset = dist - 16384;
    let (command, mask, bits): (int, int, int) = if dist <= 16384 {
        (0x20, 31, dist - 1)
    } else {
        (0x10 + 8 * (offset / 0x4000), 7, offset % 0x4000)
    };
    let head = compress::command_bytes(command, len - 2, mask);
    let tail = compress::operand_bytes(bits, inline);
    lemma_stands_split(stream, at, head, tail);
    lemma_reads_command(stream, at, command, len - 2, mask, limit);
    assert(tail[0] == stream[at + head.len() + 0]);
    assert(tail[1] == stream[at + head.len() + 1]);
}

/// A long-form literal run reads back in state 0 as the run that it was
/// written for, unless it is too long.
pub proof fn lemma_reads_run(stream: Seq<u8>, at: int, literals: Seq<u8>, limit: Option<int>)
    requires
        takes_matches(limit),
        literals.len() >= 4,
        stands_at(stream, at, compress::run_bytes(literals)),
    ensures
        grammar::instruction(stream, at, 0, limit) == if grammar::within(
            literals.len() - 3,
            limit,
        ) {
            Some(
                (
                    Instruction::Literals { len: literals.len() as int },
                    at + compress::run_bytes(literals).len() - literals.len(),
                ),
            )
        } else {
            None
        },
{
    let head = compress::command_bytes(0, literals.len() - 3, 15);
    lemma_stands_split(stream, at, head, literals);
    lemma_reads_command(stream, at, 0, literals.len() - 3, 15, limit);
}

/// A back-reference over bytes that repeat reproduces them.
pub proof fn lemma_copy_back_repeats(input: Seq<u8>, pos: int, dist: int, len: int)
    requires
        1 <= dist <= pos,
        0 <= len <= input.len() - pos,
        forall|i: int| pos <= i < pos + len ==> #[trigger] input[i] == input[i - dist],
    ensures
        grammar::copy_back(input.take(pos), dist, len) == input.take(pos + len),
    decreases len,
{
    if len > 0 {
        lemma_copy_back_repeats(input, pos, dist, len - 1);
        assert(input[pos + len - 1] == input[pos + len - 1 - dist]);
        assert(grammar::copy_back(input.take(pos), dist, len) =~= input.take(pos + len));
    }
}

/// The end of a stream decodes to the end of the input, unless one of its
/// literal runs is too long to be read.
pub proof fn lemma_reads_rest(
    stream: Seq<u8>,
    at: int,
    state: int,
    input: Seq<u8>,
    rest: Seq<Piece>,
    pos: int,
    limit: Option<int>,
)
    requires
        takes_matches(limit),
        0 <= pos <= input.len(),
        matcher::covers(input, rest, pos),
        rest.len() > 0 ==> rest[0] is Match,
        stands_at(stream, at, compress::encode_rest(input, rest)),
    ensures
        grammar::decode_from(stream, at, state, input.take(pos), limit) == if runs_fit(
            rest,
            limit,
        ) {
            Some(
                Decoded {
                    output: input,
                    consumed: at + compress::encode_rest(input, rest).len(),
                },
            )
        } else {
            None
        },
    decreases rest.len(),
{
    if rest.len() == 0 {
        let bytes = compress::end_marker();
        assert(bytes[0] == stream[at + 0]);
        assert(bytes[1] == stream[at + 1]);
        assert(bytes[2] == stream[at + 2]);
        assert(input.take(pos) =~= input);
    } else if let Piece::Match { len, dist } = rest[0] {
        let behind = rest.drop_first();
        let inline = compress::inline_literals(behind);
        let head = compress::match_bytes(len, dist, inline);
        let next = at + head.len();
        let after = pos + len;
        reveal_with_fuel(matcher::covers, 2);
        lemma_stands_split(stream, at, head, compress::encode_rest(input, behind));
        lemma_reads_match(stream, at, state, len, dist, inline, limit);
        lemma_copy_back_repeats(input, pos, dist, len);
        lemma_runs_fit_split(rest, limit);
        assert(input.take(after) + stream.subrange(next, next) =~= input.take(after));
        if behind.len() == 0 || behind[0] is Match {
            lemma_reads_rest(stream, next, 0, input, behind, after, limit);
        } else if inline == 0 {
            lemma_reads_run_and_rest(stream, next, input, behind, after, limit);
        } else if let Piece::Literals { start: _, len: n } = behind[0] {
            let literals = input.subrange(after, after + n);
            let last = behind.drop_first();
            lemma_runs_fit_split(behind, limit);
            lemma_stands_split(stream, next, literals, compress::encode_rest(input, last));
            assert forall|i: int| 0 <= i < n implies stream.subrange(next, next + n)[i]
                == literals[i] by {}
            assert(stream.subrange(next, next + n) =~= literals);
            assert(input.take(after) + literals =~= input.take(after + n));
            lemma_reads_rest(stream, next + n, n, input, last, after + n, limit);
        }
    }
}

/// A long-form literal run and what follows it decode to the end of the input,
/// unless a literal run is too long to be read.
pub proof fn lemma_reads_run_and_rest(
    stream: Seq<u8>,
    at: int,
    input: Seq<u8>,
    rest: Seq<Piece>,
    pos: int,
    limit: Option<int>,
)
    requires
        takes_matches(limit),
        0 <= pos <= input.len(),
        matcher::covers(input, rest, pos),
        rest.len() > 0,
        rest[0] matches Piece::Literals { start: _, len } && len > MAX_INLINE_LITERALS,
        stands_at(stream, at, compress::encode_rest(input, rest)),
    ensures
        grammar::decode_from(stream, at, 0, input.take(pos), limit) == if runs_fit(rest, limit) {
            Some(
                Decoded {
                    output: input,
                    consumed: at + compress::encode_rest(input, rest).len(),
                },
            )
        } else {
            None
        },
    decreases rest.len(),
{
    if let Piece::Literals { start: _, len } = rest[0] {
        let behind = rest.drop_first();
        let literals = input.subrange(pos, pos + len);
        let run = compress::run_bytes(literals);
        let head = compress::command_bytes(0, len - 3, 15);
        let next = at + head.len();
        lemma_stands_split(stream, at, run, compress::encode_rest(input, behind));
        lemma_stands_split(stream, at, head, literals);
        lemma_reads_run(stream, at, literals, limit);
        lemma_runs_fit_split(rest, limit);
        if piece_fits(rest[0], limit) {
            assert forall|i: int| 0 <= i < len implies stream.subrange(next, next + len)[i]
                == literals[i] by {}
            assert(stream.subrange(next, next + len) =~= literals);
            assert(input.take(pos) + literals =~= input.take(pos + len));
            lemma_reads_rest(
                stream,
                next + len,
                LONG_LITERAL_RUN_STATE as int,
                input,
                behind,
                pos + len,
                limit,
            );
        }
    }
}

/// The runs of pieces fit if that of the first does and those of the others
/// do.
pub proof fn lemma_runs_fit_split(found: Seq<Piece>, limit: Option<int>)
    requires
        found.len() > 0,
    ensures
        runs_fit(found, limit) <==> runs_fit(found.drop_first(), limit) && piece_fits(
            found[0],
            limit,
        ),
{
    let behind = found.drop_first();
    if runs_fit(found, limit) {
        assert forall|i: int| 0 <= i < behind.len() implies #[trigger] piece_fits(
            behind[i],
            limit,
        ) by {
            assert(piece_fits(found[i + 1], limit));
        }
    }
    if runs_fit(behind, limit) && piece_fits(found[0], limit) {
        assert forall|i: int| 0 <= i < found.len() implies #[trigger] piece_fits(
            found[i],
            limit,
        ) by {
            if i > 0 {
                assert(piece_fits(behind[i - 1], limit));
            }
        }
    }
}

/// To be readable is to fit the decoder's bound.
pub proof fn lemma_readable(found: Seq<Piece>)
    ensures
        readable(found) == runs_fit(found, grammar::decoder_limit()),
{
    let limit = grammar::decoder_limit();
    if readable(found) {
        assert forall|i: int| 0 <= i < found.len() implies #[trigger] piece_fits(
            found[i],
            limit,
        ) by {}
    }
    if runs_fit(found, limit) {
        assert forall|i: int| 0 <= i < found.len() implies match #[trigger] found[i] {
            Piece::Literals { start: _, len } => len <= MAX_LITERAL_RUN,
            Piece::Match { .. } => true,
        } by {
            assert(piece_fits(found[i], limit));
        }
    }
}

/// The stream of an input that is cut into pieces decodes to that input,
/// whatever the pieces, unless a literal run is too long to be read.
pub proof fn lemma_reads_stream(
    stream: Seq<u8>,
    input: Seq<u8>,
    found: Seq<Piece>,
    limit: Option<int>,
)
    requires
        takes_matches(limit),
        matcher::covers(input, found, 0),
        stands_at(stream, 0, compress::encode(input, found)),
    ensures
        grammar::decode_at(stream, 0, Seq::empty(), limit) == if runs_fit(found, limit) {
            Some(
                Decoded {
                    output: input,
                    consumed: compress::encode(input, found).len() as int,
                },
            )
        } else {
            None
        },
{
    let bytes = compress::encode(input, found);
    assert(input.take(0) =~= Seq::empty());
    if found.len() == 0 {
        assert(bytes =~= compress::encode_rest(input, found));
        assert(bytes[0] == stream[0]);
        lemma_reads_rest(stream, 0, 0, input, found, 0, limit);
    } else if let Piece::Literals { start: _, len } = found[0] {
        let behind = found.drop_first();
        let literals = input.subrange(0, len);
        assert(bytes[0] == stream[0]);
        lemma_runs_fit_split(found, limit);
        if len <= MAX_BOOTSTRAP_LITERALS {
            let first = seq![(len + 17) as u8];
            lemma_stands_split(stream, 0, first + literals, compress::encode_rest(input, behind));
            lemma_stands_split(stream, 0, first, literals);
            assert forall|i: int| 0 <= i < len implies stream.subrange(1, 1 + len)[i]
                == literals[i] by {}
            assert(Seq::empty() + stream.subrange(1, 1 + len) =~= input.take(len));
            let state = grammar::leading_state(len);
            lemma_reads_rest(stream, 1 + len, state, input, behind, len, limit);
        } else {
            assert(bytes == compress::encode_rest(input, found));
            lemma_reads_run_and_rest(stream, 0, input, found, 0, limit);
        }
    }
}

/// The same, for the format itself and for the decoder's bound.
pub proof fn lemma_reads_compressed(input: Seq<u8>, found: Seq<Piece>)
    requires
        matcher::covers(input, found, 0),
    ensures
        ({
            let stream = compress::encode(input, found);
            let decoded = Some(Decoded { output: input, consumed: stream.len() as int });
            &&& grammar::decode_unlimited(stream) == decoded
            &&& grammar::decode(stream) == if readable(found) {
                decoded
            } else {
                None
            }
        }),
{
    let stream = compress::encode(input, found);
    assert(runs_fit(found, None));
    lemma_readable(found);
    lemma_reads_stream(stream, input, found, None);
    lemma_reads_stream(stream, input, found, grammar::decoder_limit());
}

} // verus!
