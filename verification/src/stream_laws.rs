//! How the pieces of an input stand in its stream.
//!
//! Between them these laws settle every byte of a stream, given the pieces:
//! each piece is one token, the tokens follow each other from the first byte to
//! the end marker, and each reads as the piece that it stands for.

use vstd::prelude::*;

use crate::compress;
use crate::grammar;
use crate::grammar::Instruction;
use crate::matcher;
use crate::matcher::Piece;
use crate::plan_laws;
use crate::reading;

verus! {

/// Where the token of the piece at `index` stands in the stream of an input.
/// Behind the last piece, that is where the end marker stands.
pub open spec fn token_at(input: Seq<u8>, index: int) -> int {
    if index <= 0 {
        0
    } else {
        compress::compressed(input).len() - compress::encode_rest(
            input,
            matcher::plan(input).skip(index),
        ).len()
    }
}

/// How many literals ride along with the match at `index`: those of the run
/// behind it, if they are three or fewer.
pub open spec fn riding_along(found: Seq<Piece>, index: int) -> int {
    if index + 1 < found.len() {
        match found[index + 1] {
            Piece::Literals { start: _, len } => if len <= 3 {
                len
            } else {
                0
            },
            Piece::Match { .. } => 0,
        }
    } else {
        0
    }
}

/// `bytes` are the bytes of the stream from `at` up to `end`.
pub open spec fn holds(stream: Seq<u8>, at: int, end: int, bytes: Seq<u8>) -> bool {
    &&& 0 <= at <= end <= stream.len()
    &&& end - at == bytes.len()
    &&& forall|i: int| 0 <= i < bytes.len() ==> #[trigger] bytes[i] == stream[at + i]
}

/// A match is one token, which reads in every state as that match, with as many
/// trailing literals as ride along. Its command byte is one of 32 to 63 up to a
/// distance of 16384, and one of 16 to 31 beyond.
pub proof fn matches_are_one_token(
    input: Seq<u8>,
    index: int,
    state: int,
    limit: Option<int>,
)
    requires
        0 <= index < matcher::plan(input).len(),
        limit matches Some(most) ==> most >= 65536,
    ensures
        matcher::plan(input)[index] matches Piece::Match { len, dist } ==> {
            let stream = compress::compressed(input);
            let at = token_at(input, index);
            &&& 0 <= at < stream.len()
            &&& dist <= 16384 ==> 32 <= stream[at] < 64
            &&& dist > 16384 ==> 16 <= stream[at] < 32
            &&& grammar::instruction(stream, at, state, limit) == Some(
                (
                    Instruction::Match {
                        len,
                        dist,
                        trailing: riding_along(matcher::plan(input), index),
                    },
                    token_at(input, index + 1),
                ),
            )
        },
{
    let stream = compress::compressed(input);
    let found = matcher::plan(input);
    if let Piece::Match { len, dist } = found[index] {
        let at = token_at(input, index);
        let here = found.skip(index);
        let behind = found.skip(index + 1);
        let inline = compress::inline_literals(behind);
        lemma_rest_stands(input, index);
        lemma_rest_stands(input, index + 1);
        lemma_piece(input, index);
        assert(here.drop_first() =~= behind);
        assert(here[0] == found[index]);
        if index + 1 < found.len() {
            assert(behind[0] == found[index + 1]);
            lemma_piece(input, index + 1);
        }
        let token = compress::match_bytes(len, dist, inline);
        assert(compress::encode_rest(input, here) == token + compress::encode_rest(input, behind));
        reading::lemma_stands_split(stream, at, token, compress::encode_rest(input, behind));
        reading::lemma_reads_match(stream, at, state, len, dist, inline, limit);
        assert(token[0] == stream[at + 0]);
    }
}

/// A literal run of up to three bytes behind a match stands in the stream as it
/// is, without a command byte.
pub proof fn short_runs_stand_bare(input: Seq<u8>, index: int, start: int, len: int)
    requires
        0 < index < matcher::plan(input).len(),
        matcher::plan(input)[index] == (Piece::Literals { start, len }),
        len <= 3,
    ensures
        holds(
            compress::compressed(input),
            token_at(input, index),
            token_at(input, index + 1),
            input.subrange(start, start + len),
        ),
{
    let found = matcher::plan(input);
    let behind = found.skip(index + 1);
    lemma_rest_stands(input, index);
    lemma_rest_stands(input, index + 1);
    lemma_piece(input, index);
    assert(found.skip(index).drop_first() =~= behind);
    assert(found.skip(index)[0] == found[index]);
    reading::lemma_stands_split(
        compress::compressed(input),
        token_at(input, index),
        input.subrange(start, start + len),
        compress::encode_rest(input, behind),
    );
}

/// A longer literal run behind a match is one token, which reads in state 0 as
/// a run of that length, and its bytes. A run of more than 238 bytes that opens
/// the input is written alike.
pub proof fn long_runs_are_one_token(
    input: Seq<u8>,
    index: int,
    start: int,
    len: int,
    limit: Option<int>,
)
    requires
        0 <= index < matcher::plan(input).len(),
        matcher::plan(input)[index] == (Piece::Literals { start, len }),
        len > 238 || (index > 0 && len > 3),
        limit matches Some(most) ==> most >= 65536 && most >= len - 3,
    ensures
        ({
            let stream = compress::compressed(input);
            let end = token_at(input, index + 1);
            &&& grammar::instruction(stream, token_at(input, index), 0, limit) == Some(
                (Instruction::Literals { len }, end - len),
            )
            &&& holds(stream, end - len, end, input.subrange(start, start + len))
        }),
{
    let stream = compress::compressed(input);
    let found = matcher::plan(input);
    let at = token_at(input, index);
    let behind = found.skip(index + 1);
    let literals = input.subrange(start, start + len);
    let run = compress::run_bytes(literals);
    let head = compress::command_bytes(0, len - 3, 15);
    lemma_rest_stands(input, index);
    lemma_rest_stands(input, index + 1);
    lemma_piece(input, index);
    assert(found.skip(index).drop_first() =~= behind);
    assert(found.skip(index)[0] == found[index]);
    reading::lemma_stands_split(stream, at, run, compress::encode_rest(input, behind));
    reading::lemma_stands_split(stream, at, head, literals);
    reading::lemma_reads_run(stream, at, literals, limit);
}

/// A literal run of up to 238 bytes that opens an input opens its stream: 17
/// more than its length in the first byte, then its bytes.
pub proof fn leading_runs_open_the_stream(input: Seq<u8>, len: int)
    requires
        matcher::plan(input).len() > 0,
        matcher::plan(input)[0] == (Piece::Literals { start: 0, len }),
        len <= 238,
    ensures
        ({
            let stream = compress::compressed(input);
            &&& stream.len() > len
            &&& stream[0] == 17 + len
            &&& token_at(input, 1) == 1 + len
            &&& holds(stream, 1, 1 + len, input.take(len))
        }),
{
    let found = matcher::plan(input);
    lemma_piece(input, 0);
    lemma_rest_stands(input, 1);
    assert(found.skip(1) =~= found.drop_first());
    assert(input.subrange(0, len) =~= input.take(len));
}

/// Behind the last piece stand the three bytes of the end marker, and nothing
/// behind them.
pub proof fn the_marker_stands_last(input: Seq<u8>)
    ensures
        ({
            let stream = compress::compressed(input);
            let at = token_at(input, matcher::plan(input).len() as int);
            &&& 0 <= at
            &&& stream.len() == at + 3
            &&& stream[at] == 17
            &&& stream[at + 1] == 0
            &&& stream[at + 2] == 0
        }),
{
    let found = matcher::plan(input);
    let last = found.len() as int;
    lemma_rest_stands(input, last);
    assert(found.skip(last) =~= Seq::empty());
    let stream = compress::compressed(input);
    let at = token_at(input, last);
    let marker = compress::end_marker();
    assert(marker[0] == stream[at + 0]);
    assert(marker[1] == stream[at + 1]);
    assert(marker[2] == stream[at + 2]);
}

/// The piece at `index` is one that a stream can hold.
proof fn lemma_piece(input: Seq<u8>, index: int)
    requires
        0 <= index < matcher::plan(input).len(),
    ensures
        match matcher::plan(input)[index] {
            Piece::Literals { start, len } => {
                &&& 0 <= start
                &&& 1 <= len
                &&& start + len <= input.len()
                &&& index == 0 ==> start == 0
            },
            Piece::Match { len, dist } => {
                &&& 3 <= len <= 65536
                &&& 1 <= dist <= 49151
            },
        },
{
    let found = matcher::plan(input);
    matcher::lemma_pieces_cover(input, 0, 0);
    plan_laws::lemma_covers_from(input, found, index);
    plan_laws::lemma_starts_are_within(input, found, index);
    assert(found.skip(index)[0] == found[index]);
}

/// The end of the stream, from the token of a piece on, is what is written of
/// the pieces from there on. The first piece is written so too, unless it is a
/// literal run that the first byte can carry.
proof fn lemma_rest_stands(input: Seq<u8>, index: int)
    requires
        0 <= index <= matcher::plan(input).len(),
    ensures
        index > 0 || matcher::plan(input).len() == 0 || (match matcher::plan(input)[0] {
            Piece::Literals { start: _, len } => len > 238,
            Piece::Match { .. } => true,
        }) ==> reading::stands_at(
            compress::compressed(input),
            token_at(input, index),
            compress::encode_rest(input, matcher::plan(input).skip(index)),
        ),
        token_at(input, index) + compress::encode_rest(
            input,
            matcher::plan(input).skip(index),
        ).len() == compress::compressed(input).len() || index == 0,
    decreases index,
{
    let stream = compress::compressed(input);
    let found = matcher::plan(input);
    if found.len() > 0 {
        lemma_piece(input, 0);
    }
    if index <= 0 {
        assert(found.skip(0) =~= found);
    } else if index == 1 {
        assert(found.skip(1) =~= found.drop_first());
        let head = stream.take(token_at(input, 1));
        let tail = compress::encode_rest(input, found.skip(1));
        assert(stream =~= head + tail);
        assert(reading::stands_at(stream, 0, stream));
        reading::lemma_stands_split(stream, 0, head, tail);
    } else {
        lemma_rest_stands(input, index - 1);
        let here = found.skip(index - 1);
        let tail = compress::encode_rest(input, found.skip(index));
        assert(here.drop_first() =~= found.skip(index));
        let whole = compress::encode_rest(input, here);
        let head = whole.take(whole.len() - tail.len());
        assert(whole =~= head + tail);
        reading::lemma_stands_split(stream, token_at(input, index - 1), head, tail);
    }
}

} // verus!
