//! What holds of the compressor and the decompressor together.

use vstd::prelude::*;

use crate::compress;
use crate::decoder;
use crate::error::Error;
use crate::grammar;
use crate::grammar::{Decoded, Instruction};
use crate::matcher;
use crate::matcher::{Piece, MIN_MATCH};
use crate::reading;
use crate::reading::MAX_LITERAL_RUN;

verus! {

/// `bytes` ends with `tail`.
pub open spec fn ends_with(bytes: Seq<u8>, tail: Seq<u8>) -> bool {
    &&& tail.len() <= bytes.len()
    &&& bytes.skip(bytes.len() - tail.len()) == tail
}

/// What is compressed decompresses to the same bytes, under every bound that
/// admits them, as long as no literal run is longer than the decoder takes.
pub proof fn round_trip(input: Seq<u8>, max_out: int)
    requires
        input.len() <= max_out,
        reading::readable(matcher::plan(input)),
    ensures
        decoder::decompressed(compress::compressed(input), max_out) matches Ok(output) && output
            == input,
{
    plan_covers_input(input);
    reading::lemma_reads_compressed(input, matcher::plan(input));
}

/// Every input of up to 16777219 bytes round-trips, whatever it holds.
pub proof fn round_trip_of_blocks(input: Seq<u8>, max_out: int)
    requires
        input.len() <= max_out,
        input.len() <= 16777219,
    ensures
        decoder::decompressed(compress::compressed(input), max_out) matches Ok(output) && output
            == input,
{
    plan_covers_input(input);
    lemma_short_inputs_fit(input, matcher::plan(input), 0);
    round_trip(input, max_out);
}

/// An input with a literal run that the decoder does not take is refused
/// rather than read back wrongly.
pub proof fn overlong_runs_are_refused(input: Seq<u8>, max_out: int)
    requires
        !reading::readable(matcher::plan(input)),
    ensures
        decoder::decompressed(compress::compressed(input), max_out) matches Err(error) && error
            == Error::Malformed,
{
    plan_covers_input(input);
    reading::lemma_reads_compressed(input, matcher::plan(input));
}

/// Every input has a valid encoding: by the format, the stream of any input
/// decodes to that input and is read to its last byte.
pub proof fn every_stream_is_valid(input: Seq<u8>)
    ensures
        grammar::decode_unlimited(compress::compressed(input)) == Some(
            Decoded { output: input, consumed: compress::compressed(input).len() as int },
        ),
{
    plan_covers_input(input);
    reading::lemma_reads_compressed(input, matcher::plan(input));
}

/// Equal streams come from equal inputs.
pub proof fn streams_determine_inputs(a: Seq<u8>, b: Seq<u8>)
    requires
        compress::compressed(a) == compress::compressed(b),
    ensures
        a == b,
{
    every_stream_is_valid(a);
    every_stream_is_valid(b);
}

/// Which matches are found never matters to whether a stream is valid: any way
/// of cutting the input into pieces decodes to the input, and the stream is
/// read to its last byte. The decoder's bound lets it pass as long as no
/// literal run is too long.
pub proof fn any_pieces_round_trip(input: Seq<u8>, found: Seq<Piece>)
    requires
        matcher::covers(input, found, 0),
    ensures
        ({
            let stream = compress::encode(input, found);
            let decoded = Some(Decoded { output: input, consumed: stream.len() as int });
            &&& grammar::decode_unlimited(stream) == decoded
            &&& reading::readable(found) ==> grammar::decode(stream) == decoded
        }),
{
    reading::lemma_reads_compressed(input, found);
}

/// What the decoder accepts, it decodes as the format says: its bound on
/// lengths only ever refuses a stream.
pub proof fn accepted_streams_decode_by_the_format(stream: Seq<u8>)
    requires
        grammar::decode(stream) is Some,
    ensures
        grammar::decode_unlimited(stream) == grammar::decode(stream),
{
    lemma_decode_same(stream, stream, grammar::decoder_limit(), None);
}

/// No extended length that the decoder takes is above 16 MiB.
pub proof fn extended_lengths_are_bounded(stream: Seq<u8>, at: int, base: int)
    ensures
        grammar::extended_length(stream, at, base, grammar::decoder_limit()) matches Some((len, _))
            ==> len <= 16777216,
{
    grammar::lemma_extended_length_advances(stream, at, base, grammar::decoder_limit());
}

/// A length extension reads back as what was written, wherever it stands, as
/// long as the decoder's bound admits it.
pub proof fn extensions_read_back(before: Seq<u8>, after: Seq<u8>, base: int, remainder: int)
    requires
        remainder >= 1,
        base + remainder <= 16777216,
    ensures
        ({
            let bytes = compress::extension_bytes(remainder);
            grammar::extended_length(
                before + bytes + after,
                before.len() as int,
                base,
                grammar::decoder_limit(),
            ) == Some((base + remainder, (before.len() + bytes.len()) as int))
        }),
{
    let bytes = compress::extension_bytes(remainder);
    reading::lemma_reads_extension(
        before + bytes + after,
        before.len() as int,
        base,
        remainder,
        grammar::decoder_limit(),
    );
}

/// The two bytes of an operand, read as a little-endian number, give back the
/// distance bits and the count of trailing literals.
pub proof fn operands_read_back(before: Seq<u8>, after: Seq<u8>, bits: int, inline: int)
    requires
        0 <= bits <= 0x3FFF,
        0 <= inline <= 3,
    ensures
        ({
            let bytes = compress::operand_bytes(bits, inline);
            let stream = before + bytes + after;
            let at = before.len() as int;
            let operand = stream[at] + 256 * stream[at + 1];
            &&& bytes.len() == 2
            &&& operand <= u16::MAX
            &&& operand / 4 == bits
            &&& operand % 4 == inline
        }),
{
}

/// A match may be split at any point, overlapping or not.
pub proof fn matches_may_be_split(out: Seq<u8>, dist: int, a: int, b: int)
    requires
        1 <= dist <= out.len(),
        0 <= a,
        0 <= b,
    ensures
        grammar::copy_back(grammar::copy_back(out, dist, a), dist, b) == grammar::copy_back(
            out,
            dist,
            a + b,
        ),
    decreases b,
{
    if b > 0 {
        matches_may_be_split(out, dist, a, b - 1);
    }
}

/// Decoding stops right behind an operand that holds no distance bits, that of
/// the end marker.
pub proof fn decoding_stops_behind_a_marker(stream: Seq<u8>)
    ensures
        grammar::decode(stream) matches Some(decoded) ==> {
            &&& 3 <= decoded.consumed <= stream.len()
            &&& stream[decoded.consumed - 2] < 4
            &&& stream[decoded.consumed - 1] == 0
        },
{
    if stream.len() > 0 {
        let limit = grammar::decoder_limit();
        if stream[0] >= 18 {
            let n = stream[0] - 17;
            grammar::lemma_output_grows(
                stream,
                1 + n,
                grammar::leading_state(n),
                Seq::empty() + stream.subrange(1, 1 + n),
                limit,
            );
        } else {
            grammar::lemma_output_grows(stream, 0, 0, Seq::empty(), limit);
        }
    }
}

/// The pieces that an input is cut into follow each other from its first byte
/// to its last, literal runs and matches as a stream can hold them.
pub proof fn plan_covers_input(input: Seq<u8>)
    ensures
        matcher::covers(input, matcher::plan(input), 0),
{
    matcher::lemma_pieces_cover(input, 0, 0);
}

/// The bound decides only whether the output is returned: a bound of the exact
/// length is enough, one byte less is refused, and the bytes do not depend on
/// it.
pub proof fn bound_is_exact(stream: Seq<u8>, enough: int, max_out: int)
    requires
        decoder::decompressed(stream, enough) is Ok,
    ensures
        ({
            let output = decoder::decompressed(stream, enough)->Ok_0;
            decoder::decompressed(stream, max_out) == if output.len() <= max_out {
                Ok(output)
            } else {
                Err(Error::Malformed)
            }
        }),
{
}

/// Bytes behind the end marker change nothing.
pub proof fn trailing_bytes_are_ignored(stream: Seq<u8>, more: Seq<u8>)
    requires
        grammar::decode(stream) is Some,
    ensures
        grammar::decode(stream + more) == grammar::decode(stream),
{
    let limit = grammar::decoder_limit();
    lemma_decode_same(stream, stream + more, limit, limit);
}

/// A stream cut anywhere before the end of its marker is malformed.
pub proof fn truncated_streams_are_malformed(stream: Seq<u8>, keep: int)
    requires
        grammar::decode(stream) is Some,
        0 <= keep < grammar::decode(stream)->0.consumed,
    ensures
        grammar::decode(stream.take(keep)) is None,
{
    decoding_stops_behind_a_marker(stream);
    decoding_stops_behind_a_marker(stream.take(keep));
    if grammar::decode(stream.take(keep)) is Some {
        let limit = grammar::decoder_limit();
        lemma_decode_same(stream.take(keep), stream, limit, limit);
    }
}

/// Of what is compressed, every byte is needed, whatever the input.
pub proof fn truncated_output_is_malformed(input: Seq<u8>, keep: int, max_out: int)
    requires
        0 <= keep < compress::compressed(input).len(),
    ensures
        decoder::decompressed(compress::compressed(input).take(keep), max_out) matches Err(error)
            && error == Error::Malformed,
{
    let stream = compress::compressed(input);
    every_stream_is_valid(input);
    decoding_stops_behind_a_marker(stream.take(keep));
    if grammar::decode(stream.take(keep)) is Some {
        lemma_decode_same(stream.take(keep), stream, grammar::decoder_limit(), None);
    }
}

/// A stream of nothing but zero bytes is malformed, however long.
pub proof fn all_zeros_are_malformed(stream: Seq<u8>)
    requires
        forall|i: int| 0 <= i < stream.len() ==> stream[i] == 0,
    ensures
        grammar::decode(stream) is None,
{
    lemma_zeros_do_not_end(stream, 1, 15);
}

/// Every stream ends with the end marker.
pub proof fn every_stream_ends_with_the_marker(input: Seq<u8>)
    ensures
        ends_with(compress::compressed(input), compress::end_marker()),
{
    let found = matcher::plan(input);
    if found.len() > 0 && found[0] is Literals {
        lemma_rest_ends_with_marker(input, found.drop_first());
    } else {
        lemma_rest_ends_with_marker(input, found);
    }
    assert(compress::compressed(input).skip(compress::compressed(input).len() - 3)
        =~= compress::end_marker());
}

/// An input that is not empty ends in a literal run of at least three bytes,
/// or of the whole input if that is shorter, and its stream ends with that run
/// and the end marker.
pub proof fn every_stream_ends_with_literals(input: Seq<u8>)
    requires
        input.len() > 0,
    ensures
        ({
            let found = matcher::plan(input);
            &&& found.len() > 0
            &&& found.last() matches Piece::Literals { start, len } && {
                &&& start + len == input.len()
                &&& len >= 3 || len == input.len()
                &&& ends_with(
                    compress::compressed(input),
                    input.skip(start) + compress::end_marker(),
                )
            }
        }),
{
    let found = matcher::plan(input);
    lemma_ends_in_literals(input, 0, 0);
    if found[0] is Literals && found.len() == 1 {
        if let Piece::Literals { start, len } = found[0] {
            plan_covers_input(input);
            assert(input.subrange(0, len) =~= input.skip(0));
            assert(found.drop_first() =~= Seq::empty());
            let bytes = compress::leading_bytes(input.skip(0));
            assert(ends_with(bytes, input.skip(0))) by {
                assert(bytes.skip(bytes.len() - len) =~= input.skip(0));
            }
            lemma_ends_with_both(bytes, input.skip(0), compress::end_marker());
        }
    } else if found[0] is Literals {
        lemma_rest_ends_with_literals(input, found.drop_first());
        if let Piece::Literals { start, len } = found.last() {
            if let Piece::Literals { start: s, len: l } = found[0] {
                lemma_ends_with_longer(
                    compress::leading_bytes(input.subrange(s, s + l)),
                    compress::encode_rest(input, found.drop_first()),
                    input.skip(start) + compress::end_marker(),
                );
            }
        }
    } else {
        lemma_rest_ends_with_literals(input, found);
    }
}

/// An input in which no match is found comes back larger than it went in.
pub proof fn inputs_without_matches_grow(input: Seq<u8>)
    requires
        forall|i: int| 0 <= i < matcher::plan(input).len() ==> matcher::plan(input)[i] is Literals,
    ensures
        compress::compressed(input).len() > input.len(),
{
    let found = matcher::plan(input);
    plan_covers_input(input);
    reveal_with_fuel(matcher::covers, 2);
    if found.len() > 1 {
        assert(found.drop_first()[0] == found[1]);
    }
}

/// Of the four match buckets a stream uses two: one for distances of up to
/// 16384, one for those above.
pub proof fn matches_use_two_buckets(len: int, dist: int, inline: int)
    requires
        3 <= len <= 65536,
        1 <= dist <= 49151,
    ensures
        dist <= 16384 ==> 32 <= compress::match_bytes(len, dist, inline)[0] < 64,
        dist > 16384 ==> 16 <= compress::match_bytes(len, dist, inline)[0] < 32,
{
}

/// A match token reads back as the match that it was written for, in any state
/// and wherever it stands; it is never taken for the end marker.
pub proof fn match_tokens_read_back(
    before: Seq<u8>,
    after: Seq<u8>,
    state: int,
    len: int,
    dist: int,
    inline: int,
)
    requires
        3 <= len <= 65536,
        1 <= dist <= 49151,
        0 <= inline <= 3,
    ensures
        ({
            let token = compress::match_bytes(len, dist, inline);
            grammar::instruction(
                before + token + after,
                before.len() as int,
                state,
                grammar::decoder_limit(),
            ) == Some(
                (
                    Instruction::Match { len, dist, trailing: inline },
                    (before.len() + token.len()) as int,
                ),
            )
        }),
{
    let token = compress::match_bytes(len, dist, inline);
    reading::lemma_reads_match(
        before + token + after,
        before.len() as int,
        state,
        len,
        dist,
        inline,
        grammar::decoder_limit(),
    );
}

/// A token of the `0 0 0 1 H L L L` bucket that adds no distance ends the
/// stream, whatever its length bits hold and however many trailing literals it
/// promises.
pub proof fn length_bits_of_the_marker_are_ignored(
    stream: Seq<u8>,
    at: int,
    state: int,
    limit: Option<int>,
)
    requires
        0 <= at,
        at + 3 <= stream.len(),
        17 <= stream[at] <= 23,
        stream[at + 1] < 4,
        stream[at + 2] == 0,
    ensures
        grammar::instruction(stream, at, state, limit) == Some((Instruction::End, at + 3)),
{
}

/// No match of any stream reaches further back than 49151 bytes.
pub proof fn distances_are_bounded(stream: Seq<u8>, at: int, state: int, limit: Option<int>)
    ensures
        grammar::instruction(stream, at, state, limit) matches Some(
            (Instruction::Match { len: _, dist, trailing: _ }, _),
        ) ==> 1 <= dist <= 49151,
{
}

/// No literal run of a piece is longer than the input.
proof fn lemma_short_inputs_fit(input: Seq<u8>, found: Seq<Piece>, pos: int)
    requires
        input.len() <= MAX_LITERAL_RUN,
        0 <= pos,
        matcher::covers(input, found, pos),
    ensures
        reading::readable(found),
    decreases found.len(),
{
    reading::lemma_readable(found);
    if found.len() > 0 {
        let len = match found[0] {
            Piece::Literals { start: _, len } => len,
            Piece::Match { len, dist: _ } => len,
        };
        lemma_short_inputs_fit(input, found.drop_first(), pos + len);
        reading::lemma_readable(found.drop_first());
        reading::lemma_runs_fit_split(found, grammar::decoder_limit());
    }
}

/// `wider` admits at least what `limit` does.
spec fn admits(wider: Option<int>, limit: Option<int>) -> bool {
    forall|len: int| grammar::within(len, limit) ==> #[trigger] grammar::within(len, wider)
}

/// What is read of a stream is read alike of a longer one, under a wider
/// bound.
proof fn lemma_extended_length_same(
    stream: Seq<u8>,
    longer: Seq<u8>,
    at: int,
    base: int,
    limit: Option<int>,
    wider: Option<int>,
)
    requires
        grammar::begins_with(longer, stream),
        admits(wider, limit),
        grammar::extended_length(stream, at, base, limit) is Some,
    ensures
        grammar::extended_length(longer, at, base, wider) == grammar::extended_length(
            stream,
            at,
            base,
            limit,
        ),
    decreases stream.len() - at,
{
    assert(longer[at] == stream[at]);
    if stream[at] == 0 {
        lemma_extended_length_same(stream, longer, at + 1, base + 255, limit, wider);
    }
}

proof fn lemma_instruction_same(
    stream: Seq<u8>,
    longer: Seq<u8>,
    at: int,
    state: int,
    limit: Option<int>,
    wider: Option<int>,
)
    requires
        grammar::begins_with(longer, stream),
        admits(wider, limit),
        grammar::instruction(stream, at, state, limit) is Some,
    ensures
        grammar::instruction(longer, at, state, wider) == grammar::instruction(
            stream,
            at,
            state,
            limit,
        ),
{
    assert(longer[at] == stream[at]);
    grammar::lemma_instruction_advances(stream, at, state, limit);
    if grammar::extended_length(stream, at + 1, 15, limit) is Some {
        lemma_extended_length_same(stream, longer, at + 1, 15, limit, wider);
    }
    if grammar::extended_length(stream, at + 1, 31, limit) is Some {
        grammar::lemma_extended_length_advances(stream, at + 1, 31, limit);
        lemma_extended_length_same(stream, longer, at + 1, 31, limit, wider);
    }
    if grammar::extended_length(stream, at + 1, 7, limit) is Some {
        grammar::lemma_extended_length_advances(stream, at + 1, 7, limit);
        lemma_extended_length_same(stream, longer, at + 1, 7, limit, wider);
    }
}

proof fn lemma_decode_from_same(
    stream: Seq<u8>,
    longer: Seq<u8>,
    at: int,
    state: int,
    out: Seq<u8>,
    limit: Option<int>,
    wider: Option<int>,
)
    requires
        grammar::begins_with(longer, stream),
        admits(wider, limit),
        grammar::decode_from(stream, at, state, out, limit) is Some,
    ensures
        grammar::decode_from(longer, at, state, out, wider) == grammar::decode_from(
            stream,
            at,
            state,
            out,
            limit,
        ),
    decreases stream.len() - at,
{
    grammar::lemma_instruction_advances(stream, at, state, limit);
    lemma_instruction_same(stream, longer, at, state, limit, wider);
    match grammar::instruction(stream, at, state, limit) {
        Some((Instruction::Literals { len }, next)) => {
            assert(longer.subrange(next, next + len) =~= stream.subrange(next, next + len));
            lemma_decode_from_same(
                stream,
                longer,
                next + len,
                grammar::LONG_LITERAL_RUN_STATE as int,
                out + stream.subrange(next, next + len),
                limit,
                wider,
            );
        },
        Some((Instruction::Match { len, dist, trailing }, next)) => {
            assert(longer.subrange(next, next + trailing) =~= stream.subrange(
                next,
                next + trailing,
            ));
            lemma_decode_from_same(
                stream,
                longer,
                next + trailing,
                trailing,
                grammar::copy_back(out, dist, len) + stream.subrange(next, next + trailing),
                limit,
                wider,
            );
        },
        _ => {},
    }
}

proof fn lemma_decode_same(
    stream: Seq<u8>,
    longer: Seq<u8>,
    limit: Option<int>,
    wider: Option<int>,
)
    requires
        grammar::begins_with(longer, stream),
        admits(wider, limit),
        grammar::decode_at(stream, 0, Seq::empty(), limit) is Some,
    ensures
        grammar::decode_at(longer, 0, Seq::empty(), wider) == grammar::decode_at(
            stream,
            0,
            Seq::empty(),
            limit,
        ),
{
    assert(longer[0] == stream[0]);
    if stream[0] >= 18 {
        let n = stream[0] - 17;
        assert(longer.subrange(1, 1 + n) =~= stream.subrange(1, 1 + n));
        lemma_decode_from_same(
            stream,
            longer,
            1 + n,
            grammar::leading_state(n),
            Seq::empty() + stream.subrange(1, 1 + n),
            limit,
            wider,
        );
    } else {
        lemma_decode_from_same(stream, longer, 0, 0, Seq::empty(), limit, wider);
    }
}

proof fn lemma_zeros_do_not_end(stream: Seq<u8>, at: int, base: int)
    requires
        forall|i: int| 0 <= i < stream.len() ==> stream[i] == 0,
    ensures
        grammar::extended_length(stream, at, base, grammar::decoder_limit()) is None,
    decreases stream.len() - at,
{
    if 0 <= at < stream.len() {
        lemma_zeros_do_not_end(stream, at + 1, base + 255);
    }
}

/// What ends a string still ends it when something is put in front.
proof fn lemma_ends_with_longer(front: Seq<u8>, bytes: Seq<u8>, tail: Seq<u8>)
    requires
        ends_with(bytes, tail),
    ensures
        ends_with(front + bytes, tail),
{
    let both = front + bytes;
    assert(both.skip(both.len() - tail.len()) =~= bytes.skip(bytes.len() - tail.len()));
}

/// What ends a string ends it together with what is put behind.
proof fn lemma_ends_with_both(bytes: Seq<u8>, tail: Seq<u8>, behind: Seq<u8>)
    requires
        ends_with(bytes, tail),
    ensures
        ends_with(bytes + behind, tail + behind),
{
    let all = bytes + behind;
    assert(all.skip(all.len() - tail.len() - behind.len()) =~= bytes.skip(
        bytes.len() - tail.len(),
    ) + behind);
}

proof fn lemma_rest_ends_with_marker(input: Seq<u8>, rest: Seq<Piece>)
    ensures
        ends_with(compress::encode_rest(input, rest), compress::end_marker()),
    decreases rest.len(),
{
    let bytes = compress::encode_rest(input, rest);
    if rest.len() > 0 {
        lemma_rest_ends_with_marker(input, rest.drop_first());
        let behind = compress::encode_rest(input, rest.drop_first());
        assert(bytes.skip(bytes.len() - 3) =~= behind.skip(behind.len() - 3));
    } else {
        assert(bytes.skip(0) =~= bytes);
    }
}

/// The pieces found end in a literal run up to the end of the input.
proof fn lemma_ends_in_literals(input: Seq<u8>, pos: int, literal_start: int)
    requires
        0 <= literal_start <= pos <= matcher::search_end(input),
        input.len() > 0,
    ensures
        ({
            let found = matcher::pieces_from(input, pos, literal_start);
            &&& found.len() > 0
            &&& found.last() matches Piece::Literals { start, len } && {
                &&& 0 <= start
                &&& start + len == input.len()
                &&& len >= 3 || len == input.len()
            }
        }),
    decreases matcher::search_end(input) - pos,
{
    if pos + MIN_MATCH <= matcher::search_end(input) {
        match matcher::match_source(input, pos) {
            None => {
                lemma_ends_in_literals(input, pos + 1, literal_start);
            },
            Some(source) => {
                let limit = matcher::match_limit(input, pos);
                let len = matcher::agreement(input, source, pos, limit);
                matcher::lemma_match_is_long_enough(input, source, pos, limit);
                lemma_ends_in_literals(input, pos + len, pos + len);
                assert(matcher::pieces_from(input, pos, literal_start).last()
                    == matcher::pieces_from(input, pos + len, pos + len).last());
            },
        }
    }
}

proof fn lemma_rest_ends_with_literals(input: Seq<u8>, rest: Seq<Piece>)
    requires
        rest.len() > 0,
        rest.last() matches Piece::Literals { start, len } && 0 <= start && 0 <= len && start + len
            == input.len(),
    ensures
        rest.last() matches Piece::Literals { start, len } && ends_with(
            compress::encode_rest(input, rest),
            input.skip(start) + compress::end_marker(),
        ),
    decreases rest.len(),
{
    let behind = rest.drop_first();
    if let Piece::Literals { start, len } = rest.last() {
        let tail = input.skip(start) + compress::end_marker();
        if rest.len() == 1 {
            let literals = input.subrange(start, start + len);
            assert(literals =~= input.skip(start));
            let bytes = compress::literal_bytes(literals);
            assert(compress::encode_rest(input, behind) == compress::end_marker());
            assert(bytes.skip(bytes.len() - len) =~= literals);
            lemma_ends_with_both(bytes, literals, compress::end_marker());
        } else {
            assert(behind.last() == rest.last());
            lemma_rest_ends_with_literals(input, behind);
            let front = match rest[0] {
                Piece::Match { len, dist } => compress::match_bytes(
                    len,
                    dist,
                    compress::inline_literals(behind),
                ),
                Piece::Literals { start, len } => compress::literal_bytes(
                    input.subrange(start, start + len),
                ),
            };
            lemma_ends_with_longer(front, compress::encode_rest(input, behind), tail);
        }
    }
}

} // verus!
