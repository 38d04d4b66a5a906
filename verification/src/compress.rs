//! The LZO1X encoder.
//!
//! It writes a subset of the grammar: both literal forms, and two of the four
//! match buckets.
//!
//! | bucket | command byte   | used for                            |
//! |--------|----------------|-------------------------------------|
//! | C      | `0 0 1 LLLLL`  | every match with distance <= 16384  |
//! | D      | `0 0 0 1 HLLL` | every match with distance > 16384   |
//!
//! The two short-distance buckets encode a match of 3 to 8 bytes one byte more
//! cheaply than bucket C does. Leaving them out costs ratio, not correctness.

use vstd::prelude::*;

use crate::grammar;
use crate::grammar::{LONG_MATCH_DISTANCE_BASE, ZERO_RUN_INCREMENT};
use crate::matcher;
use crate::matcher::{Piece, Token, MAX_DISTANCE, MAX_MATCH, MIN_MATCH};
use crate::reading;

verus! {

/// Largest distance that bucket C can express, and so the boundary between
/// the two match encodings.
pub const MAX_BUCKET_C_DISTANCE: usize = 0x4000;

/// Trailing literals that fit in the two low bits of a match operand, and so
/// cost nothing to carry.
pub const MAX_INLINE_LITERALS: usize = 3;

/// Length of the literal run that the first command byte can carry directly,
/// as `length + 17`.
pub const MAX_BOOTSTRAP_LITERALS: usize = 255 - 17;

/// The end-of-stream marker.
pub open spec fn end_marker() -> Seq<u8> {
    seq![0x11u8, 0u8, 0u8]
}

/// The length extension worth `remainder`.
pub open spec fn extension_bytes(remainder: int) -> Seq<u8>
    decreases remainder,
{
    if remainder <= ZERO_RUN_INCREMENT {
        seq![remainder as u8]
    } else {
        seq![0u8] + extension_bytes(remainder - ZERO_RUN_INCREMENT)
    }
}

/// A command byte with `value` in a length field whose widest value is `mask`,
/// followed by an extension if the field is too narrow.
pub open spec fn command_bytes(command: int, value: int, mask: int) -> Seq<u8> {
    if value <= mask {
        seq![(command + value) as u8]
    } else {
        seq![command as u8] + extension_bytes(value - mask)
    }
}

/// A literal run of four bytes or more, read in state 0.
pub open spec fn run_bytes(literals: Seq<u8>) -> Seq<u8> {
    command_bytes(0, literals.len() - 3, 15) + literals
}

/// The literal run that opens a stream.
pub open spec fn leading_bytes(literals: Seq<u8>) -> Seq<u8> {
    if literals.len() == 0 {
        Seq::empty()
    } else if literals.len() <= MAX_BOOTSTRAP_LITERALS {
        seq![(literals.len() + 17) as u8] + literals
    } else {
        run_bytes(literals)
    }
}

/// A literal run behind a match: bare if the match carries its length.
pub open spec fn literal_bytes(literals: Seq<u8>) -> Seq<u8> {
    if literals.len() <= MAX_INLINE_LITERALS {
        literals
    } else {
        run_bytes(literals)
    }
}

/// The operand of a match: fourteen bits of distance over two bits of
/// trailing-literal count, little-endian.
pub open spec fn operand_bytes(distance_bits: int, inline: int) -> Seq<u8> {
    let operand = distance_bits * 4 + inline;
    seq![(operand % 256) as u8, (operand / 256) as u8]
}

/// A match that promises `inline` trailing literals.
pub open spec fn match_bytes(len: int, dist: int, inline: int) -> Seq<u8> {
    if dist <= MAX_BUCKET_C_DISTANCE {
        command_bytes(0x20, len - 2, 31) + operand_bytes(dist - 1, inline)
    } else {
        let offset = dist - LONG_MATCH_DISTANCE_BASE;
        command_bytes(0x10 + 8 * (offset / 0x4000), len - 2, 7) + operand_bytes(
            offset % 0x4000,
            inline,
        )
    }
}

/// How many literals a match promises if `rest` is what follows it.
pub open spec fn inline_literals(rest: Seq<Piece>) -> int {
    if rest.len() == 0 {
        0
    } else {
        match rest[0] {
            Piece::Literals { start: _, len } => if len <= MAX_INLINE_LITERALS {
                len
            } else {
                0
            },
            Piece::Match { .. } => 0,
        }
    }
}

/// The end of a stream, from the pieces in `rest` on, none of which opens it.
pub open spec fn encode_rest(input: Seq<u8>, rest: Seq<Piece>) -> Seq<u8>
    decreases rest.len(),
{
    if rest.len() == 0 {
        end_marker()
    } else {
        let behind = rest.drop_first();
        let bytes = match rest[0] {
            Piece::Match { len, dist } => match_bytes(len, dist, inline_literals(behind)),
            Piece::Literals { start, len } => literal_bytes(input.subrange(start, start + len)),
        };
        bytes + encode_rest(input, behind)
    }
}

/// The stream of an input that is cut into the given pieces.
pub open spec fn encode(input: Seq<u8>, found: Seq<Piece>) -> Seq<u8> {
    if found.len() == 0 {
        end_marker()
    } else {
        match found[0] {
            Piece::Literals { start, len } => leading_bytes(input.subrange(start, start + len))
                + encode_rest(input, found.drop_first()),
            Piece::Match { .. } => encode_rest(input, found),
        }
    }
}

/// What [`compress`] returns.
pub open spec fn compressed(input: Seq<u8>) -> Seq<u8> {
    encode(input, matcher::plan(input))
}

/// Compress `input` into an LZO1X stream.
///
/// Infallible: an input with no exploitable redundancy simply comes back
/// larger than it went in. Callers that care should compare lengths and store
/// the original when this is longer.
///
/// The output always ends with a literal run, if the input is not empty, and
/// the end-of-stream marker. By the format it always decodes to the input.
/// [`crate::decompress`] reads it back too, unless a literal run is longer
/// than [`crate::reading::MAX_LITERAL_RUN`] bytes: that is beyond what the
/// decoder takes for anything but garbage.
pub fn compress(input: &[u8]) -> (packed: Vec<u8>)
    ensures
        packed@ == compressed(input@),
        grammar::decode_unlimited(packed@) matches Some(decoded) && {
            &&& decoded.output == input@
            &&& decoded.consumed == packed@.len()
        },
        reading::readable(matcher::plan(input@)) ==> grammar::decode(packed@)
            == grammar::decode_unlimited(packed@),
        !reading::readable(matcher::plan(input@)) ==> grammar::decode(packed@) is None,
{
    let tokens = matcher::parse(input);
    proof {
        matcher::lemma_pieces_cover(input@, 0, 0);
        reading::lemma_reads_compressed(input@, matcher::plan(input@));
    }
    emit(input, tokens.as_slice())
}

/// Turn the token sequence into bytes.
fn emit(input: &[u8], tokens: &[Token]) -> (out: Vec<u8>)
    requires
        matcher::covers(input@, matcher::pieces(tokens@), 0),
    ensures
        out@ == encode(input@, matcher::pieces(tokens@)),
{
    let ghost all = matcher::pieces(tokens@);
    let ghost whole = encode(input@, all);
    let ghost mut pos: int = 0;
    let mut out: Vec<u8> = Vec::with_capacity(input.len() / 2 + 64);
    let mut index: usize = 0;

    // The stream opens with a literal run if there is one. No match precedes
    // it to have set the state, so the first command byte is read as a length.
    if tokens.len() > 0 {
        if let Token::Literals { start, len } = tokens[0] {
            assert(all[0] == tokens@[0]@);
            emit_leading_literals(&mut out, &input[start..start + len]);
            index = 1;
            proof {
                pos = len as int;
                assert(all.skip(1) =~= all.drop_first());
            }
        }
    }
    assert(index == 0 ==> all.skip(0) =~= all);
    assert(out@ + encode_rest(input@, all.skip(index as int)) =~= whole);

    while index < tokens.len()
        invariant
            index <= tokens@.len(),
            all == matcher::pieces(tokens@),
            index < tokens@.len() ==> tokens@[index as int] is Match,
            matcher::covers(input@, all.skip(index as int), pos),
            0 <= pos <= input@.len(),
            out@ + encode_rest(input@, all.skip(index as int)) == whole,
        decreases tokens@.len() - index,
    {
        let ghost here = all.skip(index as int);
        let ghost before = out@;
        proof {
            reveal_with_fuel(matcher::covers, 3);
            reveal_with_fuel(encode_rest, 3);
        }
        assert(here[0] == tokens@[index as int]@);
        assert(here.drop_first() =~= all.skip(index + 1));
        if let Token::Match { len, dist } = tokens[index] {
            // How many literals follow decides how this match is encoded.
            let (lit_start, lit_len): (usize, usize) = if index + 1 < tokens.len() {
                match tokens[index + 1] {
                    Token::Literals { start, len } => (start, len),
                    Token::Match { .. } => (0, 0),
                }
            } else {
                (0, 0)
            };
            let inline: usize = if lit_len <= MAX_INLINE_LITERALS {
                lit_len
            } else {
                0
            };
            assert(index + 1 < tokens@.len() ==> here.drop_first()[0] == tokens@[index + 1]@);
            emit_match(&mut out, len, dist, inline);
            proof {
                pos = pos + len;
            }
            if lit_len > 0 {
                let ghost behind = here.drop_first();
                assert(behind.drop_first() =~= all.skip(index + 2));
                assert(index + 2 < tokens@.len() ==> behind.drop_first()[0] == tokens@[index + 2]@);
                assert(lit_start + lit_len <= input.len());
                let literals: &[u8] = &input[lit_start..lit_start + lit_len];
                if inline > 0 {
                    append(&mut out, literals);
                } else {
                    emit_literal_run(&mut out, literals);
                }
                proof {
                    pos = pos + lit_len;
                }
                index += 2;
            } else {
                index += 1;
            }
            assert(out@ + encode_rest(input@, all.skip(index as int)) =~= before + encode_rest(
                input@,
                here,
            ));
        }
    }
    assert(all.skip(index as int).len() == 0);
    emit_end_of_stream(&mut out);
    out
}

/// Append bytes as they are.
fn append(out: &mut Vec<u8>, bytes: &[u8])
    ensures
        final(out)@ == old(out)@ + bytes@,
{
    out.extend_from_slice(bytes);
    assert(out@ =~= old(out)@ + bytes@);
}

/// The stream's opening literal run.
fn emit_leading_literals(out: &mut Vec<u8>, literals: &[u8])
    ensures
        final(out)@ == old(out)@ + leading_bytes(literals@),
{
    if literals.len() == 0 {
        return;
    }
    if literals.len() <= MAX_BOOTSTRAP_LITERALS {
        out.push((literals.len() + 17) as u8);
        append(out, literals);
        assert(out@ =~= old(out)@ + leading_bytes(literals@));
    } else {
        // Too long for the first byte to carry. A first byte below 18 leaves
        // the decoder in state 0, where the ordinary long form applies.
        emit_literal_run(out, literals);
    }
}

/// A literal run in the state 0 encoding.
///
/// Only for runs of 4 or more. Shorter runs have no encoding here at all: they
/// ride in the operand of the match before them.
fn emit_literal_run(out: &mut Vec<u8>, literals: &[u8])
    requires
        literals@.len() >= 4,
    ensures
        final(out)@ == old(out)@ + run_bytes(literals@),
{
    emit_command(out, 0, literals.len() - 3, 15);
    append(out, literals);
    assert(out@ =~= old(out)@ + run_bytes(literals@));
}

/// A command byte with a length field, and the extension that it may need.
fn emit_command(out: &mut Vec<u8>, command: u8, value: usize, mask: u8)
    requires
        command + mask <= 255,
        value >= 1,
    ensures
        final(out)@ == old(out)@ + command_bytes(command as int, value as int, mask as int),
{
    if value <= mask as usize {
        out.push(command + value as u8);
    } else {
        out.push(command);
        emit_length_extension(out, value - mask as usize);
    }
    assert(out@ =~= old(out)@ + command_bytes(command as int, value as int, mask as int));
}

/// The zero-run length extension: `remainder` as some number of `0x00` bytes
/// worth 255 each, then one non-zero byte.
///
/// `remainder` is what is left after the command byte's own contribution, and
/// must be at least 1: the last byte cannot be zero, because zero is what
/// marks a continuation.
fn emit_length_extension(out: &mut Vec<u8>, remainder: usize)
    requires
        remainder >= 1,
    ensures
        final(out)@ == old(out)@ + extension_bytes(remainder as int),
{
    let mut left = remainder;
    assert(out@ + extension_bytes(left as int) =~= old(out)@ + extension_bytes(remainder as int));
    while left > ZERO_RUN_INCREMENT
        invariant
            1 <= left <= remainder,
            out@ + extension_bytes(left as int) == old(out)@ + extension_bytes(remainder as int),
        decreases left,
    {
        let ghost before = out@;
        out.push(0);
        left -= ZERO_RUN_INCREMENT;
        assert(out@ + extension_bytes(left as int) =~= before + extension_bytes(
            left + ZERO_RUN_INCREMENT,
        ));
    }
    let ghost before = out@;
    out.push(left as u8);
    assert(out@ =~= before + extension_bytes(left as int));
}

/// A back-reference, with `inline` trailing literals promised to follow.
fn emit_match(out: &mut Vec<u8>, len: usize, dist: usize, inline: usize)
    requires
        MIN_MATCH <= len <= MAX_MATCH,
        1 <= dist <= MAX_DISTANCE,
        inline <= MAX_INLINE_LITERALS,
    ensures
        final(out)@ == old(out)@ + match_bytes(len as int, dist as int, inline as int),
{
    if dist <= MAX_BUCKET_C_DISTANCE {
        // 0 0 1 L L L L L, then a 14-bit distance in the operand.
        emit_command(out, 0x20, len - 2, 31);
        push_operand(out, dist - 1, inline);
    } else {
        // 0 0 0 1 H L L L. H is the 15th distance bit, lifted into the command
        // byte.
        let offset = dist - LONG_MATCH_DISTANCE_BASE;
        let high_bit: usize = offset / 0x4000;
        emit_command(out, 0x10 + 8 * high_bit as u8, len - 2, 7);
        push_operand(out, offset % 0x4000, inline);
    }
    assert(out@ =~= old(out)@ + match_bytes(len as int, dist as int, inline as int));
}

/// The little-endian 16-bit operand shared by both match buckets.
fn push_operand(out: &mut Vec<u8>, distance_bits: usize, inline: usize)
    requires
        distance_bits <= 0x3FFF,
        inline <= MAX_INLINE_LITERALS,
    ensures
        final(out)@ == old(out)@ + operand_bytes(distance_bits as int, inline as int),
{
    let operand = distance_bits * 4 + inline;
    out.push((operand % 256) as u8);
    out.push((operand / 256) as u8);
    assert(out@ =~= old(out)@ + operand_bytes(distance_bits as int, inline as int));
}

/// The end-of-stream marker: a bucket D token that adds no distance to the
/// base. `0x11` is the spelling that every encoder uses.
fn emit_end_of_stream(out: &mut Vec<u8>)
    ensures
        final(out)@ == old(out)@ + end_marker(),
{
    out.push(0x11);
    out.push(0);
    out.push(0);
    assert(out@ =~= old(out)@ + end_marker());
}

} // verus!
