//! The LZO1X decoder.
//!
//! It is bounds-checked at every step and returns [`Error::Malformed`] on any
//! malformed token rather than panicking, so it is safe to run on untrusted
//! input.

use vstd::prelude::*;

use crate::error::{Error, Result};
use crate::grammar;
use crate::grammar::{
    Instruction, LONG_LITERAL_RUN_STATE, LONG_MATCH_DISTANCE_BASE, MAX_EXTENDED_LENGTH,
    POST_LITERAL_MATCH_DISTANCE_BASE, ZERO_RUN_INCREMENT,
};

verus! {

/// Most bytes reserved for the output before a byte of the input has been
/// looked at, so that a bogus bound alone cannot drive a large allocation.
const INITIAL_CAPACITY_CAP: usize = 0x10_0000;

/// What [`decompress`] returns: the output of the stream, if there is one and
/// it is no longer than `max_out`.
pub open spec fn decompressed(stream: Seq<u8>, max_out: int) -> Result<Seq<u8>> {
    match grammar::decode(stream) {
        Some(decoded) => if decoded.output.len() <= max_out {
            Ok(decoded.output)
        } else {
            Err(Error::Malformed)
        },
        None => Err(Error::Malformed),
    }
}

/// Decompress an LZO1X stream.
///
/// `input` is the raw compressed block. `max_out` is an **upper bound** on
/// the decompressed length: the block size for SquashFS, the uncompressed
/// length of the extent for Btrfs. The true output length is determined by
/// the stream's own end-of-stream marker, not by `max_out`; the bound exists
/// so that a corrupt stream cannot drive an unbounded allocation. Bytes
/// behind the marker are not looked at.
///
/// # Errors
///
/// Returns [`Error::Malformed`] if the stream is truncated, contains an
/// invalid token, back-references before the start of the output, or would
/// decode to more than `max_out` bytes.
pub fn decompress(input: &[u8], max_out: usize) -> (result: Result<Vec<u8>>)
    ensures
        result matches Ok(bytes) ==> {
            &&& decompressed(input@, max_out as int) matches Ok(expected)
            &&& bytes@ == expected
        },
        result matches Err(error) ==> {
            &&& decompressed(input@, max_out as int) matches Err(expected)
            &&& error == expected
        },
{
    let capacity: usize = if max_out < INITIAL_CAPACITY_CAP {
        max_out
    } else {
        INITIAL_CAPACITY_CAP
    };
    let mut decoder = Decoder { input, ip: 0, out: Vec::with_capacity(capacity), max_out };
    assert(decoder.out@ =~= Seq::empty());
    match decoder.run() {
        Ok(()) => Ok(decoder.out),
        Err(error) => Err(error),
    }
}

/// An instruction read from the stream.
enum Step {
    Literals { len: usize },
    Match { len: usize, dist: usize, trailing: usize },
    End,
}

impl View for Step {
    type V = Instruction;

    closed spec fn view(&self) -> Instruction {
        match *self {
            Step::Literals { len } => Instruction::Literals { len: len as int },
            Step::Match { len, dist, trailing } => Instruction::Match {
                len: len as int,
                dist: dist as int,
                trailing: trailing as int,
            },
            Step::End => Instruction::End,
        }
    }
}

struct Decoder<'a> {
    input: &'a [u8],
    ip: usize,
    out: Vec<u8>,
    max_out: usize,
}

impl<'a> Decoder<'a> {
    /// The cursor is within the input and the output within its bound.
    spec fn wf(self) -> bool {
        &&& self.ip <= self.input@.len()
        &&& self.out@.len() <= self.max_out
    }

    /// What reading may change: the cursor moves forward from where it stood
    /// in `before`.
    spec fn read_from(self, before: Self) -> bool {
        &&& self.input == before.input
        &&& before.ip <= self.ip
        &&& self.out == before.out
        &&& self.max_out == before.max_out
    }

    /// What decoding may change: the cursor moves forward from where it stood
    /// in `before`, and the output grows at its end.
    spec fn decoded_from(self, before: Self) -> bool {
        &&& self.input == before.input
        &&& before.ip <= self.ip
        &&& grammar::begins_with(self.out@, before.out@)
        &&& self.max_out == before.max_out
    }

    fn next(&mut self) -> (result: Result<u8>)
        requires
            old(self).wf(),
        ensures
            final(self).wf(),
            final(self).read_from(*old(self)),
            result is Ok <==> old(self).ip < old(self).input@.len(),
            result matches Ok(b) ==> {
                &&& b == old(self).input@[old(self).ip as int]
                &&& final(self).ip == old(self).ip + 1
            },
            result is Err ==> final(self).ip == old(self).ip,
    {
        if self.ip < self.input.len() {
            let b: u8 = self.input[self.ip];
            self.ip += 1;
            Ok(b)
        } else {
            Err(Error::Malformed)
        }
    }

    /// Read a little-endian 16-bit operand. Its low 2 bits are the number of
    /// trailing literals, the upper 14 bits contribute to the distance.
    fn next_le16(&mut self) -> (result: Result<u16>)
        requires
            old(self).wf(),
        ensures
            final(self).wf(),
            final(self).read_from(*old(self)),
            result is Ok <==> old(self).ip + 2 <= old(self).input@.len(),
            result matches Ok(operand) ==> {
                &&& operand == old(self).input@[old(self).ip as int] + 256 * old(
                    self,
                ).input@[old(self).ip + 1]
                &&& final(self).ip == old(self).ip + 2
            },
    {
        let lo = self.next()? as u16;
        let hi = self.next()? as u16;
        assert(lo < 256 && hi < 256 ==> lo | (hi << 8) == lo + 256 * hi) by (bit_vector);
        Ok(lo | (hi << 8))
    }

    /// Zero-run length extension: consume a run of `0x00` bytes (each worth
    /// 255) followed by one non-zero byte worth its own value. `base` is the
    /// length already accounted for by the command byte. A length above
    /// [`MAX_EXTENDED_LENGTH`] is refused, and so a corrupt all-zeros stream is
    /// rejected early.
    fn extend_length(&mut self, base: usize) -> (result: Result<usize>)
        requires
            old(self).wf(),
            base <= MAX_EXTENDED_LENGTH,
        ensures
            final(self).wf(),
            final(self).read_from(*old(self)),
            result matches Ok(len) ==> {
                &&& grammar::extended_length(
                    old(self).input@,
                    old(self).ip as int,
                    base as int,
                    grammar::decoder_limit(),
                ) == Some((len as int, final(self).ip as int))
                &&& len <= MAX_EXTENDED_LENGTH
            },
            result is Err ==> grammar::extended_length(
                old(self).input@,
                old(self).ip as int,
                base as int,
                grammar::decoder_limit(),
            ) is None,
    {
        let mut len = base;
        loop
            invariant
                self.wf(),
                self.read_from(*old(self)),
                len <= MAX_EXTENDED_LENGTH,
                grammar::extended_length(
                    old(self).input@,
                    old(self).ip as int,
                    base as int,
                    grammar::decoder_limit(),
                ) == grammar::extended_length(
                    self.input@,
                    self.ip as int,
                    len as int,
                    grammar::decoder_limit(),
                ),
            decreases self.input@.len() - self.ip,
        {
            let b = self.next()?;
            if b != 0 {
                len += b as usize;
                if len > MAX_EXTENDED_LENGTH {
                    return Err(Error::Malformed);
                }
                return Ok(len);
            }
            len += ZERO_RUN_INCREMENT;
            if len > MAX_EXTENDED_LENGTH {
                return Err(Error::Malformed);
            }
        }
    }

    /// The length held by a length field whose widest value is `mask`; a
    /// field of zero continues as an extension.
    fn field_length(&mut self, field: usize, mask: usize) -> (result: Result<usize>)
        requires
            old(self).wf(),
            field <= mask <= 31,
        ensures
            final(self).wf(),
            final(self).read_from(*old(self)),
            result matches Ok(len) ==> {
                &&& grammar::field_length(
                    old(self).input@,
                    old(self).ip as int,
                    field as int,
                    mask as int,
                    grammar::decoder_limit(),
                ) == Some((len as int, final(self).ip as int))
                &&& len <= MAX_EXTENDED_LENGTH
            },
            result is Err ==> grammar::field_length(
                old(self).input@,
                old(self).ip as int,
                field as int,
                mask as int,
                grammar::decoder_limit(),
            ) is None,
    {
        if field == 0 {
            self.extend_length(mask)
        } else {
            Ok(field)
        }
    }

    /// Copy a back-reference of `len` bytes from `dist` bytes behind the
    /// current end of output. Overlapping copies are byte-at-a-time, so
    /// `dist < len` is legal and is how the format encodes byte runs.
    fn copy_match(&mut self, dist: usize, len: usize) -> (result: Result<()>)
        requires
            old(self).wf(),
        ensures
            final(self).wf(),
            result is Ok <==> 1 <= dist <= old(self).out@.len() && old(self).out@.len() + len
                <= old(self).max_out,
            result is Ok ==> {
                &&& final(self).input == old(self).input
                &&& final(self).ip == old(self).ip
                &&& final(self).max_out == old(self).max_out
                &&& final(self).out@ == grammar::copy_back(
                    old(self).out@,
                    dist as int,
                    len as int,
                )
            },
            result is Err ==> *final(self) == *old(self),
    {
        if dist == 0 || dist > self.out.len() {
            return Err(Error::Malformed);
        }
        if len > self.max_out - self.out.len() {
            return Err(Error::Malformed);
        }
        let mut copied: usize = 0;
        while copied < len
            invariant
                copied <= len,
                1 <= dist <= old(self).out@.len(),
                old(self).out@.len() + len <= self.max_out,
                self.out@.len() == old(self).out@.len() + copied,
                self.out@ == grammar::copy_back(old(self).out@, dist as int, copied as int),
                self.input == old(self).input,
                self.ip == old(self).ip,
                self.max_out == old(self).max_out,
            decreases len - copied,
        {
            let b: u8 = self.out[self.out.len() - dist];
            self.out.push(b);
            copied += 1;
        }
        Ok(())
    }

    /// Copy `n` literal bytes straight from the input to the output.
    fn copy_literals(&mut self, n: usize) -> (result: Result<()>)
        requires
            old(self).wf(),
        ensures
            final(self).wf(),
            result is Ok <==> old(self).out@.len() + n <= old(self).max_out && old(self).ip + n
                <= old(self).input@.len(),
            result is Ok ==> {
                &&& final(self).input == old(self).input
                &&& final(self).ip == old(self).ip + n
                &&& final(self).max_out == old(self).max_out
                &&& final(self).out@ == old(self).out@ + old(self).input@.subrange(
                    old(self).ip as int,
                    old(self).ip + n,
                )
            },
            result is Err ==> *final(self) == *old(self),
    {
        if n > self.max_out - self.out.len() {
            return Err(Error::Malformed);
        }
        if n > self.input.len() - self.ip {
            return Err(Error::Malformed);
        }
        let end = self.ip + n;
        self.out.extend_from_slice(&self.input[self.ip..end]);
        proof {
            assert(self.out@ =~= old(self).out@ + old(self).input@.subrange(
                old(self).ip as int,
                old(self).ip + n,
            ));
        }
        self.ip = end;
        Ok(())
    }

    /// Read the next instruction: a command byte and its operands.
    fn read_instruction(&mut self, state: usize) -> (result: Result<Step>)
        requires
            old(self).wf(),
        ensures
            final(self).wf(),
            final(self).read_from(*old(self)),
            result matches Ok(step) ==> grammar::instruction(
                old(self).input@,
                old(self).ip as int,
                state as int,
                grammar::decoder_limit(),
            ) == Some((step@, final(self).ip as int)),
            result is Err ==> grammar::instruction(
                old(self).input@,
                old(self).ip as int,
                state as int,
                grammar::decoder_limit(),
            ) is None,
    {
        let t = self.next()?;
        proof {
            lemma_command_fields(t);
        }
        let trailing = (t & 3) as usize;
        if t >= 64 {
            // 1 L L D D D S S or 0 1 L D D D S S: a short distance.
            let extra = self.next()?;
            let len: usize = if t >= 128 {
                5 + ((t >> 5) & 3) as usize
            } else {
                3 + ((t >> 5) & 1) as usize
            };
            let dist = extra as usize * 8 + ((t >> 2) & 7) as usize + 1;
            Ok(Step::Match { len, dist, trailing })
        } else if t >= 32 {
            // 0 0 1 L L L L L: distance 1..=16384.
            let len = self.field_length((t & 31) as usize, 31)? + 2;
            let (reach, trailing) = split_operand(self.next_le16()?);
            Ok(Step::Match { len, dist: reach + 1, trailing })
        } else if t >= 16 {
            // 0 0 0 1 H L L L: distance 16385..=49151, or the end marker.
            let dist_high_bit = ((t >> 3) & 1) as usize;
            let len = self.field_length((t & 7) as usize, 7)? + 2;
            let (reach, trailing) = split_operand(self.next_le16()?);
            if reach == 0 && dist_high_bit == 0 {
                return Ok(Step::End);
            }
            let dist = LONG_MATCH_DISTANCE_BASE + dist_high_bit * LONG_MATCH_DISTANCE_BASE + reach;
            Ok(Step::Match { len, dist, trailing })
        } else if state == 0 {
            let len = self.field_length(t as usize, 15)? + 3;
            Ok(Step::Literals { len })
        } else {
            // 0 0 0 0 D D S S: a short match whose shape depends on the state.
            let extra = self.next()?;
            let reach = extra as usize * 4 + ((t >> 2) & 3) as usize;
            if state == LONG_LITERAL_RUN_STATE {
                Ok(
                    Step::Match {
                        len: 3,
                        dist: reach + POST_LITERAL_MATCH_DISTANCE_BASE,
                        trailing,
                    },
                )
            } else {
                Ok(Step::Match { len: 2, dist: reach + 1, trailing })
            }
        }
    }

    /// Decode the stream that opens at the cursor, up to its end marker.
    fn run(&mut self) -> (result: Result<()>)
        requires
            old(self).wf(),
        ensures
            final(self).wf(),
            final(self).decoded_from(*old(self)),
            result is Ok ==> {
                &&& grammar::decode_at(
                    old(self).input@,
                    old(self).ip as int,
                    old(self).out@,
                    grammar::decoder_limit(),
                ) matches Some(decoded)
                &&& final(self).out@ == decoded.output
                &&& final(self).ip == decoded.consumed
                &&& old(self).ip + 3 <= final(self).ip
                &&& final(self).input@[final(self).ip - 2] < 4
                &&& final(self).input@[final(self).ip - 1] == 0
            },
            result is Err ==> {
                grammar::decode_at(
                    old(self).input@,
                    old(self).ip as int,
                    old(self).out@,
                    grammar::decoder_limit(),
                ) matches Some(decoded) ==> decoded.output.len() > old(self).max_out
            },
    {
        if self.ip >= self.input.len() {
            return Err(Error::Malformed);
        }
        let ghost stream = self.input@;
        let ghost limit = grammar::decoder_limit();
        let ghost whole = grammar::decode_at(stream, self.ip as int, self.out@, limit);
        let first: u8 = self.input[self.ip];
        let mut state: usize = 0;
        if first >= 18 {
            // The first command byte is itself the length of a literal run.
            self.ip += 1;
            let n = (first - 17) as usize;
            proof {
                let next = self.ip as int;
                grammar::lemma_output_grows(
                    stream,
                    next + n,
                    grammar::leading_state(n as int),
                    self.out@ + stream.subrange(next, next + n),
                    limit,
                );
            }
            self.copy_literals(n)?;
            state = if n < LONG_LITERAL_RUN_STATE {
                n
            } else {
                LONG_LITERAL_RUN_STATE
            };
        }
        loop
            invariant
                self.wf(),
                self.decoded_from(*old(self)),
                self.input@ == stream,
                limit == grammar::decoder_limit(),
                whole == grammar::decode_at(
                    old(self).input@,
                    old(self).ip as int,
                    old(self).out@,
                    limit,
                ),
                whole == grammar::decode_from(
                    stream,
                    self.ip as int,
                    state as int,
                    self.out@,
                    limit,
                ),
            decreases self.input@.len() - self.ip,
        {
            let ghost at = self.ip as int;
            proof {
                grammar::lemma_instruction_advances(stream, at, state as int, limit);
            }
            match self.read_instruction(state)? {
                Step::End => {
                    return Ok(());
                },
                Step::Literals { len } => {
                    proof {
                        let next = self.ip as int;
                        grammar::lemma_output_grows(
                            stream,
                            next + len,
                            LONG_LITERAL_RUN_STATE as int,
                            self.out@ + stream.subrange(next, next + len),
                            limit,
                        );
                    }
                    self.copy_literals(len)?;
                    state = LONG_LITERAL_RUN_STATE;
                },
                Step::Match { len, dist, trailing } => {
                    proof {
                        let next = self.ip as int;
                        let copied = grammar::copy_back(self.out@, dist as int, len as int);
                        grammar::lemma_copy_back(self.out@, dist as int, len as int);
                        grammar::lemma_output_grows(
                            stream,
                            next + trailing,
                            trailing as int,
                            copied + stream.subrange(next, next + trailing),
                            limit,
                        );
                    }
                    self.copy_match(dist, len)?;
                    self.copy_literals(trailing)?;
                    state = trailing;
                },
            }
        }
    }
}

/// Split a match operand into its distance bits and its count of trailing
/// literals.
fn split_operand(operand: u16) -> (parts: (usize, usize))
    ensures
        parts.0 == operand / 4,
        parts.1 == operand % 4,
{
    assert(operand >> 2 == operand / 4 && operand & 3 == operand % 4) by (bit_vector);
    ((operand >> 2) as usize, (operand & 3) as usize)
}

/// The bit fields of a command byte, as quotients and remainders.
proof fn lemma_command_fields(t: u8)
    ensures
        t & 3 == t % 4,
        t & 7 == t % 8,
        t & 31 == t % 32,
        (t >> 2) & 3 == t / 4 % 4,
        (t >> 2) & 7 == t / 4 % 8,
        (t >> 3) & 1 == t / 8 % 2,
        (t >> 5) & 1 == t / 32 % 2,
        (t >> 5) & 3 == t / 32 % 4,
{
    assert({
        &&& t & 3 == t % 4
        &&& t & 7 == t % 8
        &&& t & 31 == t % 32
        &&& (t >> 2) & 3 == t / 4 % 4
        &&& (t >> 2) & 7 == t / 4 % 8
        &&& (t >> 3) & 1 == t / 8 % 2
        &&& (t >> 5) & 1 == t / 32 % 2
        &&& (t >> 5) & 3 == t / 32 % 4
    }) by (bit_vector);
}

} // verus!
