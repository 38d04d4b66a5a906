//! The match finder: turns an input into literal runs and back-references.

use vstd::prelude::*;

use crate::grammar::LONG_MATCH_DISTANCE_BASE;

verus! {

/// Shortest run found as a match rather than left as literals. Below it a
/// match token costs more bytes than the literals that it replaces.
pub const MIN_MATCH: usize = 3;

/// Longest match. Not a format limit: staying well under the longest extended
/// length that the decoder takes keeps the length of every match inside what
/// it reads back.
pub const MAX_MATCH: usize = 0x1_0000;

/// Largest back-reference distance that the grammar can express.
pub const MAX_DISTANCE: usize = LONG_MATCH_DISTANCE_BASE + 0x4000 + 0x3FFF;

/// Number of trailing bytes always left as literals. A decoder that copies in
/// machine words wants that much slack behind the last match.
pub const MIN_TRAILING_LITERALS: usize = 3;

/// Number of slots of the hash table. Affects how many matches are found,
/// never whether the output is valid.
pub const HASH_SIZE: usize = 0x2000;

/// Multiplier of the trigram hash.
pub const HASH_MULTIPLIER: u32 = 0x1E35_A7BD;

/// A piece of an input: what one token of a stream stands for.
pub enum Piece {
    /// `len` bytes that also stand `dist` bytes earlier.
    Match {
        /// How many bytes.
        len: int,
        /// How far back they stand.
        dist: int,
    },
    /// A literal run, given as a range of the input.
    Literals {
        /// Where it starts.
        start: int,
        /// How many bytes.
        len: int,
    },
}

/// One piece of an input, as found by [`parse`].
///
/// The whole sequence is built before any of it is encoded: a match token
/// carries the length of the literal run that *follows* it, so a match cannot
/// be written until it is known what comes after.
pub enum Token {
    /// A back-reference.
    Match {
        /// How many bytes it covers.
        len: usize,
        /// How far back they stand.
        dist: usize,
    },
    /// A literal run, given as a range of the input.
    Literals {
        /// Where it starts.
        start: usize,
        /// How many bytes it covers.
        len: usize,
    },
}

impl View for Token {
    type V = Piece;

    open spec fn view(&self) -> Piece {
        match *self {
            Token::Match { len, dist } => Piece::Match { len: len as int, dist: dist as int },
            Token::Literals { start, len } => Piece::Literals {
                start: start as int,
                len: len as int,
            },
        }
    }
}

/// The pieces that a sequence of tokens stands for.
pub open spec fn pieces(tokens: Seq<Token>) -> Seq<Piece> {
    Seq::new(tokens.len(), |i: int| tokens[i]@)
}

/// The hash table slot of the three bytes at `pos`.
pub open spec fn trigram_slot(input: Seq<u8>, pos: int) -> int {
    let key = input[pos] * 0x1_0000 + input[pos + 1] * 0x100 + input[pos + 2];
    key * HASH_MULTIPLIER % 0x1_0000_0000 / 0x8_0000
}

/// The last position before `pos` whose three bytes fall into `slot`.
pub open spec fn last_in_slot(input: Seq<u8>, slot: int, pos: int) -> Option<int>
    decreases pos,
{
    if pos <= 0 {
        None
    } else if trigram_slot(input, pos - 1) == slot {
        Some(pos - 1)
    } else {
        last_in_slot(input, slot, pos - 1)
    }
}

/// The three bytes at `a` are those at `b`.
pub open spec fn same_trigram(input: Seq<u8>, a: int, b: int) -> bool {
    &&& input[a] == input[b]
    &&& input[a + 1] == input[b + 1]
    &&& input[a + 2] == input[b + 2]
}

/// The earlier position that a match at `pos` goes back to, if there is a
/// match: the last one in the slot of `pos`, where it can be recorded in 32
/// bits, is near enough, and holds the same three bytes.
pub open spec fn match_source(input: Seq<u8>, pos: int) -> Option<int> {
    match last_in_slot(input, trigram_slot(input, pos), pos) {
        Some(source) => if source < u32::MAX && pos - source <= MAX_DISTANCE && same_trigram(
            input,
            source,
            pos,
        ) {
            Some(source)
        } else {
            None
        },
        None => None,
    }
}

/// How many bytes at `a` and at `b` agree, counting no more than `limit`.
pub open spec fn agreement(input: Seq<u8>, a: int, b: int, limit: int) -> int
    decreases limit,
{
    if limit <= 0 || input[a] != input[b] {
        0
    } else {
        1 + agreement(input, a + 1, b + 1, limit - 1)
    }
}

/// Where the trailing bytes that stay literal begin.
pub open spec fn search_end(input: Seq<u8>) -> int {
    if input.len() < MIN_TRAILING_LITERALS {
        0
    } else {
        input.len() - MIN_TRAILING_LITERALS
    }
}

/// Longest match that may start at `pos`.
pub open spec fn match_limit(input: Seq<u8>, pos: int) -> int {
    if search_end(input) - pos < MAX_MATCH {
        search_end(input) - pos
    } else {
        MAX_MATCH as int
    }
}

/// The literal run from `start` up to `end`, if it is not empty.
pub open spec fn literal_piece(start: int, end: int) -> Seq<Piece> {
    if start < end {
        seq![Piece::Literals { start, len: end - start }]
    } else {
        Seq::empty()
    }
}

/// The pieces found from `pos` on, where the bytes since `literal_start` are
/// not in any piece yet: a match is taken, as long as it goes, at the first
/// position that has one.
pub open spec fn pieces_from(input: Seq<u8>, pos: int, literal_start: int) -> Seq<Piece>
    decreases search_end(input) - pos,
{
    if pos + MIN_MATCH > search_end(input) {
        literal_piece(literal_start, input.len() as int)
    } else {
        match match_source(input, pos) {
            None => pieces_from(input, pos + 1, literal_start),
            Some(source) => {
                let len = agreement(input, source, pos, match_limit(input, pos));
                proof {
                    lemma_match_is_long_enough(input, source, pos, match_limit(input, pos));
                }
                literal_piece(literal_start, pos) + seq![
                    Piece::Match { len, dist: pos - source },
                ] + pieces_from(input, pos + len, pos + len)
            },
        }
    }
}

/// The pieces that an input is cut into.
pub open spec fn plan(input: Seq<u8>) -> Seq<Piece> {
    pieces_from(input, 0, 0)
}

/// A match found through its first three bytes covers at least those.
pub proof fn lemma_match_is_long_enough(input: Seq<u8>, source: int, pos: int, limit: int)
    ensures
        limit >= MIN_MATCH && same_trigram(input, source, pos) ==> agreement(
            input,
            source,
            pos,
            limit,
        ) >= MIN_MATCH,
        0 <= agreement(input, source, pos, limit),
        limit >= 0 ==> agreement(input, source, pos, limit) <= limit,
{
    lemma_agreement(input, source, pos, limit);
    reveal_with_fuel(agreement, 4);
    if limit >= 3 {
        lemma_agreement(input, source + 3, pos + 3, limit - 3);
    }
}

/// The bytes counted by [`agreement`] agree, and there are no more than the
/// limit.
pub proof fn lemma_agreement(input: Seq<u8>, a: int, b: int, limit: int)
    ensures
        0 <= agreement(input, a, b, limit),
        limit >= 0 ==> agreement(input, a, b, limit) <= limit,
        forall|i: int|
            0 <= i < agreement(input, a, b, limit) ==> #[trigger] input[b + i] == input[a + i],
    decreases limit,
{
    if limit > 0 && input[a] == input[b] {
        lemma_agreement(input, a + 1, b + 1, limit - 1);
        assert forall|i: int| 0 <= i < agreement(input, a, b, limit) implies #[trigger] input[b
            + i] == input[a + i] by {
            if i > 0 {
                assert(input[b + 1 + (i - 1)] == input[a + 1 + (i - 1)]);
            }
        }
    }
}

/// A slot that is found is one of an earlier position.
pub proof fn lemma_last_in_slot(input: Seq<u8>, slot: int, pos: int)
    ensures
        last_in_slot(input, slot, pos) matches Some(p) ==> 0 <= p < pos && trigram_slot(input, p)
            == slot,
    decreases pos,
{
    if pos > 0 {
        lemma_last_in_slot(input, slot, pos - 1);
    }
}

/// What a hash table slot holds: the position found there plus one, in 32
/// bits, so that zero means that there is none.
spec fn slot_entry(found: Option<int>) -> int {
    match found {
        None => 0,
        Some(p) => (p + 1) % 0x1_0000_0000,
    }
}

/// `table` holds the last position before `pos` of every slot.
spec fn table_upto(table: Seq<u32>, input: Seq<u8>, pos: int) -> bool {
    &&& table.len() == HASH_SIZE
    &&& forall|slot: int|
        0 <= slot < HASH_SIZE ==> #[trigger] table[slot] == slot_entry(
            last_in_slot(input, slot, pos),
        )
}

/// Multiplicative hash of the three bytes at `pos`.
fn hash3(input: &[u8], pos: usize) -> (slot: usize)
    requires
        pos + 3 <= input@.len(),
    ensures
        slot == trigram_slot(input@, pos as int),
        slot < HASH_SIZE,
{
    let b0 = input[pos] as u32;
    let b1 = input[pos + 1] as u32;
    let b2 = input[pos + 2] as u32;
    assert(b0 < 256 && b1 < 256 && b2 < 256 ==> (b0 << 16) | (b1 << 8) | b2 == b0 * 0x1_0000 + b1
        * 0x100 + b2) by (bit_vector);
    let key: u32 = (b0 << 16) | (b1 << 8) | b2;
    let product = key.wrapping_mul(HASH_MULTIPLIER);
    assert(product >> 19 == product / 0x8_0000 && product >> 19 < 0x2000) by (bit_vector);
    (product >> 19) as usize
}

/// Record `pos` as the last position of its slot.
fn record(table: &mut Vec<u32>, slot: usize, pos: usize, Ghost(input): Ghost<Seq<u8>>)
    requires
        table_upto(old(table)@, input, pos as int),
        slot == trigram_slot(input, pos as int),
        slot < HASH_SIZE,
        pos < usize::MAX,
    ensures
        table_upto(final(table)@, input, pos + 1),
{
    let entry = (pos + 1) as u64;
    assert(entry as u32 == entry % 0x1_0000_0000) by (bit_vector);
    table[slot] = #[verifier::truncate] (entry as u32);
}

/// The position that a match at `pos` goes back to, given the table entry of
/// its slot.
fn usable_source(input: &[u8], entry: u32, pos: usize) -> (source: Option<usize>)
    requires
        pos + 3 <= input@.len(),
        entry == slot_entry(last_in_slot(input@, trigram_slot(input@, pos as int), pos as int)),
    ensures
        source matches Some(p) ==> match_source(input@, pos as int) == Some(p as int),
        source is None ==> match_source(input@, pos as int) is None,
{
    proof {
        lemma_last_in_slot(input@, trigram_slot(input@, pos as int), pos as int);
    }
    if entry == 0 {
        return None;
    }
    let source = (entry - 1) as usize;
    if pos - source > MAX_DISTANCE {
        return None;
    }
    if input[source] == input[pos] && input[source + 1] == input[pos + 1] && input[source + 2]
        == input[pos + 2] {
        Some(source)
    } else {
        None
    }
}

/// How far the bytes at `candidate` and `pos` agree, bounded so that the match
/// neither runs into the reserved trailing literals nor exceeds what one
/// length field should carry.
fn match_length(input: &[u8], candidate: usize, pos: usize, search_end: usize) -> (len: usize)
    requires
        candidate < pos <= search_end <= input@.len(),
    ensures
        len == agreement(
            input@,
            candidate as int,
            pos as int,
            if search_end - pos < MAX_MATCH {
                search_end - pos
            } else {
                MAX_MATCH as int
            },
        ),
{
    let limit: usize = if search_end - pos < MAX_MATCH {
        search_end - pos
    } else {
        MAX_MATCH
    };
    let mut len: usize = 0;
    while len < limit && input[candidate + len] == input[pos + len]
        invariant
            len <= limit,
            limit <= search_end - pos,
            candidate < pos <= search_end <= input@.len(),
            agreement(input@, candidate as int, pos as int, limit as int) == len + agreement(
                input@,
                candidate + len,
                pos + len,
                limit - len,
            ),
        decreases limit - len,
    {
        len += 1;
    }
    len
}

/// Walk the input, turning it into literal runs and matches.
pub(crate) fn parse(input: &[u8]) -> (tokens: Vec<Token>)
    ensures
        pieces(tokens@) == plan(input@),
{
    let mut tokens: Vec<Token> = Vec::new();
    let mut table: Vec<u32> = vec![0u32; HASH_SIZE];

    // Everything from here on stays literal: no match may start at or after
    // it, and none may extend into it.
    let end = input.len().saturating_sub(MIN_TRAILING_LITERALS);

    let mut pos: usize = 0;
    let mut literal_start: usize = 0;
    assert(pieces(tokens@) + plan(input@) =~= plan(input@));
    while end - pos >= MIN_MATCH
        invariant
            literal_start <= pos <= end <= input@.len(),
            end == search_end(input@),
            table_upto(table@, input@, pos as int),
            pieces(tokens@) + pieces_from(input@, pos as int, literal_start as int) == plan(
                input@,
            ),
        decreases end - pos,
    {
        let slot = hash3(input, pos);
        let entry: u32 = table[slot];
        record(&mut table, slot, pos, Ghost(input@));
        match usable_source(input, entry, pos) {
            None => {
                pos += 1;
            },
            Some(source) => {
                proof {
                    lemma_last_in_slot(input@, slot as int, pos as int);
                    lemma_match_is_long_enough(
                        input@,
                        source as int,
                        pos as int,
                        match_limit(input@, pos as int),
                    );
                }
                let len = match_length(input, source, pos, end);
                let ghost before = pieces(tokens@);
                if pos > literal_start {
                    tokens.push(Token::Literals { start: literal_start, len: pos - literal_start });
                }
                assert(pieces(tokens@) =~= before + literal_piece(
                    literal_start as int,
                    pos as int,
                ));
                let ghost middle = pieces(tokens@);
                tokens.push(Token::Match { len, dist: pos - source });
                let ghost found = seq![Piece::Match { len: len as int, dist: pos - source }];
                assert(pieces(tokens@) =~= middle + found);
                let ghost rest = pieces_from(input@, pos + len, pos + len);
                assert(before + (literal_piece(literal_start as int, pos as int) + found + rest)
                    =~= middle + found + rest);

                // Record the interior positions too, so that a later match can
                // point into the middle of this one.
                let next = pos + len;
                let mut interior = pos + 1;
                while interior < next
                    invariant
                        interior <= next <= end,
                        end + 3 <= input@.len(),
                        table_upto(table@, input@, interior as int),
                    decreases next - interior,
                {
                    let slot = hash3(input, interior);
                    record(&mut table, slot, interior, Ghost(input@));
                    interior += 1;
                }
                pos = next;
                literal_start = next;
            },
        }
    }
    let ghost before = pieces(tokens@);
    if literal_start < input.len() {
        tokens.push(
            Token::Literals { start: literal_start, len: input.len() - literal_start },
        );
    }
    assert(pieces(tokens@) =~= before + literal_piece(literal_start as int, input@.len() as int));
    tokens
}

/// `found` cuts the input from `pos` on into pieces that a stream can hold:
/// they follow each other up to the end, no two literal runs stand side by
/// side, and each match repeats bytes that stand within reach.
pub open spec fn covers(input: Seq<u8>, found: Seq<Piece>, pos: int) -> bool
    decreases found.len(),
{
    if found.len() == 0 {
        pos == input.len()
    } else {
        let rest = found.drop_first();
        match found[0] {
            Piece::Literals { start, len } => {
                &&& start == pos
                &&& 1 <= len <= input.len() - pos
                &&& rest.len() > 0 ==> rest[0] is Match
                &&& covers(input, rest, pos + len)
            },
            Piece::Match { len, dist } => {
                &&& MIN_MATCH <= len <= MAX_MATCH
                &&& len <= input.len() - pos
                &&& 1 <= dist <= MAX_DISTANCE
                &&& dist <= pos
                &&& forall|i: int| pos <= i < pos + len ==> #[trigger] input[i] == input[i - dist]
                &&& covers(input, rest, pos + len)
            },
        }
    }
}

/// The pieces found from `pos` on cover the input from `literal_start` on.
pub proof fn lemma_pieces_cover(input: Seq<u8>, pos: int, literal_start: int)
    requires
        0 <= literal_start <= pos <= search_end(input),
    ensures
        covers(input, pieces_from(input, pos, literal_start), literal_start),
    decreases search_end(input) - pos,
{
    reveal_with_fuel(covers, 3);
    let found = pieces_from(input, pos, literal_start);
    if pos + MIN_MATCH > search_end(input) {
        if literal_start < input.len() {
            assert(found.drop_first() =~= Seq::empty());
        }
    } else {
        match match_source(input, pos) {
            None => {
                lemma_pieces_cover(input, pos + 1, literal_start);
            },
            Some(source) => {
                let limit = match_limit(input, pos);
                let len = agreement(input, source, pos, limit);
                lemma_last_in_slot(input, trigram_slot(input, pos), pos);
                lemma_match_is_long_enough(input, source, pos, limit);
                lemma_agreement(input, source, pos, limit);
                lemma_pieces_cover(input, pos + len, pos + len);
                let rest = pieces_from(input, pos + len, pos + len);
                let tail = seq![Piece::Match { len, dist: pos - source }] + rest;
                assert(tail.drop_first() =~= rest);
                assert forall|i: int| pos <= i < pos + len implies #[trigger] input[i] == input[i
                    - (pos - source)] by {
                    assert(input[pos + (i - pos)] == input[source + (i - pos)]);
                }
                assert(covers(input, tail, pos));
                if literal_start < pos {
                    assert(found.drop_first() =~= tail);
                } else {
                    assert(found =~= tail);
                }
            },
        }
    }
}

} // verus!
