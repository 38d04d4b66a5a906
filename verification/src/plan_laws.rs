//! Which repetitions of an input are found, and how far each of them is taken.
//!
//! Between them these laws settle the pieces that every input is cut into.

use vstd::prelude::*;

use crate::matcher;
use crate::matcher::Piece;

verus! {

/// How many bytes a piece covers.
pub open spec fn piece_len(piece: Piece) -> int {
    match piece {
        Piece::Match { len, dist: _ } => len,
        Piece::Literals { start: _, len } => len,
    }
}

/// Where the piece at `index` starts: behind the bytes that those before it
/// cover.
pub open spec fn start_of(found: Seq<Piece>, index: int) -> int
    decreases index,
{
    if index <= 0 {
        0
    } else {
        start_of(found, index - 1) + piece_len(found[index - 1])
    }
}

/// The three bytes at `a` are those at `b`.
pub open spec fn three_bytes_recur(input: Seq<u8>, a: int, b: int) -> bool {
    &&& input[a] == input[b]
    &&& input[a + 1] == input[b + 1]
    &&& input[a + 2] == input[b + 2]
}

/// No position between `a` and `b` falls into the hash slot of `b`.
pub open spec fn nothing_between(input: Seq<u8>, a: int, b: int) -> bool {
    forall|m: int|
        a < m < b ==> #[trigger] matcher::trigram_slot(input, m) != matcher::trigram_slot(input, b)
}

/// The slot of three bytes is the upper 13 of the 32 low bits of the product of
/// these bytes, most significant first, and the multiplier.
pub proof fn slots_are_upper_bits_of_a_product(input: Seq<u8>, pos: int)
    ensures
        ({
            let key = 65536 * input[pos] + 256 * input[pos + 1] + input[pos + 2];
            let low = (key * 506832829) % 4294967296;
            let slot = matcher::trigram_slot(input, pos);
            &&& 0 <= slot < 8192
            &&& 524288 * slot <= low < 524288 * (slot + 1)
        }),
{
    let key = 65536 * input[pos] + 256 * input[pos + 1] + input[pos + 2];
    assert(0 <= (key * 506832829) % 4294967296 < 4294967296);
}

/// Equal bytes fall into equal slots, wherever they stand.
pub proof fn equal_bytes_share_a_slot(a: Seq<u8>, p: int, b: Seq<u8>, q: int)
    requires
        a[p] == b[q],
        a[p + 1] == b[q + 1],
        a[p + 2] == b[q + 2],
    ensures
        matcher::trigram_slot(a, p) == matcher::trigram_slot(b, q),
{
}

/// No repetition is missed: where a literal run covers `pos`, and a match could
/// start there without reaching into the last three bytes, the three bytes at
/// `pos` stand at no earlier position that is within reach, can be recorded in
/// 32 bits, and is the last of its slot.
pub proof fn no_repetition_is_missed(input: Seq<u8>, index: int, earlier: int, pos: int)
    requires
        0 <= index < matcher::plan(input).len(),
        matcher::plan(input)[index] matches Piece::Literals { start, len } && start <= pos < start
            + len,
        pos + 3 <= input.len() - 3,
        0 <= earlier < pos,
        pos - earlier <= 49151,
        earlier < 4294967295,
        nothing_between(input, earlier, pos),
    ensures
        !three_bytes_recur(input, earlier, pos),
{
    lemma_taken(input, 0, 0, index);
    lemma_last_is_last(input, matcher::trigram_slot(input, pos), pos);
    lemma_found_if_last(input, earlier, pos);
}

/// A match repeats the bytes that stand its distance before it, from the last
/// position of the same slot; it covers 3 to 65536 bytes, reaches back at most
/// 49151, and leaves the last three bytes of the input alone.
pub proof fn matches_repeat_the_last_of_their_slot(input: Seq<u8>, index: int)
    requires
        0 <= index < matcher::plan(input).len(),
    ensures
        matcher::plan(input)[index] matches Piece::Match { len, dist } ==> {
            let pos = start_of(matcher::plan(input), index);
            &&& 3 <= len <= 65536
            &&& 1 <= dist <= 49151
            &&& dist <= pos
            &&& pos - dist < 4294967295
            &&& pos + len <= input.len() - 3
            &&& forall|i: int| pos <= i < pos + len ==> #[trigger] input[i] == input[i - dist]
            &&& matcher::trigram_slot(input, pos - dist) == matcher::trigram_slot(input, pos)
            &&& nothing_between(input, pos - dist, pos)
        },
{
    lemma_taken(input, 0, 0, index);
    if let Piece::Match { len, dist } = matcher::plan(input)[index] {
        let pos = start_of(matcher::plan(input), index);
        let limit = matcher::match_limit(input, pos);
        matcher::lemma_last_in_slot(input, matcher::trigram_slot(input, pos), pos);
        lemma_last_is_last(input, matcher::trigram_slot(input, pos), pos);
        matcher::lemma_match_is_long_enough(input, pos - dist, pos, limit);
        matcher::lemma_agreement(input, pos - dist, pos, limit);
        assert forall|i: int| pos <= i < pos + len implies #[trigger] input[i] == input[i
            - dist] by {
            assert(input[pos + (i - pos)] == input[pos - dist + (i - pos)]);
        }
    }
}

/// A match is taken as far as it goes: up to the first byte that differs, the
/// last three bytes of the input, or 65536 bytes.
pub proof fn matches_are_taken_as_far_as_they_go(input: Seq<u8>, index: int)
    requires
        0 <= index < matcher::plan(input).len(),
    ensures
        matcher::plan(input)[index] matches Piece::Match { len, dist } ==> {
            let end = start_of(matcher::plan(input), index) + len;
            ||| len == 65536
            ||| end == input.len() - 3
            ||| input[end] != input[end - dist]
        },
{
    lemma_taken(input, 0, 0, index);
    if let Piece::Match { len, dist } = matcher::plan(input)[index] {
        let pos = start_of(matcher::plan(input), index);
        let limit = matcher::match_limit(input, pos);
        matcher::lemma_agreement(input, pos - dist, pos, limit);
        lemma_agreement_ends(input, pos - dist, pos, limit);
    }
}

/// The pieces follow each other from the first byte of the input to its last,
/// each covers at least one byte, and no two literal runs stand side by side.
pub proof fn pieces_follow_each_other(input: Seq<u8>, index: int)
    ensures
        ({
            let found = matcher::plan(input);
            &&& start_of(found, found.len() as int) == input.len()
            &&& 0 <= index < found.len() ==> piece_len(found[index]) >= 1
            &&& 0 <= index < found.len() ==> (found[index] matches Piece::Literals {
                start,
                len: _,
            } ==> start == start_of(found, index))
            &&& 0 <= index && index + 1 < found.len() && found[index] is Literals
                ==> found[index + 1] is Match
        }),
{
    let found = matcher::plan(input);
    matcher::lemma_pieces_cover(input, 0, 0);
    assert(found.skip(0) =~= found);
    lemma_covers_from(input, found, found.len() as int);
    if 0 <= index < found.len() {
        lemma_covers_from(input, found, index);
        assert(found.skip(index)[0] == found[index]);
        if index + 1 < found.len() {
            assert(found.skip(index).drop_first()[0] == found[index + 1]);
        }
    }
}

/// Where an input goes on repeating itself, matches go on too: behind a piece
/// that ends at `pos`, if from `pos` on every byte is the one `dist` before it,
/// and no position less than `dist` before `pos` falls into the slot of `pos`,
/// the next piece is a match at that distance, of 65536 bytes or of all that is
/// left before the last three, whichever is less. This holds at every offset
/// that can be recorded in 32 bits.
pub proof fn periodic_inputs_go_on_as_matches(input: Seq<u8>, index: int, dist: int)
    requires
        0 <= index < matcher::plan(input).len(),
        ({
            let pos = start_of(matcher::plan(input), index);
            &&& 1 <= dist <= 49151
            &&& dist <= pos
            &&& pos - dist < 4294967295
            &&& pos + 3 <= input.len() - 3
            &&& forall|i: int| pos <= i < input.len() ==> #[trigger] input[i] == input[i - dist]
            &&& nothing_between(input, pos - dist, pos)
        }),
    ensures
        ({
            let left = input.len() - 3 - start_of(matcher::plan(input), index);
            matcher::plan(input)[index] == Piece::Match {
                len: if left < 65536 {
                    left
                } else {
                    65536
                },
                dist,
            }
        }),
{
    let found = matcher::plan(input);
    let pos = start_of(found, index);
    assert(input[pos] == input[pos - dist]);
    assert(input[pos + 1] == input[pos + 1 - dist]);
    assert(input[pos + 2] == input[pos + 2 - dist]);
    pieces_follow_each_other(input, index);
    match found[index] {
        Piece::Literals { start, len } => {
            no_repetition_is_missed(input, index, pos - dist, pos);
        },
        Piece::Match { len, dist: other } => {
            equal_bytes_share_a_slot(input, pos - dist, input, pos);
            matches_repeat_the_last_of_their_slot(input, index);
            assert(other == dist);
            matches_are_taken_as_far_as_they_go(input, index);
            if pos + len < input.len() {
                assert(input[pos + len] == input[pos + len - dist]);
            }
        },
    }
}

/// `piece` is what is found at `pos`: a match that starts there, or a literal
/// run over positions that have none.
spec fn taken(input: Seq<u8>, piece: Piece, pos: int) -> bool {
    match piece {
        Piece::Match { len, dist } => {
            &&& pos + 3 <= matcher::search_end(input)
            &&& matcher::match_source(input, pos) == Some(pos - dist)
            &&& len == matcher::agreement(input, pos - dist, pos, matcher::match_limit(input, pos))
        },
        Piece::Literals { start, len } => {
            &&& start == pos
            &&& no_match_within(input, pos, pos + len)
        },
    }
}

spec fn no_match_within(input: Seq<u8>, from: int, to: int) -> bool {
    forall|q: int|
        from <= q < to && q + 3 <= matcher::search_end(input) ==> #[trigger] matcher::match_source(
            input,
            q,
        ) is None
}

proof fn lemma_taken(input: Seq<u8>, pos: int, literal_start: int, index: int)
    requires
        0 <= literal_start <= pos <= matcher::search_end(input),
        no_match_within(input, literal_start, pos),
        0 <= index < matcher::pieces_from(input, pos, literal_start).len(),
    ensures
        ({
            let found = matcher::pieces_from(input, pos, literal_start);
            taken(input, found[index], literal_start + start_of(found, index))
        }),
    decreases matcher::search_end(input) - pos,
{
    let found = matcher::pieces_from(input, pos, literal_start);
    if pos + 3 > matcher::search_end(input) {
    } else {
        match matcher::match_source(input, pos) {
            None => {
                lemma_taken(input, pos + 1, literal_start, index);
            },
            Some(source) => {
                let limit = matcher::match_limit(input, pos);
                let len = matcher::agreement(input, source, pos, limit);
                matcher::lemma_match_is_long_enough(input, source, pos, limit);
                let rest = matcher::pieces_from(input, pos + len, pos + len);
                let run = matcher::literal_piece(literal_start, pos);
                let front = run + seq![Piece::Match { len, dist: pos - source }];
                assert(found == front + rest);
                reveal_with_fuel(start_of, 3);
                if index >= front.len() {
                    lemma_taken(input, pos + len, pos + len, index - front.len());
                    lemma_start_behind(front, rest, index - front.len());
                }
            },
        }
    }
}

proof fn lemma_start_behind(front: Seq<Piece>, rest: Seq<Piece>, index: int)
    requires
        0 <= index <= rest.len(),
    ensures
        start_of(front + rest, front.len() + index) == start_of(front, front.len() as int)
            + start_of(rest, index),
    decreases index,
{
    if index > 0 {
        lemma_start_behind(front, rest, index - 1);
        assert((front + rest)[front.len() + index - 1] == rest[index - 1]);
    } else {
        lemma_start_in_front(front, rest, front.len() as int);
    }
}

proof fn lemma_start_in_front(front: Seq<Piece>, rest: Seq<Piece>, index: int)
    requires
        0 <= index <= front.len(),
    ensures
        start_of(front + rest, index) == start_of(front, index),
    decreases index,
{
    if index > 0 {
        lemma_start_in_front(front, rest, index - 1);
        assert((front + rest)[index - 1] == front[index - 1]);
    }
}

/// What covers an input is, from each of its pieces on, a cover of the rest.
pub proof fn lemma_covers_from(input: Seq<u8>, found: Seq<Piece>, index: int)
    requires
        matcher::covers(input, found, 0),
        0 <= index <= found.len(),
    ensures
        matcher::covers(input, found.skip(index), start_of(found, index)),
    decreases index,
{
    if index > 0 {
        lemma_covers_from(input, found, index - 1);
        let here = found.skip(index - 1);
        assert(here[0] == found[index - 1]);
        assert(here.drop_first() =~= found.skip(index));
    } else {
        assert(found.skip(0) =~= found);
    }
}

/// What covers an input starts each of its pieces within it.
pub proof fn lemma_starts_are_within(input: Seq<u8>, found: Seq<Piece>, index: int)
    requires
        matcher::covers(input, found, 0),
        0 <= index <= found.len(),
    ensures
        0 <= start_of(found, index) <= input.len(),
    decreases index,
{
    if index > 0 {
        lemma_starts_are_within(input, found, index - 1);
        lemma_covers_from(input, found, index - 1);
        assert(found.skip(index - 1)[0] == found[index - 1]);
    }
}

/// Behind the last position of a slot there is none of that slot.
proof fn lemma_last_is_last(input: Seq<u8>, slot: int, pos: int)
    ensures
        forall|m: int|
            0 <= m < pos && #[trigger] matcher::trigram_slot(input, m) == slot
                ==> matcher::last_in_slot(input, slot, pos) is Some && m
                <= matcher::last_in_slot(input, slot, pos)->0,
    decreases pos,
{
    if pos > 0 {
        lemma_last_is_last(input, slot, pos - 1);
    }
}

/// A recurrence that is the last of its slot, within reach, is found.
proof fn lemma_found_if_last(input: Seq<u8>, earlier: int, pos: int)
    requires
        0 <= earlier < pos,
        pos - earlier <= 49151,
        earlier < 4294967295,
        nothing_between(input, earlier, pos),
    ensures
        three_bytes_recur(input, earlier, pos) ==> matcher::match_source(input, pos) == Some(
            earlier,
        ),
{
    if three_bytes_recur(input, earlier, pos) {
        let slot = matcher::trigram_slot(input, pos);
        equal_bytes_share_a_slot(input, earlier, input, pos);
        lemma_last_is_last(input, slot, pos);
        matcher::lemma_last_in_slot(input, slot, pos);
        let last = matcher::last_in_slot(input, slot, pos)->0;
        assert(matcher::trigram_slot(input, last) == slot);
    }
}

/// Where [`matcher::agreement`] stops short of its limit, the bytes differ.
proof fn lemma_agreement_ends(input: Seq<u8>, a: int, b: int, limit: int)
    ensures
        ({
            let len = matcher::agreement(input, a, b, limit);
            len >= limit || input[a + len] != input[b + len]
        }),
    decreases limit,
{
    if limit > 0 && input[a] == input[b] {
        lemma_agreement_ends(input, a + 1, b + 1, limit - 1);
    }
}

} // verus!
