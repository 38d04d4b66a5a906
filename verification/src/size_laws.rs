//! How short the stream of a repetitive input is.

use vstd::prelude::*;

use crate::compress;
use crate::matcher;
use crate::matcher::Piece;
use crate::plan_laws;
use crate::stream_laws;

verus! {

/// From `from` on, every byte of the input is the one `dist` before it, and no
/// two positions less than `dist` apart share a hash slot.
pub open spec fn repeats_from(input: Seq<u8>, from: int, dist: int) -> bool {
    &&& 1 <= dist <= 49151
    &&& dist <= from
    &&& forall|i: int| from <= i < input.len() ==> #[trigger] input[i] == input[i - dist]
    &&& forall|q: int, m: int|
        from <= q && q + 6 <= input.len() && q - dist < m < q ==> #[trigger] matcher::trigram_slot(
            input,
            m,
        ) != #[trigger] matcher::trigram_slot(input, q)
}

/// Where an input goes on repeating itself, its stream takes at most 260 bytes
/// for every 65536 of it, and 269 more, wherever in the input that begins.
pub proof fn repetitive_inputs_get_smaller(input: Seq<u8>, index: int, dist: int)
    requires
        0 < index <= matcher::plan(input).len(),
        repeats_from(input, plan_laws::start_of(matcher::plan(input), index), dist),
        input.len() <= 4294967295,
    ensures
        ({
            let left = input.len() - plan_laws::start_of(matcher::plan(input), index);
            compress::compressed(input).len() <= stream_laws::token_at(input, index) + 260 * (left
                / 65536) + 269
        }),
{
    lemma_rest_is_short(input, index, dist);
}

/// An input of `n` equal bytes takes at most 260 bytes for every 65536 of them,
/// and 276 more.
pub proof fn equal_bytes_get_smaller(input: Seq<u8>, b: u8)
    requires
        forall|i: int| 0 <= i < input.len() ==> #[trigger] input[i] == b,
        input.len() <= 4294967295,
    ensures
        compress::compressed(input).len() <= 260 * (input.len() as int / 65536) + 276,
{
    let n = input.len() as int;
    if n > 0 {
        let len = lemma_equal_bytes_open(input, b);
        let found = matcher::plan(input);
        assert(plan_laws::start_of(found, 1) == len) by {
            reveal_with_fuel(plan_laws::start_of, 2);
        }
        assert(repeats_from(input, len, 1)) by {
            assert forall|i: int| len <= i < n implies #[trigger] input[i] == input[i - 1] by {}
        }
        assert(stream_laws::token_at(input, 1) == 1 + len) by {
            stream_laws::leading_runs_open_the_stream(input, len);
        }
        assert(compress::compressed(input).len() <= 1 + len + 260 * ((n - len) / 65536) + 269) by {
            repetitive_inputs_get_smaller(input, 1, 1);
        }
    } else {
        assert(matcher::plan(input) =~= Seq::empty());
        stream_laws::the_marker_stands_last(input);
    }
}

/// The first of many equal bytes is a literal, and the only one.
proof fn lemma_equal_bytes_open(input: Seq<u8>, b: u8) -> (len: int)
    requires
        forall|i: int| 0 <= i < input.len() ==> #[trigger] input[i] == b,
        0 < input.len(),
    ensures
        1 <= len <= input.len(),
        matcher::plan(input).len() > 0,
        matcher::plan(input)[0] == (Piece::Literals { start: 0, len }),
        len == 1 || input.len() < 7,
{
    let found = matcher::plan(input);
    let n = input.len() as int;
    plan_laws::pieces_follow_each_other(input, 0);
    assert(found.len() > 0);
    plan_laws::matches_repeat_the_last_of_their_slot(input, 0);
    matcher::lemma_pieces_cover(input, 0, 0);
    let len = plan_laws::piece_len(found[0]);
    if n >= 7 && len > 1 {
        assert(input[0] == input[1]);
        assert(input[1] == input[2]);
        assert(input[2] == input[3]);
        assert(plan_laws::three_bytes_recur(input, 0, 1));
        plan_laws::no_repetition_is_missed(input, 0, 0, 1);
    }
    len
}

proof fn lemma_rest_is_short(input: Seq<u8>, index: int, dist: int)
    requires
        0 <= index <= matcher::plan(input).len(),
        repeats_from(input, plan_laws::start_of(matcher::plan(input), index), dist),
        input.len() <= 4294967295,
    ensures
        ({
            let left = input.len() - plan_laws::start_of(matcher::plan(input), index);
            compress::encode_rest(input, matcher::plan(input).skip(index)).len() <= 260 * (left
                / 65536) + 269
        }),
    decreases matcher::plan(input).len() - index,
{
    let found = matcher::plan(input);
    let pos = plan_laws::start_of(found, index);
    let here = found.skip(index);
    let n = input.len() as int;
    matcher::lemma_pieces_cover(input, 0, 0);
    plan_laws::lemma_starts_are_within(input, found, index);
    if index < found.len() {
        let behind = found.skip(index + 1);
        assert(here.drop_first() =~= behind);
        assert(here[0] == found[index]);
        plan_laws::lemma_starts_are_within(input, found, index + 1);
        plan_laws::pieces_follow_each_other(input, index);
        plan_laws::matches_repeat_the_last_of_their_slot(input, index);
        if pos + 6 <= n {
            assert(plan_laws::nothing_between(input, pos - dist, pos));
            plan_laws::periodic_inputs_go_on_as_matches(input, index, dist);
        }
        match found[index] {
            Piece::Match { len, dist: d } => {
                let token = compress::match_bytes(len, d, compress::inline_literals(behind));
                lemma_match_is_short(len, d, compress::inline_literals(behind));
                assert forall|i: int| pos + len <= i < n implies #[trigger] input[i] == input[i
                    - dist] by {}
                if len == 65536 {
                    lemma_rest_is_short(input, index + 1, dist);
                    assert((n - pos) / 65536 == (n - pos - 65536) / 65536 + 1);
                } else {
                    lemma_tail_is_short(input, index + 1);
                }
            },
            Piece::Literals { start, len } => {
                lemma_tail_is_short(input, index);
            },
        }
    }
}

/// From a piece that starts at one of the last five bytes on, the stream is
/// those bytes, a command byte and the end marker at most.
proof fn lemma_tail_is_short(input: Seq<u8>, index: int)
    requires
        0 <= index <= matcher::plan(input).len(),
        plan_laws::start_of(matcher::plan(input), index) + 6 > input.len(),
    ensures
        compress::encode_rest(input, matcher::plan(input).skip(index)).len() <= 9,
{
    let found = matcher::plan(input);
    let here = found.skip(index);
    matcher::lemma_pieces_cover(input, 0, 0);
    plan_laws::lemma_starts_are_within(input, found, index);
    if index < found.len() {
        let behind = found.skip(index + 1);
        assert(here.drop_first() =~= behind);
        assert(here[0] == found[index]);
        plan_laws::lemma_starts_are_within(input, found, index + 1);
        plan_laws::pieces_follow_each_other(input, index);
        plan_laws::matches_repeat_the_last_of_their_slot(input, index);
        if index + 1 < found.len() {
            plan_laws::matches_repeat_the_last_of_their_slot(input, index + 1);
        }
        assert(behind =~= Seq::empty());
        assert(compress::encode_rest(input, behind) == compress::end_marker());
        if let Piece::Literals { start, len } = found[index] {
            let literals = input.subrange(start, start + len);
            assert(plan_laws::start_of(found, index + 1) == start + len);
            assert(literals.len() <= 5);
            assert(compress::literal_bytes(literals).len() <= 6);
        }
    }
}

proof fn lemma_match_is_short(len: int, dist: int, inline: int)
    requires
        3 <= len <= 65536,
    ensures
        compress::match_bytes(len, dist, inline).len() <= 260,
{
    if len > 33 {
        lemma_extension_is_short(len - 33);
    }
    if len > 9 {
        lemma_extension_is_short(len - 9);
    }
}

proof fn lemma_extension_is_short(remainder: int)
    requires
        remainder >= 1,
    ensures
        compress::extension_bytes(remainder).len() == (remainder + 254) / 255,
    decreases remainder,
{
    if remainder > 255 {
        lemma_extension_is_short(remainder - 255);
    }
}

} // verus!
