//! Decoding of streams built by hand from the grammar.

use lzo1x::{decompress, Error};

/// End-of-stream marker: command byte 0x11 with a zero operand.
const EOS: [u8; 3] = [0x11, 0x00, 0x00];

/// Bootstrap literal run: a first byte >= 18 emits (t - 17) literals.
#[test]
fn literal_only_via_bootstrap() {
    // t = 17 + 4 = 21 -> 4 literals "abcd".
    let mut stream = vec![21u8, b'a', b'b', b'c', b'd'];
    stream.extend_from_slice(&EOS);
    assert_eq!(decompress(&stream, 4).unwrap(), b"abcd");
}

/// Literal run through the `t < 16` bucket at state 0, where the run
/// length is t + 3. t = 2 -> 5 literals.
#[test]
fn literal_run_small_bucket() {
    let mut stream = vec![2u8, b'h', b'e', b'l', b'l', b'o'];
    stream.extend_from_slice(&EOS);
    assert_eq!(decompress(&stream, 5).unwrap(), b"hello");
}

/// A `0 0 1 L L L L L` match repeating earlier output.
///
/// Stream: literal run of 4 ("wxyz"), then a match with len = 4 and
/// dist = 4, which replays the whole run.
#[test]
fn match_repeats_prior_output() {
    let mut stream = vec![1u8, b'w', b'x', b'y', b'z'];
    // t = 0x22: bucket `001`, length bits = 2 -> len = 2 + 2 = 4.
    // Operand 0x000C: dist = (12 >> 2) + 1 = 4, state = 0.
    stream.extend_from_slice(&[0x22, 0x0C, 0x00]);
    stream.extend_from_slice(&EOS);
    assert_eq!(decompress(&stream, 8).unwrap(), b"wxyzwxyz");
}

/// Overlapping match (dist < len): the classic LZ77 byte-run encoding.
/// dist = 1 copies the final byte forward repeatedly.
#[test]
fn overlapping_run() {
    let mut stream = vec![1u8, b'Q', b'R', b'S', b'T'];
    // t = 0x22 -> len 4; operand 0x0000 -> dist = 1, state = 0.
    // "QRST" + 4 bytes copied from 1 behind = "TTTT".
    stream.extend_from_slice(&[0x22, 0x00, 0x00]);
    stream.extend_from_slice(&EOS);
    assert_eq!(decompress(&stream, 8).unwrap(), b"QRSTTTTT");
}

/// The zero-run length extension: t = 0 in the literal bucket means
/// "length continues", each 0x00 byte adding 255.
#[test]
fn zero_run_length_extension() {
    // t = 0 -> extension over 15; a single terminating byte of 5
    // gives 15 + 5 = 20, then +3 -> a 23-byte literal run.
    let payload: Vec<u8> = (0..23u8).collect();
    let mut stream = vec![0u8, 5u8];
    stream.extend_from_slice(&payload);
    stream.extend_from_slice(&EOS);
    assert_eq!(decompress(&stream, 23).unwrap(), payload);
}

#[test]
fn truncated_stream_errors() {
    // Claims a 4-byte literal run but supplies only 2 bytes.
    assert_eq!(decompress(&[21u8, b'a', b'b'], 4), Err(Error::Malformed));
}

#[test]
fn missing_eos_marker_errors() {
    // Well-formed literal run, but the stream simply stops.
    assert_eq!(
        decompress(&[2u8, b'h', b'e', b'l', b'l', b'o'], 5),
        Err(Error::Malformed)
    );
}

#[test]
fn match_before_any_output_errors() {
    // A match as the first token has no prior output to copy from.
    assert_eq!(decompress(&[0x22u8, 0x00, 0x00], 4), Err(Error::Malformed));
}

#[test]
fn output_exceeding_max_out_errors() {
    // A 5-byte literal run against a 3-byte ceiling.
    let mut stream = vec![2u8, b'h', b'e', b'l', b'l', b'o'];
    stream.extend_from_slice(&EOS);
    assert_eq!(decompress(&stream, 3), Err(Error::Malformed));
}

#[test]
fn empty_input_errors() {
    assert_eq!(decompress(&[], 16), Err(Error::Malformed));
}

/// An all-zeros stream must terminate via the zero-run cap rather
/// than spinning forever.
#[test]
fn all_zeros_terminates() {
    let stream = vec![0u8; 4096];
    assert_eq!(decompress(&stream, 1 << 16), Err(Error::Malformed));
}

/// An all-zeros stream long enough to reach the cap.
#[test]
fn all_zeros_past_the_cap_terminates() {
    let stream = vec![0u8; 100_000];
    assert_eq!(decompress(&stream, 1 << 16), Err(Error::Malformed));
}

/// A literal run of `payload`, in the state 0 encoding.
fn literal_run(payload: &[u8]) -> Vec<u8> {
    let mut stream = vec![0u8];
    let mut left = payload.len() - 18;
    while left > 255 {
        stream.push(0);
        left -= 255;
    }
    stream.push(left as u8);
    stream.extend_from_slice(payload);
    stream
}

fn counting(n: usize) -> Vec<u8> {
    (0..n).map(|i| (i * 7 + i / 256) as u8).collect()
}

/// `1 L L D D D S S`: t = 0x8C -> len 5, dist = 3 + 1.
#[test]
fn short_match_of_five() {
    let mut stream = vec![1u8, b'w', b'x', b'y', b'z', 0x8C, 0x00];
    stream.extend_from_slice(&EOS);
    assert_eq!(decompress(&stream, 9).unwrap(), b"wxyzwxyzw");
}

/// `0 1 L D D D S S`: t = 0x4C -> len 3, dist = 3 + 1.
#[test]
fn short_match_of_three() {
    let mut stream = vec![1u8, b'w', b'x', b'y', b'z', 0x4C, 0x00];
    stream.extend_from_slice(&EOS);
    assert_eq!(decompress(&stream, 7).unwrap(), b"wxyzwxy");
}

/// The length bits and the distance byte of the two short buckets: t = 0xE1 is
/// len 8 with one trailing literal, t = 0x62 is len 4 with two.
#[test]
fn short_matches_with_trailing_literals() {
    let payload = counting(20);
    let mut stream = literal_run(&payload);
    stream.extend_from_slice(&[0xE1, 0x01, b'!', 0x62, 0x02, b'?', b'.']);
    stream.extend_from_slice(&EOS);
    let mut expected = payload.clone();
    for _ in 0..8 {
        expected.push(expected[expected.len() - 9]);
    }
    expected.push(b'!');
    for _ in 0..4 {
        expected.push(expected[expected.len() - 17]);
    }
    expected.extend_from_slice(b"?.");
    assert_eq!(decompress(&stream, expected.len()).unwrap(), expected);
}

/// `t < 16` behind one to three trailing literals: a 2-byte match.
#[test]
fn two_byte_match_after_trailing_literals() {
    let mut stream = vec![1u8, b'w', b'x', b'y', b'z', 0x22, 0x0D, 0x00, b'A', 0x04, 0x00];
    stream.extend_from_slice(&EOS);
    assert_eq!(decompress(&stream, 11).unwrap(), b"wxyzwxyzAzA");
}

/// The leading run sets the state to its own length if that is below 4.
#[test]
fn two_byte_match_after_a_short_leading_run() {
    let mut stream = vec![19u8, b'a', b'b', 0x04, 0x00];
    stream.extend_from_slice(&EOS);
    assert_eq!(decompress(&stream, 4).unwrap(), b"abab");
}

/// `t < 16` behind a long literal run: a 3-byte match, 2049 bytes back or more.
#[test]
fn three_byte_match_after_a_long_run() {
    let payload = counting(2060);
    let mut stream = literal_run(&payload);
    // t = 0x09: two distance bits = 2, one trailing literal; next byte 1.
    stream.extend_from_slice(&[0x09, 0x01, b'#']);
    stream.extend_from_slice(&EOS);
    let mut expected = payload.clone();
    let from = 2060 - (4 + 2 + 2049);
    expected.extend_from_slice(&payload[from..from + 3]);
    expected.push(b'#');
    assert_eq!(decompress(&stream, expected.len()).unwrap(), expected);

    // One byte further back than the output reaches.
    let mut short = literal_run(&payload[..2054]);
    short.extend_from_slice(&[0x09, 0x01, b'#']);
    short.extend_from_slice(&EOS);
    assert_eq!(decompress(&short, 1 << 16), Err(Error::Malformed));
}

/// `0 0 0 1 H L L L`: distances above 16384, with and without the high bit.
#[test]
fn long_distance_matches() {
    let payload = counting(40_000);
    for (t, operand, dist) in [
        (0x13u8, 1u16, 16_385usize),
        (0x1A, 0, 32_768),
        (0x1F, 100, 32_868),
        (0x17, 0x3FFF, 32_767),
    ] {
        let len = (t & 7) as usize + 2;
        let mut stream = literal_run(&payload);
        stream.push(t);
        stream.extend_from_slice(&(operand << 2).to_le_bytes());
        stream.extend_from_slice(&EOS);
        let mut expected = payload.clone();
        expected.extend_from_slice(&payload[40_000 - dist..40_000 - dist + len]);
        assert_eq!(decompress(&stream, expected.len()).unwrap(), expected);
    }
}

/// Extensions over the length fields of both operand buckets.
#[test]
fn extended_match_lengths() {
    // 0x20: 31 + 255 + 4 + 2 = 292 bytes at distance 1.
    let mut stream = vec![18u8, b'x', 0x20, 0x00, 0x04, 0x00, 0x00];
    stream.extend_from_slice(&EOS);
    assert_eq!(decompress(&stream, 293).unwrap(), vec![b'x'; 293]);

    // 0x10: 7 + 1 + 2 = 10 bytes at distance 16385.
    let payload = counting(17_000);
    let mut stream = literal_run(&payload);
    stream.extend_from_slice(&[0x10, 0x01, 0x04, 0x00]);
    stream.extend_from_slice(&EOS);
    let mut expected = payload.clone();
    expected.extend_from_slice(&payload[615..625]);
    assert_eq!(decompress(&stream, expected.len()).unwrap(), expected);
}

/// The marker is any token of its bucket that adds no distance, whatever its
/// length bits hold.
#[test]
fn the_marker_ignores_its_length_bits() {
    for marker in [
        &[0x11u8, 0x00, 0x00][..],
        &[0x13, 0x00, 0x00],
        &[0x17, 0x00, 0x00],
        &[0x12, 0x03, 0x00],
        &[0x10, 0x01, 0x00, 0x00],
    ] {
        let mut stream = vec![21u8, b'a', b'b', b'c', b'd'];
        stream.extend_from_slice(marker);
        assert_eq!(decompress(&stream, 4).unwrap(), b"abcd");
    }
    // With the high distance bit it is a match, here one without a source.
    assert_eq!(
        decompress(&[21u8, b'a', b'b', b'c', b'd', 0x19, 0x00, 0x00], 4),
        Err(Error::Malformed)
    );
    // A first byte of 17 is no literal run.
    assert_eq!(decompress(&EOS, 0).unwrap(), b"");
}

#[test]
fn trailing_input_is_ignored() {
    let stream = [21u8, b'a', b'b', b'c', b'd', 0x11, 0x00, 0x00, 0xFF, 0xFF, 0xFF];
    assert_eq!(decompress(&stream, 4).unwrap(), b"abcd");
}

/// A stream cut at any point is malformed.
#[test]
fn every_truncation_is_malformed() {
    let stream = [1u8, b'w', b'x', b'y', b'z', 0x22, 0x0D, 0x00, b'A', 0x04, 0x00, 0x11, 0, 0];
    assert_eq!(decompress(&stream, 64).unwrap(), b"wxyzwxyzAzA");
    for keep in 0..stream.len() {
        assert_eq!(decompress(&stream[..keep], 64), Err(Error::Malformed));
    }
}

/// The bound counts what a literal run, a match and trailing literals add.
#[test]
fn the_bound_counts_every_kind_of_copy() {
    let stream = [1u8, b'w', b'x', b'y', b'z', 0x22, 0x0D, 0x00, b'A', 0x04, 0x00, 0x11, 0, 0];
    for bound in 0..11 {
        assert_eq!(decompress(&stream, bound), Err(Error::Malformed));
    }
    for bound in [11, 12, 1 << 20, usize::MAX] {
        assert_eq!(decompress(&stream, bound).unwrap(), b"wxyzwxyzAzA");
    }
}

/// The longest literal run that an extension can carry, and one byte more.
#[test]
fn the_longest_literal_run() {
    let longest = lzo1x::reading::MAX_LITERAL_RUN;
    assert_eq!(longest, 16_777_219);
    let payload = counting(longest);
    let mut stream = literal_run(&payload);
    stream.extend_from_slice(&EOS);
    assert!(decompress(&stream, longest).unwrap() == payload);

    let payload = counting(longest + 1);
    let mut stream = literal_run(&payload);
    stream.extend_from_slice(&EOS);
    assert_eq!(decompress(&stream, longest + 1), Err(Error::Malformed));
}

/// The longest extended length of a match, in both buckets that have one, and
/// one more: the closing byte counts too.
#[test]
fn the_longest_match() {
    let longest = lzo1x::grammar::MAX_EXTENDED_LENGTH;
    assert_eq!(longest, 1 << 24);
    for (closing, fits) in [(225u8, true), (226, false), (255, false)] {
        // 31 + 65792 * 255 + 225 is the bound; operand 0x0000: dist = 1.
        let mut stream = vec![18u8, b'x', 0x20];
        stream.extend_from_slice(&vec![0u8; 65_792]);
        stream.extend_from_slice(&[closing, 0x00, 0x00]);
        stream.extend_from_slice(&EOS);
        let result = decompress(&stream, usize::MAX);
        if fits {
            assert!(result.unwrap() == vec![b'x'; 1 + longest + 2]);
        } else {
            assert_eq!(result, Err(Error::Malformed));
        }
    }
    for (closing, fits) in [(249u8, true), (250, false), (255, false)] {
        // 7 + 65792 * 255 + 249 is the bound; operand 0x0004: dist = 16385.
        let mut stream = literal_run(&vec![b'y'; 16_385]);
        stream.push(0x10);
        stream.extend_from_slice(&vec![0u8; 65_792]);
        stream.extend_from_slice(&[closing, 0x04, 0x00]);
        stream.extend_from_slice(&EOS);
        let result = decompress(&stream, usize::MAX);
        if fits {
            assert!(result.unwrap() == vec![b'y'; 16_385 + longest + 2]);
        } else {
            assert_eq!(result, Err(Error::Malformed));
        }
    }
}

/// A two-byte match behind three leading literals. All nine bytes are needed,
/// and none behind them is looked at.
#[test]
fn short_match_behind_a_short_leading_run() {
    let stream = [20u8, b'a', b'b', b'c', 0x08, 0x00, 0x11, 0x00, 0x00];
    assert_eq!(decompress(&stream, 5).unwrap(), b"abcab");
    assert_eq!(decompress(&stream, 4), Err(Error::Malformed));
    for keep in 0..stream.len() {
        assert_eq!(decompress(&stream[..keep], 5), Err(Error::Malformed));
    }
    let mut longer = stream.to_vec();
    longer.push(0xFF);
    assert_eq!(decompress(&longer, 5).unwrap(), b"abcab");
}

/// A match and the same match in two parts decode alike.
#[test]
fn matches_may_be_split() {
    for dist in 1..=4u8 {
        let operand = [(dist - 1) << 2, 0x00];
        let mut whole = vec![21u8, b'w', b'x', b'y', b'z', 0x20 | 9];
        whole.extend_from_slice(&operand);
        whole.extend_from_slice(&EOS);
        let expected = decompress(&whole, 15).unwrap();
        assert_eq!(expected.len(), 15);
        for first in 3..=8u8 {
            let mut parts = vec![21u8, b'w', b'x', b'y', b'z', 0x20 | (first - 2)];
            parts.extend_from_slice(&operand);
            parts.push(0x20 | (11 - first - 2));
            parts.extend_from_slice(&operand);
            parts.extend_from_slice(&EOS);
            assert_eq!(decompress(&parts, 15).unwrap(), expected);
        }
    }
}

#[test]
fn the_error_has_a_message() {
    assert_eq!(Error::Malformed.to_string(), "malformed LZO1X stream");
}

/// Arbitrary bytes are decoded or refused, at every bound.
#[test]
fn arbitrary_bytes_are_survived() {
    let mut state = 0x2545_f491u32;
    for len in 0..400usize {
        let mut data: Vec<u8> = Vec::new();
        for _ in 0..len {
            state = state.wrapping_mul(1103515245).wrapping_add(12345);
            data.push((state >> 16) as u8);
        }
        for bound in [0usize, 4096, 65_536, 262_144, 1 << 22] {
            if let Ok(out) = decompress(&data, bound) {
                assert!(out.len() <= bound);
            }
        }
    }
}
