//! Compression, and the round trip through the decoder.

use lzo1x::compress::MAX_BUCKET_C_DISTANCE;
use lzo1x::matcher::{MAX_DISTANCE, MIN_TRAILING_LITERALS};
use lzo1x::{compress, decompress, Error};

fn round_trip(input: &[u8]) {
    let packed = compress(input);
    let unpacked = decompress(&packed, input.len().max(1))
        .unwrap_or_else(|e| panic!("compress produced a stream our own decoder rejects: {e:?}"));
    assert_eq!(unpacked, input, "round trip changed the bytes");
}

fn noise(n: usize, seed: u32) -> Vec<u8> {
    let mut state = seed;
    (0..n)
        .map(|_| {
            state = state.wrapping_mul(1103515245).wrapping_add(12345);
            (state >> 16) as u8
        })
        .collect()
}

#[test]
fn an_empty_input_round_trips() {
    round_trip(b"");
}

/// Shorter than the reserved trailing literals, so no match can be
/// considered at all and the whole thing is one literal run.
#[test]
fn inputs_shorter_than_the_trailing_reserve_round_trip() {
    for n in 0..=MIN_TRAILING_LITERALS {
        round_trip(&vec![b'x'; n]);
    }
}

#[test]
fn incompressible_input_round_trips() {
    // A linear congruential sequence: reproducible, and with no
    // repeated trigrams for the matcher to find.
    let mut state = 0x12345678u32;
    let noise: Vec<u8> = (0..4096)
        .map(|_| {
            state = state.wrapping_mul(1103515245).wrapping_add(12345);
            (state >> 16) as u8
        })
        .collect();
    round_trip(&noise);
}

#[test]
fn a_long_run_of_one_byte_round_trips() {
    round_trip(&vec![b'A'; 100_000]);
}

/// Exercises the zero-run length extension on both the literal and
/// the match side, at and either side of the 255 boundary where an
/// extra continuation byte appears.
#[test]
fn lengths_around_the_extension_boundary_round_trip() {
    for n in [253, 254, 255, 256, 257, 509, 510, 511] {
        round_trip(&vec![b'Z'; n]);
        let mut mixed = Vec::new();
        let mut state = 0x9E3779B9u32;
        for _ in 0..n {
            state = state.wrapping_mul(1103515245).wrapping_add(12345);
            mixed.push((state >> 16) as u8);
        }
        mixed.extend_from_slice(&mixed.clone());
        round_trip(&mixed);
    }
}

/// The boundary between the two match buckets. A distance of exactly
/// 16384 must go through bucket C; 16385 through bucket D. Getting
/// the comparison wrong by one produces a bucket-D token with a zero
/// distance contribution, which IS the end-of-stream marker, so the
/// stream would truncate silently rather than fail.
#[test]
fn distances_across_the_bucket_boundary_round_trip() {
    for gap in [
        MAX_BUCKET_C_DISTANCE - 1,
        MAX_BUCKET_C_DISTANCE,
        MAX_BUCKET_C_DISTANCE + 1,
        MAX_BUCKET_C_DISTANCE + 2,
        (1 << 15) - 1,
        1 << 15,
        (1 << 15) + 1,
        MAX_DISTANCE - 1,
        MAX_DISTANCE,
    ] {
        let marker = b"MATCHME!";
        let mut data = Vec::with_capacity(gap + 64);
        data.extend_from_slice(marker);
        let mut state = 0xDEADBEEFu32;
        while data.len() < gap {
            state = state.wrapping_mul(1103515245).wrapping_add(12345);
            data.push((state >> 16) as u8);
        }
        data.truncate(gap);
        data.extend_from_slice(marker);
        data.extend_from_slice(b"tail");
        round_trip(&data);
    }
}

/// Literal runs of 1..3 ride in the preceding match's `SS` bits, and
/// runs of 4 or more take the long form. Both paths, and the
/// boundary between them, in one input.
#[test]
fn literal_runs_on_both_sides_of_the_inline_limit_round_trip() {
    for gap_len in 0..8 {
        let block = b"REPEATED-BLOCK-OF-BYTES";
        let mut data = Vec::new();
        for filler in 0..6u8 {
            data.extend_from_slice(block);
            data.extend(std::iter::repeat(b'0' + filler).take(gap_len));
        }
        data.extend_from_slice(b"end");
        round_trip(&data);
    }
}

/// Every output must end with the marker, whatever the input.
#[test]
fn every_stream_ends_with_the_marker() {
    for input in [b"".as_slice(), b"a", b"abc", &[b'q'; 5000]] {
        let packed = compress(input);
        assert_eq!(
            &packed[packed.len() - 3..],
            &[0x11, 0x00, 0x00],
            "stream does not end with the end-of-stream marker"
        );
    }
}

/// Compressible input must actually compress. Not a correctness
/// property, but an encoder that emits everything as literals would
/// pass every test above.
#[test]
fn repetitive_input_gets_smaller() {
    let input = b"the quick brown fox jumps over the lazy dog. ".repeat(200);
    let packed = compress(&input);
    assert!(
        packed.len() * 4 < input.len(),
        "expected at least 4x on repetitive input, got {} -> {}",
        input.len(),
        packed.len()
    );
}

/// Streams byte for byte.
#[test]
fn streams_are_exact() {
    assert_eq!(compress(b""), [0x11, 0, 0]);
    assert_eq!(compress(b"abc"), [20, b'a', b'b', b'c', 0x11, 0, 0]);
    // One literal, a match of 6 at distance 1, three literals in its operand.
    assert_eq!(
        compress(&[b'A'; 10]),
        [18, b'A', 0x24, 0x03, 0x00, b'A', b'A', b'A', 0x11, 0, 0]
    );
    // A match too long for its field, then a long-form literal run.
    let mut input = vec![b'A'; 40];
    input.extend_from_slice(b"wxyz");
    assert_eq!(
        compress(&input),
        [
            18, b'A', 0x20, 6, 0x00, 0x00, 1, b'w', b'x', b'y', b'z', 0x11, 0, 0
        ]
    );
}

/// The leading run changes shape behind 238 bytes.
#[test]
fn leading_runs_are_exact() {
    let data: Vec<u8> = (0..239).map(|i| i as u8).collect();
    let packed = compress(&data[..238]);
    assert_eq!(packed[0], 255);
    assert_eq!(&packed[1..239], &data[..238]);
    let packed = compress(&data);
    assert_eq!(&packed[..2], &[0, 239 - 18]);
    assert_eq!(&packed[2..241], &data[..]);
    for n in [17, 237, 238, 239, 240, 255 + 18, 256 + 18] {
        round_trip(&noise(n, n as u32));
    }
}

/// Bucket C up to 16384, bucket D above, with the high bit from 32768 on.
#[test]
fn match_tokens_are_exact() {
    for (gap, token) in [
        (16_384usize, [0x26u8, 0xFC, 0xFF]),
        (16_385, [0x16, 0x04, 0x00]),
        (32_767, [0x16, 0xFC, 0xFF]),
        (32_768, [0x1E, 0x00, 0x00]),
        (49_151, [0x1E, 0xFC, 0xFF]),
    ] {
        let mut data = b"MATCHME!".to_vec();
        data.extend_from_slice(&vec![b'x'; gap - 8]);
        data.extend_from_slice(b"MATCHME!");
        data.extend_from_slice(b"tail");
        let packed = compress(&data);
        // The match, the long-form run "tail", and the marker end the stream.
        let at = packed.len() - 3 - 5 - 3;
        assert_eq!(&packed[at..at + 3], &token);
        assert_eq!(&packed[at + 3..at + 8], b"\x01tail");
        round_trip(&data);
    }
    // One byte too far for any match.
    let mut data = b"MATCHME!".to_vec();
    data.extend_from_slice(&vec![b'x'; 49_152 - 8]);
    data.extend_from_slice(b"MATCHME!");
    data.extend_from_slice(b"tail");
    assert!(compress(&data).ends_with(b"\x09MATCHME!tail\x11\x00\x00"));
    round_trip(&data);
}

/// Bytes in which no trigram comes back within reach of a match: digits of
/// disjoint alphabets, counting up.
fn matchless(n: usize) -> Vec<u8> {
    let mut data = Vec::with_capacity(n + 3);
    let mut i = 0usize;
    while data.len() < n {
        let low = (i & 127) as u8;
        data.push((i >> 13 & 31) as u8);
        data.push(128 + (i >> 7 & 63) as u8);
        data.push(if low < 96 { 32 + low } else { 96 + low });
        i += 1;
    }
    data.truncate(n);
    data
}

/// Input with no match in it comes back larger.
#[test]
fn matchless_input_grows() {
    for n in [0, 1, 2, 3, 4, 238, 239, 5000] {
        let data = matchless(n);
        assert!(compress(&data).len() > n);
        round_trip(&data);
    }
}

/// The last three bytes are never part of a match.
#[test]
fn streams_end_with_literals() {
    for n in 1..600usize {
        let data = vec![b'q'; n];
        let packed = compress(&data);
        let tail = n.min(3);
        let mut expected = vec![b'q'; tail];
        expected.extend_from_slice(&[0x11, 0, 0]);
        assert!(packed.ends_with(&expected));
        round_trip(&data);
    }
}

/// The exact length is enough as a bound, one byte less is refused, and so is
/// every truncation.
#[test]
fn compressed_bounds_are_exact() {
    let mut data = b"the quick brown fox jumps over the lazy dog. ".repeat(3);
    data.extend_from_slice(&noise(40, 7));
    let packed = compress(&data);
    assert_eq!(decompress(&packed, data.len()).unwrap(), data);
    assert_eq!(decompress(&packed, usize::MAX).unwrap(), data);
    assert_eq!(decompress(&packed, data.len() - 1), Err(Error::Malformed));
    for keep in 0..packed.len() {
        assert_eq!(decompress(&packed[..keep], usize::MAX), Err(Error::Malformed));
    }
    let mut longer = packed.clone();
    longer.extend_from_slice(b"more");
    assert_eq!(decompress(&longer, data.len()).unwrap(), data);
}

/// A literal run of the longest length that the decoder takes, and one more.
#[test]
fn the_longest_matchless_input() {
    let longest = lzo1x::reading::MAX_LITERAL_RUN;
    let data = matchless(longest + 1);
    let packed = compress(&data[..longest]);
    assert!(packed.len() > longest);
    assert!(decompress(&packed, longest).unwrap() == data[..longest]);
    let packed = compress(&data);
    assert!(packed.len() > longest + 1);
    assert_eq!(decompress(&packed, longest + 1), Err(Error::Malformed));
}

/// Different inputs give different streams.
#[test]
fn different_inputs_give_different_streams() {
    let mut inputs: Vec<Vec<u8>> = Vec::new();
    for n in 0..40usize {
        inputs.push(vec![b'q'; n]);
        inputs.push(noise(n + 1, 3));
        inputs.push(b"abc".repeat(n + 1));
    }
    for (i, a) in inputs.iter().enumerate() {
        for b in &inputs[..i] {
            assert_eq!(compress(a) == compress(b), a == b);
        }
    }
}

/// A match length is written as a command byte and an extension that reads
/// back, on both sides of each step of the extension.
#[test]
fn extensions_are_exact() {
    for (len, command) in [
        (32usize, vec![0x3Eu8]),
        (33, vec![0x3F]),
        (34, vec![0x20, 0x01]),
        (288, vec![0x20, 0xFF]),
        (289, vec![0x20, 0x00, 0x01]),
        (543, vec![0x20, 0x00, 0xFF]),
        (544, vec![0x20, 0x00, 0x00, 0x01]),
    ] {
        // One literal, then all but the last three bytes as one match.
        let data = vec![b'q'; 1 + len + 3];
        let mut expected = vec![18u8, b'q'];
        expected.extend_from_slice(&command);
        expected.extend_from_slice(&[0x03, 0x00, b'q', b'q', b'q', 0x11, 0x00, 0x00]);
        assert_eq!(compress(&data), expected);
        round_trip(&data);
    }
}

/// Structured, repetitive and mixed payloads of many sizes.
#[test]
fn many_payloads_round_trip() {
    for n in [1usize, 2, 3, 4, 5, 15, 16, 17, 18, 19, 31, 32, 33, 255, 256, 257, 1023, 1024] {
        round_trip(&b"the quick brown fox jumps over the lazy dog\n".repeat(24)[..n]);
    }
    round_trip(&(0..=255u8).cycle().take(16 * 1024).collect::<Vec<u8>>());
    let mut mixed = Vec::new();
    for i in 0..16u32 {
        mixed.extend_from_slice(&b"the quick brown fox jumps over the lazy dog\n".repeat(93));
        mixed.extend_from_slice(&noise(4096, i + 1));
    }
    round_trip(&mixed);
}
