# lzo1x

An LZO1X compressor and decompressor in Verus: executable Rust whose contracts
are proved.

```rust
let packed = lzo1x::compress(&data);
let data = lzo1x::decompress(&packed, max_output_len)?;
```

There is also a command line, for working with raw blocks by hand:

```sh
lzo1x compress   input.bin  block.lzo1x
lzo1x decompress block.lzo1x output.bin 4096   # size is not in the stream
```

Raw blocks, deliberately: no container, no framing. That is what a Btrfs extent
or a SquashFS block holds.

## What is proved

- `decompress` returns exactly what the grammar in `src/grammar.rs` says the
  stream decodes to, or `Error::Malformed` if it says nothing or the output
  would exceed `max_out`. It has no precondition and does not panic.
- `compress` returns exactly the stream that `src/matcher.rs` and
  `src/compress.rs` describe. It has no precondition either.
- By the format, which bounds no length, the stream of every input decodes to
  that input (`laws::every_stream_is_valid`), so equal streams come from equal
  inputs (`laws::streams_determine_inputs`).
- `decompress` gives back what was compressed (`laws::round_trip`). The one
  exception is an input with more than 16777219 bytes in a row that no match
  covers: the decoder refuses every extended length above 16 MiB as garbage,
  and so refuses that stream (`laws::overlong_runs_are_refused`).
- The other laws are in `src/laws.rs`: the bound is exact, bytes behind the end
  marker are ignored, truncated streams are malformed, every stream ends with a
  literal run and the marker.

## About the encoder

It emits two of the format's four match buckets: one for distances up to 16384
and one above. The two others encode a short match one byte more cheaply, so
leaving them out costs ratio, not correctness.

`compress` is infallible. An input with no exploitable redundancy comes back
larger than it went in; callers that care should compare lengths and store the
original when this is longer.

## Layout

- `src/` is the verified library, `tests/` its tests;
- `app/` is the command line around it.
