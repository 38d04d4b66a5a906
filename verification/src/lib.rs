//! LZO1X compressor and decompressor, with their contracts proved.
//!
//! LZO1X is the byte-stream format produced by the LZO family of compressors
//! (LZO1X-1, LZO1X-1-15, LZO1X-999). All of them share one grammar, so a
//! single decoder handles every variant. The format appears in SquashFS
//! (compression id 3), Btrfs compressed extents, JFFS2, and kernel crash
//! dumps.
//!
//! Streams are raw blocks: no container, no framing.
//!
//! ```
//! // Four literal bytes via the leading run, then the end-of-stream marker.
//! let stream = [21u8, b'a', b'b', b'c', b'd', 0x11, 0x00, 0x00];
//! let out = lzo1x::decompress(&stream, 4).unwrap();
//! assert_eq!(&out, b"abcd");
//! ```
//!
//! # Layout
//!
//! - [`grammar`]: the instructions of a stream, and what a stream decodes to;
//! - [`decoder`]: [`decompress`];
//! - [`matcher`]: how an input is cut into literal runs and matches;
//! - [`mod@compress`]: how these are written, and [`compress()`];
//! - [`reading`]: how the decoder reads what the encoder writes;
//! - [`laws`]: what holds of both together;
//! - [`instruction_laws`] and [`decoding_laws`]: what each token reads as, and
//!   what it does to the output;
//! - [`plan_laws`], [`stream_laws`] and [`size_laws`]: which repetitions are
//!   found, how they stand in the stream, and how short that makes it.

pub mod compress;
pub mod decoder;
pub mod decoding_laws;
pub mod error;
pub mod grammar;
pub mod instruction_laws;
pub mod laws;
pub mod matcher;
pub mod plan_laws;
pub mod reading;
pub mod size_laws;
pub mod stream_laws;

pub use compress::compress;
pub use decoder::decompress;
pub use error::{Error, Result};
