//! LZAV: an in-memory, single-shot LZ77 codec for byte buffers.
//!
//! A source of up to 8 MiB is compressed in one call to a raw stream, with
//! no framing, checksum or length, and a stream is decompressed in one call
//! to a destination of the expected length.
//!
//! * [`format`] is the model of the stream: what each block means and what
//!   a stream decompresses to.
//! * [`encoding`] gives the bytes that the compressor writes for a block,
//!   with the proofs that the model reads them back.
//! * [`compress`] holds the block encoder, the match finder and the driver,
//!   [`hashtable`] the driver's hash table, [`bound`] the size that is
//!   enough for any stream.
//! * [`decompress`] holds the full and the partial decoder.
//! * [`roundtrip`] proves that the stream of a source decompresses to the
//!   source.
//! * [`api`] offers the codec with 32-bit lengths and error codes.
//! * [`swar`] is a simple token compressor of its own.

pub mod api;
pub mod bound;
pub mod compress;
pub mod constants;
pub mod decompress;
pub mod encoding;
pub mod errors;
pub mod format;
pub mod hashtable;
pub mod roundtrip;
pub mod swar;
pub mod utils;

pub use crate::api::{compress_bound, compress_default, decompress, decompress_partial, Lzav};
pub use crate::bound::lzav_compress_bound;
pub use crate::compress::lzav_compress;
pub use crate::decompress::{lzav_decompress, lzav_decompress_partial};
