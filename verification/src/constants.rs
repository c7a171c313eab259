//! Constants of the stream format and of the compressor.

use vstd::endian::endianness;
use vstd::prelude::*;

pub use crate::errors::LZAV_E_DSTLEN;
pub use crate::errors::LZAV_E_DSTOOB;
pub use crate::errors::LZAV_E_PARAMS;
pub use crate::errors::LZAV_E_REFOOB;
pub use crate::errors::LZAV_E_SRCOOB;
pub use crate::errors::LZAV_E_UNKFMT;

verus! {

/// API version, as a hexadecimal number.
pub const LZAV_API_VER: u32 = 0x106;

/// Version of the codec.
pub const LZAV_VER_STR: &'static str = "4.5";

/// Window length: the longest back-reference distance, and the longest
/// source that one call compresses.
pub const LZAV_WIN_LEN: usize = 8388608;

/// The shortest back-reference, in bytes.
pub const LZAV_REF_MIN: usize = 6;

/// The longest back-reference, in bytes: `LZAV_REF_MIN + 15 + 255 + 254`.
pub const LZAV_REF_LEN: usize = 530;

/// The number of literal bytes that end every stream.
pub const LZAV_LIT_FIN: usize = 6;

/// The stream format that the compressor writes.
pub const LZAV_FMT_CUR: u8 = 2;

/// The oldest stream format.
pub const LZAV_FMT_MIN: u8 = 1;

/// Sources shorter than this are stored as one literal block.
pub const LZAV_MIN_COMPRESS_SIZE: usize = 16;

/// `x` with its two bytes in the other order.
pub open spec fn reversed16(x: u16) -> u16 {
    ((x % 256) * 256 + x / 256) as u16
}

/// `x` with its four bytes in the opposite order.
pub open spec fn reversed32(x: u32) -> u32 {
    ((x % 256) * 16777216 + ((x / 256) % 256) * 65536 + ((x / 65536) % 256) * 256 + x
        / 16777216) as u32
}

/// `x` with its eight bytes in the opposite order.
pub open spec fn reversed64(x: u64) -> u64 {
    (reversed32((x % 0x1_0000_0000) as u32) * 0x1_0000_0000 + reversed32(
        (x / 0x1_0000_0000) as u32,
    )) as u64
}

/// A 16-bit number with its byte order corrected: the number itself where
/// the machine stores the low byte first, else the number with its bytes
/// in the other order.
pub open spec fn corrected16(x: u16) -> u16 {
    if endianness() is Little {
        x
    } else {
        reversed16(x)
    }
}

/// A 32-bit number with its byte order corrected, as [`corrected16`] says.
pub open spec fn corrected32(x: u32) -> u32 {
    if endianness() is Little {
        x
    } else {
        reversed32(x)
    }
}

/// A 64-bit number with its byte order corrected, as [`corrected16`] says.
pub open spec fn corrected64(x: u64) -> u64 {
    if endianness() is Little {
        x
    } else {
        reversed64(x)
    }
}

/// `u16::to_le` of std: the number itself on a machine that stores the low
/// byte first, and the number with its bytes in the other order on a
/// machine that stores the high byte first.
#[verifier::external_body]
fn little_endian16(x: u16) -> (r: u16)
    ensures
        r == corrected16(x),
{
    x.to_le()
}

/// `u32::to_le` of std: the number itself on a machine that stores the low
/// byte first, and the number with its four bytes in the opposite order
/// on a machine that stores the high byte first.
#[verifier::external_body]
fn little_endian32(x: u32) -> (r: u32)
    ensures
        r == corrected32(x),
{
    x.to_le()
}

/// `u64::to_le` of std: the number itself on a machine that stores the low
/// byte first, and the number with its eight bytes in the opposite order
/// on a machine that stores the high byte first.
#[verifier::external_body]
fn little_endian64(x: u64) -> (r: u64)
    ensures
        r == corrected64(x),
{
    x.to_le()
}

/// Corrects the byte order of a 16-bit number that was read from a stream
/// in the machine's own order: on a machine that stores the low byte first
/// the number is the one the stream holds; on any other its bytes are
/// swapped.
pub fn swap16(x: u16) -> (r: u16)
    ensures
        r == corrected16(x),
        r == x || r == reversed16(x),
{
    little_endian16(x)
}

/// Corrects the byte order of a 32-bit number, as [`swap16`] does.
pub fn swap32(x: u32) -> (r: u32)
    ensures
        r == corrected32(x),
        r == x || r == reversed32(x),
{
    little_endian32(x)
}

/// Corrects the byte order of a 64-bit number, as [`swap16`] does.
pub fn swap64(x: u64) -> (r: u64)
    ensures
        r == corrected64(x),
        r == x || r == reversed64(x),
{
    little_endian64(x)
}

} // verus!
