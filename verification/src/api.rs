//! The codec with lengths and errors as 32-bit integers.

use vstd::prelude::*;
use crate::bound::{bound_spec, lzav_compress_bound};
use crate::compress::{can_compress, compressed_to, lzav_compress};
use crate::decompress::{decompressed, left_in, lzav_decompress, lzav_decompress_partial};
use crate::errors::LZAV_E_PARAMS;
use crate::format::{least, partly_decoded};
use crate::hashtable::table_size_spec;

verus! {

/// The interface of a codec backend.
pub trait Lzav {
    /// Compresses `src` to the start of `dst`: the length of the stream, or
    /// a negative error code.
    fn compress_default(src: &[u8], dst: &mut [u8]) -> (r: i32)
        ensures
            final(dst)@.len() == old(dst)@.len(),
            can_compress(src@.len(), old(dst)@.len()) ==> r > 0 && compressed_to(
                src@,
                table_size_spec(src@.len()),
                old(dst)@,
                final(dst)@,
                r as nat,
            ),
            !can_compress(src@.len(), old(dst)@.len()) ==> r == LZAV_E_PARAMS && final(dst)@ == old(
                dst,
            )@,
    ;

    /// The destination size that is enough for a source of `srcl` bytes.
    fn compress_bound(srcl: i32) -> (r: i32)
        ensures
            bound_spec(srcl as int) <= i32::MAX ==> r == bound_spec(srcl as int),
            bound_spec(srcl as int) > i32::MAX ==> r == i32::MAX,
    ;

    /// Decompresses `src` to the whole of `dst`: the length of `dst`, or a
    /// negative error code.
    fn decompress(src: &[u8], dst: &mut [u8]) -> (r: i32)
        ensures
            final(dst)@.len() == old(dst)@.len(),
            decompress_result(src@, old(dst)@, final(dst)@, r),
    ;

    /// Decompresses as much of `src` as fits in `dst`: the number of bytes
    /// written.
    fn decompress_partial(src: &[u8], dst: &mut [u8]) -> (r: i32)
        ensures
            final(dst)@.len() == old(dst)@.len(),
            partial_result(src@, old(dst)@, final(dst)@, r),
    ;
}

/// What [`decompress`] gives: the length of the destination, and in it
/// what the stream decompresses to; or the code of the stream's error, and
/// in the destination what was written before the error; or the code of a
/// parameter error, and the destination as it was, where its length is no
/// 32-bit number.
pub open spec fn decompress_result(src: Seq<u8>, before: Seq<u8>, after: Seq<u8>, r: i32) -> bool {
    if before.len() > i32::MAX {
        r == LZAV_E_PARAMS && after == before
    } else {
        &&& after == left_in(src, before.len(), before)
        &&& match decompressed(src, before.len(), before.len()) {
            Ok(out) => r == before.len() && after == out,
            Err(e) => r == e.code_spec(),
        }
    }
}

/// What [`decompress_partial`] gives: the number of bytes written, never
/// more than the destination holds or than a 32-bit number, then those
/// bytes, then the rest of the destination as it was.
pub open spec fn partial_result(src: Seq<u8>, before: Seq<u8>, after: Seq<u8>, r: i32) -> bool {
    let limit = least(before.len() as int, i32::MAX as int) as nat;
    &&& 0 <= r <= limit
    &&& r == partly_decoded(src, limit).len()
    &&& after == partly_decoded(src, limit) + before.subrange(r as int, before.len() as int)
}

/// Compresses `src` to the start of `dst` and returns the length of the
/// stream, or the code of a parameter error where `src` is empty or longer
/// than the window, or `dst` is shorter than the bound for `src`.
pub fn compress_default(src: &[u8], dst: &mut [u8]) -> (r: i32)
    ensures
        final(dst)@.len() == old(dst)@.len(),
        can_compress(src@.len(), old(dst)@.len()) ==> r > 0 && compressed_to(
            src@,
            table_size_spec(src@.len()),
            old(dst)@,
            final(dst)@,
            r as nat,
        ),
        !can_compress(src@.len(), old(dst)@.len()) ==> r == LZAV_E_PARAMS && final(dst)@ == old(
            dst,
        )@,
{
    match lzav_compress(src, dst, None) {
        Ok(n) => n as i32,
        Err(e) => e,
    }
}

/// The destination size that is enough for a source of `srcl` bytes; see
/// [`lzav_compress_bound`].
pub fn compress_bound(srcl: i32) -> (r: i32)
    ensures
        bound_spec(srcl as int) <= i32::MAX ==> r == bound_spec(srcl as int),
        bound_spec(srcl as int) > i32::MAX ==> r == i32::MAX,
{
    lzav_compress_bound(srcl)
}

/// Decompresses the stream `src` to the whole of `dst`, whose length is
/// the expected length, and returns that length or a negative error code.
pub fn decompress(src: &[u8], dst: &mut [u8]) -> (r: i32)
    ensures
        final(dst)@.len() == old(dst)@.len(),
        decompress_result(src@, old(dst)@, final(dst)@, r),
{
    let dstl: usize = dst.len();
    if dstl > i32::MAX as usize {
        return LZAV_E_PARAMS;
    }
    match lzav_decompress(src, dst, dstl) {
        Ok(n) => {
            assert(dst@.subrange(dstl as int, dstl as int) =~= Seq::<u8>::empty());
            assert(dst@ =~= dst@ + Seq::<u8>::empty());
            n as i32
        },
        Err(e) => e,
    }
}

/// Decompresses as much of the stream `src` as fits in `dst`, and returns
/// the number of bytes written. It never fails.
pub fn decompress_partial(src: &[u8], dst: &mut [u8]) -> (r: i32)
    ensures
        final(dst)@.len() == old(dst)@.len(),
        partial_result(src@, old(dst)@, final(dst)@, r),
{
    let cap: usize = dst.len();
    let dstl: usize = if cap > i32::MAX as usize {
        i32::MAX as usize
    } else {
        cap
    };
    let n: usize = lzav_decompress_partial(src, dst, dstl);
    n as i32
}

/// The backend that this library is.
pub struct RustBackend;

impl Lzav for RustBackend {
    fn compress_default(src: &[u8], dst: &mut [u8]) -> (r: i32) {
        self::compress_default(src, dst)
    }

    fn compress_bound(srcl: i32) -> (r: i32) {
        self::compress_bound(srcl)
    }

    fn decompress(src: &[u8], dst: &mut [u8]) -> (r: i32) {
        self::decompress(src, dst)
    }

    fn decompress_partial(src: &[u8], dst: &mut [u8]) -> (r: i32) {
        self::decompress_partial(src, dst)
    }
}

} // verus!
