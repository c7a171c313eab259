//! The bound on the size of a compressed stream.

use vstd::prelude::*;

verus! {

/// The destination size that is enough for any source of `n` bytes:
/// `(n - 6 * l2 + 143) / 144 * 2 - l2 + n + 16` with `l2 = n / 150`, and
/// 16 where `n` is not positive.
pub open spec fn bound_spec(n: int) -> int {
    if n <= 0 {
        16
    } else {
        (n - (n / 150) * 6 + 143) / 144 * 2 - n / 150 + n + 16
    }
}

/// The bound for a source of `srcl` bytes, as a 32-bit number: where the
/// bound does not fit, the largest 32-bit number.
pub fn lzav_compress_bound(srcl: i32) -> (r: i32)
    ensures
        bound_spec(srcl as int) <= i32::MAX ==> r == bound_spec(srcl as int),
        bound_spec(srcl as int) > i32::MAX ==> r == i32::MAX,
        r >= 16,
{
    if srcl <= 0 {
        return 16;
    }
    let n: i64 = srcl as i64;
    let l2: i64 = n / 150;
    let b: i64 = (n - l2 * 6 + 143) / 144 * 2 - l2 + n + 16;
    if b > i32::MAX as i64 {
        i32::MAX
    } else {
        b as i32
    }
}

/// The bound for a source of `n` bytes that fits the window.
pub fn bound_of(n: usize) -> (r: usize)
    requires
        n <= 8388608,
    ensures
        r == bound_spec(n as int),
        r >= n + n / 150 + 16,
{
    if n == 0 {
        return 16;
    }
    let l2: usize = n / 150;
    (n - l2 * 6 + 143) / 144 * 2 - l2 + n + 16
}

/// The bound leaves room for the source, one byte in 150 and 16 more.
pub proof fn lemma_bound_covers(n: int)
    requires
        n >= 0,
    ensures
        bound_spec(n) >= n + n / 150 + 16,
{
}

/// The bound of `n + 1` bytes is at least the bound of `n` bytes, except
/// where `n + 1` is a multiple of 150: there the formula steps down by 2.
pub proof fn lemma_bound_monotone(n: int)
    requires
        n >= 0,
        n % 150 != 149,
    ensures
        bound_spec(n + 1) >= bound_spec(n),
{
}

/// At a multiple of 150 the bound is 2 less than one byte before.
pub proof fn lemma_bound_step_down(n: int)
    requires
        n >= 0,
        n % 150 == 149,
    ensures
        bound_spec(n + 1) == bound_spec(n) - 2,
{
}

} // verus!
