//! The decoder: full decompression to an expected length, and a partial
//! decompression that never fails.

use vstd::prelude::*;
use crate::errors::DecompressError;
use crate::utils::{copy_bytes, lemma_writes_spliced};
use crate::format::{
    block_at, block_end, block_limit, decode_blocks, decoded, kept_blocks, kept_on_error, least,
    partial_blocks, partly_decoded, ref_copy,
    scale_after, start_cursor, step, varint_at, Block, Cursor,
};

verus! {

/// A block header as the decoder reads it; its view is the [`Block`] of the
/// model.
#[derive(Clone, Copy, Debug)]
pub enum Header {
    Literal { carry: u8, start: usize, len: usize },
    Reference { kind: u8, low: u32, carry: u8, len: usize, next: usize },
    Truncated,
}

impl View for Header {
    type V = Block;

    open spec fn view(&self) -> Block {
        match *self {
            Header::Literal { carry, start, len } => Block::Literal {
                carry: carry as nat,
                start: start as int,
                len: len as nat,
            },
            Header::Reference { kind, low, carry, len, next } => Block::Reference {
                kind: kind as nat,
                low: low as nat,
                carry: carry as nat,
                len: len as nat,
                next: next as int,
            },
            Header::Truncated => Block::Truncated,
        }
    }
}

/// Reads the base-128 number at `p`: its value and the position behind it,
/// or `None` where the stream ends inside it.
pub fn read_varint(src: &[u8], p: usize) -> (r: Option<(usize, usize)>)
    requires
        p <= src@.len(),
    ensures
        match varint_at(src@, p as int) {
            None => r is None,
            Some((v, next)) => r == Some((v as usize, next as usize)) && v < 0x1000_0000 && p < next
                <= src@.len(),
        },
{
    let n: usize = src.len();
    if p >= n {
        return None;
    }
    let b0: usize = src[p] as usize;
    if b0 < 128 {
        return Some((b0, p + 1));
    }
    if n - p <= 1 {
        return None;
    }
    let b1: usize = src[p + 1] as usize;
    if b1 < 128 {
        return Some((b0 % 128 + 128 * b1, p + 2));
    }
    if n - p <= 2 {
        return None;
    }
    let b2: usize = src[p + 2] as usize;
    if b2 < 128 {
        return Some((b0 % 128 + 128 * (b1 % 128) + 16384 * b2, p + 3));
    }
    if n - p <= 3 {
        return None;
    }
    let b3: usize = src[p + 3] as usize;
    Some((b0 % 128 + 128 * (b1 % 128) + 16384 * (b2 % 128) + 2097152 * (b3 % 128), p + 4))
}

/// Reads the header of the block at `ip`.
pub fn read_header(src: &[u8], ip: usize) -> (h: Header)
    requires
        0 < ip < src@.len(),
    ensures
        h@ == block_at(src@, ip as int),
        match h {
            Header::Literal { carry, start, len } => carry < 4 && ip < start <= src@.len() && 0
                < len < 0x1000_0010,
            Header::Reference { kind, low, carry, len, next } => 1 <= kind <= 3 && low < 0x80_0000
                && carry < 8 && len <= 540 && ip < next <= src@.len() && next == ip + kind + 1 + (
            if src@[ip as int] % 16 != 0 {
                0int
            } else if src@[ip + kind + 1] != 255 {
                1int
            } else {
                2int
            }),
            Header::Truncated => true,
        },
{
    let n: usize = src.len();
    let bh: u8 = src[ip];
    let nib: u8 = bh % 16;
    let kind: u8 = (bh / 16) % 4;
    if kind == 0 {
        if nib != 0 {
            return Header::Literal { carry: bh / 64, start: ip + 1, len: nib as usize };
        }
        return match read_varint(src, ip + 1) {
            Some((v, next)) => Header::Literal { carry: bh / 64, start: next, len: 16 + v },
            None => Header::Truncated,
        };
    }
    let k: usize = kind as usize;
    if n - ip <= k {
        return Header::Truncated;
    }
    let mut o: u32 = src[ip + 1] as u32;
    if kind >= 2 {
        o = o + 256 * (src[ip + 2] as u32);
    }
    if kind == 3 {
        o = o + 65536 * (src[ip + 3] as u32);
    }
    let low: u32 = (bh / 64) as u32 + 4 * (o % 0x200000);
    let carry: u8 = (o / 0x200000) as u8;
    let mref: usize = (src[0] % 16) as usize;
    if nib != 0 {
        return Header::Reference { kind, low, carry, len: nib as usize + mref, next: ip + k + 1 };
    }
    if n - ip <= k + 1 {
        return Header::Truncated;
    }
    let e: usize = src[ip + k + 1] as usize;
    if e != 255 {
        return Header::Reference { kind, low, carry, len: 15 + mref + e, next: ip + k + 2 };
    }
    if n - ip <= k + 2 {
        return Header::Truncated;
    }
    let e2: usize = src[ip + k + 2] as usize;
    Header::Reference { kind, low, carry, len: 15 + mref + 255 + e2, next: ip + k + 3 }
}

/// A product with a number under 4, as a sum.
pub proof fn lemma_small_product(n: int, x: int)
    requires
        0 <= n < 4,
    ensures
        n == 0 ==> n * x == 0,
        n == 1 ==> n * x == x,
        n == 2 ==> n * x == x + x,
        n == 3 ==> n * x == x + x + x,
{
    assert(n == 0 ==> n * x == 0) by (nonlinear_arith);
    assert(n == 1 ==> n * x == x) by (nonlinear_arith);
    assert(n == 2 ==> n * x == x + x) by (nonlinear_arith);
    assert(n == 3 ==> n * x == x + x + x) by (nonlinear_arith);
}

/// The largest carry that is told apart from larger ones: no distance at or
/// above it lies inside a buffer.
pub const CARRY_CAP: u128 = 0x1_0000_0000_0000_0000;

/// The pending low bits of the next distance. A run of literal blocks can
/// make them grow without end, so both numbers stop at [`CARRY_CAP`].
#[derive(Clone, Copy, Debug)]
pub struct Carry {
    pub cv: u128,
    pub scale: u128,
}

impl Carry {
    /// That this carry stands for the pair `cv`, `scale` of a cursor.
    pub open spec fn models(self, cv: nat, scale: nat) -> bool {
        &&& self.cv == least(cv as int, CARRY_CAP as int)
        &&& self.scale == least(scale as int, CARRY_CAP as int)
    }

    /// The carry in front of the first block.
    pub fn new() -> (r: Carry)
        ensures
            r.models(0, 1),
    {
        Carry { cv: 0, scale: 1 }
    }

    /// The carry behind a reference block with `kind` offset bytes.
    pub fn after_reference(kind: u8, carry: u8) -> (r: Carry)
        ensures
            r.models(carry as nat, scale_after(kind as nat)),
    {
        Carry { cv: carry as u128, scale: if kind == 3 {
            8
        } else {
            1
        } }
    }

    /// The carry behind a literal block whose header holds the bits `ncv`.
    pub fn after_literal(self, ncv: u8) -> (r: Carry)
        requires
            ncv < 4,
        ensures
            forall|cv: nat, scale: nat| #[trigger]
                self.models(cv, scale) ==> r.models((cv + ncv * scale) as nat, 4 * scale),
    {
        proof {
            lemma_small_product(ncv as int, self.scale as int);
        }
        let grown: u128 = if self.cv >= CARRY_CAP || self.scale >= CARRY_CAP {
            if ncv == 0 {
                self.cv
            } else {
                CARRY_CAP
            }
        } else {
            let t: u128 = self.cv + (ncv as u128) * self.scale;
            if t >= CARRY_CAP {
                CARRY_CAP
            } else {
                t
            }
        };
        let wider: u128 = if self.scale >= CARRY_CAP / 4 {
            CARRY_CAP
        } else {
            4 * self.scale
        };
        let r = Carry { cv: grown, scale: wider };
        proof {
            assert forall|cv: nat, scale: nat| #[trigger] self.models(cv, scale) implies r.models(
                (cv + ncv * scale) as nat,
                4 * scale,
            ) by {
                lemma_small_product(ncv as int, scale as int);
                lemma_small_product(ncv as int, self.scale as int);
            }
        }
        r
    }

    /// The distance of a reference block that holds `low`, where it is at
    /// least 1 and at most `op`.
    pub fn distance(self, low: u32, op: usize) -> (r: Option<usize>)
        requires
            low < 0x80_0000,
        ensures
            forall|cv: nat, scale: nat| #[trigger]
                self.models(cv, scale) ==> r == (if 0 < low * scale + cv <= op {
                    Some((low * scale + cv) as usize)
                } else {
                    None
                }),
    {
        proof {
            assert forall|cv: nat, scale: nat| #[trigger] self.models(cv, scale) implies (low >= 1
                ==> low * scale >= scale) && (low == 0 ==> low * scale == 0) by {
                assert(low >= 1 ==> low * scale >= scale) by (nonlinear_arith);
            }
            assert(low * self.scale <= 0x80_0000 * self.scale) by (nonlinear_arith)
                requires
                    low < 0x80_0000,
            ;
        }
        if self.cv >= CARRY_CAP {
            return None;
        }
        if low != 0 && self.scale >= CARRY_CAP {
            return None;
        }
        let d: u128 = if low == 0 {
            self.cv
        } else {
            (low as u128) * self.scale + self.cv
        };
        if d == 0 || d > op as u128 {
            None
        } else {
            Some(d as usize)
        }
    }
}

/// Copies `len` bytes inside `dst` from `d` places before `op` to `op`, byte
/// by byte, so that a copy that overlaps its own output repeats it.
pub fn copy_reference(dst: &mut [u8], op: usize, d: usize, len: usize)
    requires
        0 < d <= op,
        op + len <= old(dst)@.len(),
    ensures
        final(dst)@.len() == old(dst)@.len(),
        final(dst)@.subrange(0, op + len) == ref_copy(
            old(dst)@.subrange(0, op as int),
            d as int,
            len as nat,
        ),
        final(dst)@.subrange(op + len, old(dst)@.len() as int) == old(dst)@.subrange(
            op + len,
            old(dst)@.len() as int,
        ),
{
    let dn: usize = dst.len();
    let mut i: usize = 0;
    while i < len
        invariant
            i <= len,
            dn == dst@.len(),
            0 < d <= op,
            op + len <= dst@.len(),
            dst@.len() == old(dst)@.len(),
            ref_copy(dst@.subrange(0, op + i), d as int, (len - i) as nat) == ref_copy(
                old(dst)@.subrange(0, op as int),
                d as int,
                len as nat,
            ),
            dst@.subrange(op + i, old(dst)@.len() as int) == old(dst)@.subrange(
                op + i,
                old(dst)@.len() as int,
            ),
        decreases len - i,
    {
        let ghost before = dst@;
        let b: u8 = dst[op + i - d];
        dst[op + i] = b;
        i += 1;
        proof {
            let prev = before.subrange(0, op + i - 1);
            assert(dst@.subrange(0, op + i) =~= prev.push(prev[prev.len() - d]));
            assert(dst@.subrange(op + i, old(dst)@.len() as int) =~= before.subrange(
                op + i - 1,
                old(dst)@.len() as int,
            ).subrange(1, old(dst)@.len() - (op + i - 1)));
            assert(old(dst)@.subrange(op + i, old(dst)@.len() as int) =~= old(dst)@.subrange(
                op + i - 1,
                old(dst)@.len() as int,
            ).subrange(1, old(dst)@.len() - (op + i - 1)));
        }
    }
}

/// Decodes the block at `ip` to `dst` at `op`: the position behind the
/// block, the end of the output and the carry there, or the block's error.
pub fn decode_block(
    src: &[u8],
    dst: &mut [u8],
    ip: usize,
    op: usize,
    dstl: usize,
    carry: Carry,
    Ghost(c): Ghost<Cursor>,
) -> (r: Result<(usize, usize, Carry), DecompressError>)
    requires
        0 < ip < src@.len(),
        op <= dstl <= old(dst)@.len(),
        c.out == old(dst)@.subrange(0, op as int),
        carry.models(c.cv, c.scale),
    ensures
        final(dst)@.len() == old(dst)@.len(),
        final(dst)@.subrange(dstl as int, old(dst)@.len() as int) == old(dst)@.subrange(
            dstl as int,
            old(dst)@.len() as int,
        ),
        match step(src@, ip as int, c, dstl as nat) {
            Ok((next, c2)) => {
                &&& r is Ok
                &&& r->Ok_0.0 == next
                &&& next == block_end(src@, ip as int)
                &&& ip < next <= src@.len()
                &&& r->Ok_0.1 == c2.out.len()
                &&& op <= r->Ok_0.1 <= dstl
                &&& final(dst)@.subrange(0, r->Ok_0.1 as int) == c2.out
                &&& final(dst)@.subrange(r->Ok_0.1 as int, old(dst)@.len() as int) == old(
                    dst,
                )@.subrange(r->Ok_0.1 as int, old(dst)@.len() as int)
                &&& r->Ok_0.2.models(c2.cv, c2.scale)
            },
            Err(e) => r == Err::<(usize, usize, Carry), DecompressError>(e) && final(dst)@ == old(
                dst,
            )@,
        },
{
    let ghost total = dst@.len() as int;
    proof {
        reveal(step);
        reveal(block_limit);
    }
    match read_header(src, ip) {
        Header::Truncated => Err(DecompressError::SourceOutOfBounds),
        Header::Literal { carry: ncv, start, len } => {
            if len > src.len() - start {
                return Err(DecompressError::SourceOutOfBounds);
            }
            if len > dstl - op {
                return Err(DecompressError::DestOutOfBounds);
            }
            copy_bytes(src, dst, start, op, len);
            proof {
                lemma_writes_spliced(
                    old(dst)@,
                    dst@,
                    op as int,
                    src@.subrange(start as int, start + len),
                );
                assert(dst@.subrange(0, op + len) =~= c.out + src@.subrange(
                    start as int,
                    start + len,
                ));
                assert(dst@.subrange(dstl as int, total) =~= old(dst)@.subrange(
                    dstl as int,
                    total,
                ));
                assert(dst@.subrange(op + len, total) =~= old(dst)@.subrange(op + len, total));
            }
            Ok((start + len, op + len, carry.after_literal(ncv)))
        },
        Header::Reference { kind, low, carry: ncv, len, next } => {
            let d: usize = match carry.distance(low, op) {
                Some(d) => d,
                None => {
                    return Err(DecompressError::ReferenceOutOfBounds);
                },
            };
            if len > dstl - op {
                return Err(DecompressError::DestOutOfBounds);
            }
            copy_reference(dst, op, d, len);
            proof {
                assert(dst@.subrange(dstl as int, total) =~= dst@.subrange(
                    op + len,
                    total,
                ).subrange(dstl - op - len, total - op - len));
                assert(old(dst)@.subrange(dstl as int, total) =~= old(dst)@.subrange(
                    op + len,
                    total,
                ).subrange(dstl - op - len, total - op - len));
            }
            Ok((next, op + len, Carry::after_reference(kind, ncv)))
        },
    }
}

/// What [`lzav_decompress`] gives for the stream `s`, a destination of
/// `cap` bytes and the expected length `dstl`: a parameter error where the
/// stream is not empty and the destination is too short; else what the
/// stream decompresses to.
pub open spec fn decompressed(s: Seq<u8>, cap: nat, dstl: nat) -> Result<Seq<u8>, DecompressError> {
    if s.len() > 0 && cap < dstl {
        Err(DecompressError::InvalidParams)
    } else {
        decoded(s, dstl)
    }
}

/// What a decompression that fails has written to a destination of `cap`
/// bytes by then: nothing where the parameters, the format or the length
/// of the stream are at fault; else the output of the blocks before the
/// one that fails.
pub open spec fn kept_output(s: Seq<u8>, cap: nat, dstl: nat) -> Seq<u8> {
    if cap < dstl {
        Seq::empty()
    } else {
        kept_on_error(s, dstl)
    }
}

/// What the destination `before` holds after [`lzav_decompress`]: behind
/// a success the output and what lay behind the first `dstl` bytes; behind
/// an error what was written by then and the rest as it was.
pub open spec fn left_in(s: Seq<u8>, dstl: nat, before: Seq<u8>) -> Seq<u8> {
    match decompressed(s, before.len(), dstl) {
        Ok(out) => out + before.subrange(dstl as int, before.len() as int),
        Err(e) => kept_output(s, before.len(), dstl) + before.subrange(
            kept_output(s, before.len(), dstl).len() as int,
            before.len() as int,
        ),
    }
}

/// Decompresses `src` to the first `dstl` bytes of `dst`.
pub fn decompress_internal(src: &[u8], dst: &mut [u8], dstl: usize) -> (r: Result<
    usize,
    DecompressError,
>)
    ensures
        final(dst)@.len() == old(dst)@.len(),
        final(dst)@ == left_in(src@, dstl as nat, old(dst)@),
        match decompressed(src@, old(dst)@.len(), dstl as nat) {
            Ok(out) => r == Ok::<usize, DecompressError>(dstl),
            Err(e) => r == Err::<usize, DecompressError>(e),
        },
{
    let srcl: usize = src.len();
    let cap: usize = dst.len();
    assert(dst@ =~= Seq::<u8>::empty() + dst@.subrange(0, cap as int));
    if srcl == 0 {
        if dstl == 0 {
            return Ok(0);
        }
        return Err(DecompressError::InvalidParams);
    }
    if cap < dstl {
        return Err(DecompressError::InvalidParams);
    }
    if src[0] / 16 != 2 {
        return Err(DecompressError::UnknownFormat);
    }
    if srcl < 6 {
        return Err(DecompressError::SourceOutOfBounds);
    }
    let end: usize = srcl - 6;
    let mut ip: usize = 1;
    let mut op: usize = 0;
    let mut carry = Carry::new();
    let ghost mut c = start_cursor();
    assert(c.out =~= dst@.subrange(0, 0));
    while ip < end
        invariant
            srcl == src@.len(),
            cap == dst@.len(),
            cap == old(dst)@.len(),
            end == srcl - 6,
            src@[0] / 16 == 2,
            1 <= ip <= srcl,
            op <= dstl <= cap,
            c.out == dst@.subrange(0, op as int),
            carry.models(c.cv, c.scale),
            dst@.subrange(op as int, cap as int) == old(dst)@.subrange(op as int, cap as int),
            decode_blocks(src@, 1, start_cursor(), end as int, dstl as nat) == decode_blocks(
                src@,
                ip as int,
                c,
                end as int,
                dstl as nat,
            ),
            kept_blocks(src@, 1, start_cursor(), end as int, dstl as nat) == kept_blocks(
                src@,
                ip as int,
                c,
                end as int,
                dstl as nat,
            ),
        decreases srcl - ip,
    {
        let ghost st = step(src@, ip as int, c, dstl as nat);
        let ghost before = dst@;
        match decode_block(src, dst, ip, op, dstl, carry, Ghost(c)) {
            Err(e) => {
                assert(st == Err::<(int, Cursor), DecompressError>(e));
                assert(decode_blocks(src@, ip as int, c, end as int, dstl as nat) == Err::<
                    Cursor,
                    DecompressError,
                >(e));
                assert(kept_blocks(src@, ip as int, c, end as int, dstl as nat) == c.out);
                assert(dst@ =~= c.out + old(dst)@.subrange(op as int, cap as int));
                return Err(e);
            },
            Ok((next, out_end, k)) => {
                proof {
                    c = st->Ok_0.1;
                    assert(before.subrange(out_end as int, cap as int) =~= before.subrange(
                        op as int,
                        cap as int,
                    ).subrange(out_end - op, cap - op));
                    assert(old(dst)@.subrange(out_end as int, cap as int) =~= old(dst)@.subrange(
                        op as int,
                        cap as int,
                    ).subrange(out_end - op, cap - op));
                }
                ip = next;
                op = out_end;
                carry = k;
            },
        }
    }
    assert(dst@ =~= c.out + old(dst)@.subrange(op as int, cap as int));
    if op != dstl {
        return Err(DecompressError::DestLengthMismatch);
    }
    Ok(op)
}

/// Decompresses the stream `src` to exactly `dstl` bytes at the start of
/// `dst`, and returns `dstl`, or the code of the first error met.
///
/// An empty stream decompresses to nothing. A stream that is not empty
/// needs a destination of at least `dstl` bytes. Behind a success, what
/// lies in `dst` behind the first `dstl` bytes is left as it was; behind an
/// error, `dst` holds the output of the blocks before the one that failed,
/// and is left as it was behind that.
pub fn lzav_decompress(src: &[u8], dst: &mut [u8], dstl: usize) -> (r: Result<usize, i32>)
    ensures
        final(dst)@.len() == old(dst)@.len(),
        final(dst)@ == left_in(src@, dstl as nat, old(dst)@),
        match decompressed(src@, old(dst)@.len(), dstl as nat) {
            Ok(out) => r == Ok::<usize, i32>(dstl),
            Err(e) => r == Err::<usize, i32>(e.code_spec()),
        },
{
    match decompress_internal(src, dst, dstl) {
        Ok(size) => Ok(size),
        Err(e) => Err(e.code()),
    }
}

/// Decompresses as much of the stream `src` as the stream holds and as
/// fits in the first `dstl` bytes of `dst`, and returns the number of bytes
/// written. It never fails: where the stream is broken the result is what
/// was decoded up to there, and 0 for a stream of another format.
///
/// The blocks are those that a full decompression takes, none of which
/// starts in the last six bytes of the stream; only the first block is
/// taken wherever the stream ends. So a stream that decompresses to
/// something gives just that, or the start of it, whatever room there is.
///
/// What lies in `dst` behind the bytes written is left as it was.
#[verifier::rlimit(40)]
pub fn lzav_decompress_partial(src: &[u8], dst: &mut [u8], dstl: usize) -> (n: usize)
    ensures
        n <= dstl,
        n <= old(dst)@.len(),
        final(dst)@ == partly_decoded(src@, least(dstl as int, old(dst)@.len() as int) as nat)
            + old(dst)@.subrange(n as int, old(dst)@.len() as int),
        n == partly_decoded(src@, least(dstl as int, old(dst)@.len() as int) as nat).len(),
{
    let srcl: usize = src.len();
    let cap: usize = dst.len();
    let limit: usize = if dstl < cap {
        dstl
    } else {
        cap
    };
    if srcl == 0 || limit == 0 || src[0] / 16 != 2 {
        assert(dst@ =~= Seq::<u8>::empty() + dst@.subrange(0, cap as int));
        return 0;
    }
    let mut ip: usize = 1;
    let mut op: usize = 0;
    let mut carry = Carry::new();
    let ghost mut c = start_cursor();
    let mut first: bool = true;
    let ghost whole = partial_blocks(src@, 1, start_cursor(), limit as nat, true);
    assert(dst@ =~= c.out + old(dst)@.subrange(0, cap as int));
    while ip < srcl && op < limit && (first || srcl - ip > 6)
        invariant_except_break
            whole == partial_blocks(src@, ip as int, c, limit as nat, first),
        invariant
            srcl == src@.len(),
            cap == dst@.len(),
            cap == old(dst)@.len(),
            1 <= ip,
            op <= limit <= cap,
            c.out.len() == op,
            dst@ == c.out + old(dst)@.subrange(op as int, cap as int),
            carry.models(c.cv, c.scale),
        ensures
            dst@ == whole + old(dst)@.subrange(op as int, cap as int),
            op == whole.len(),
            op <= limit <= cap,
            cap == old(dst)@.len(),
        decreases srcl - ip,
    {
        proof {
            reveal(block_limit);
        }
        let ghost before = dst@;
        let ghost was_first = first;
        first = false;
        match read_header(src, ip) {
            Header::Truncated => {
                assert(whole == partial_blocks(src@, ip as int, c, limit as nat, was_first));
                break ;
            },
            Header::Literal { carry: ncv, start, len } => {
                let avail: usize = srcl - start;
                let room: usize = limit - op;
                let fit: usize = if len <= avail {
                    len
                } else {
                    avail
                };
                let n: usize = if fit <= room {
                    fit
                } else {
                    room
                };
                copy_bytes(src, dst, start, op, n);
                carry = carry.after_literal(ncv);
                proof {
                    lemma_writes_spliced(
                        before,
                        dst@,
                        op as int,
                        src@.subrange(start as int, start + n),
                    );
                    let out = c.out + src@.subrange(start as int, start + n);
                    assert(before.subrange(0, op as int) =~= c.out);
                    assert(before.subrange(op + n, cap as int) =~= old(dst)@.subrange(
                        op + n,
                        cap as int,
                    ));
                    c = Cursor {
                        out,
                        cv: (c.cv + ncv * c.scale) as nat,
                        scale: 4 * c.scale,
                    };
                }
                op = op + n;
                if n < len {
                    break ;
                }
                ip = start + len;
            },
            Header::Reference { kind, low, carry: ncv, len, next } => {
                let d: usize = match carry.distance(low, op) {
                    Some(d) => d,
                    None => {
                        break ;
                    },
                };
                let room: usize = limit - op;
                let n: usize = if len <= room {
                    len
                } else {
                    room
                };
                copy_reference(dst, op, d, n);
                proof {
                    assert(before.subrange(0, op as int) =~= c.out);
                    let out = ref_copy(c.out, d as int, n as nat);
                    assert(dst@ =~= dst@.subrange(0, op + n) + dst@.subrange(op + n, cap as int));
                    assert(before.subrange(op + n, cap as int) =~= old(dst)@.subrange(
                        op + n,
                        cap as int,
                    ));
                    c = Cursor { out, cv: ncv as nat, scale: scale_after(kind as nat) };
                }
                carry = Carry::after_reference(kind, ncv);
                op = op + n;
                if n < len {
                    break ;
                }
                ip = next;
            },
        }
    }
    op
}

} // verus!
