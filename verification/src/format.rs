//! The stream format, as a mathematical model.
//!
//! A stream is a prefix byte followed by blocks. The prefix byte holds the
//! format number in its high nibble and the minimal reference length in its
//! low nibble. Bits 4 and 5 of a block's first byte tell its kind:
//!
//! * `00`: a literal block. The low nibble is the number of raw bytes that
//!   follow; a zero nibble announces a base-128 length of at most four bytes,
//!   to which 16 is added.
//! * `01`, `10`, `11`: a reference block with one, two or three offset
//!   bytes. A low nibble from 1 to 15 is the length less the minimal
//!   reference length, so it stands for 7 to 21 bytes; a zero nibble
//!   announces one or two more length bytes behind the offset bytes, which
//!   stand for 21 bytes and more. No code stands for a reference of
//!   exactly the minimal length.
//!
//! The distance of a reference is spread over several places. Its lowest
//! bits may sit in the three top bits of the last offset byte of the
//! previous three-byte reference and in the two top bits of the literal
//! header in between; the rest is in the block itself. [`Cursor`] carries
//! those pending low bits from block to block.

use vstd::prelude::*;
use crate::errors::DecompressError;

verus! {

/// What the header at one position of a stream announces.
pub enum Block {
    /// `len` raw bytes from position `start`, and `carry`, two low bits of
    /// the next reference's distance.
    Literal { carry: nat, start: int, len: nat },
    /// A copy of `len` bytes. `low` is the part of the distance that the
    /// block holds, `carry` the low bits of the next reference's distance,
    /// `kind` the number of offset bytes, `next` the position behind the
    /// block.
    Reference { kind: nat, low: nat, carry: nat, len: nat, next: int },
    /// The stream ends inside the header.
    Truncated,
}

/// The decoder between two blocks: the output so far, and the low bits of
/// the next distance that earlier blocks carried, `cv < scale`, where
/// `scale` is two to the number of those bits.
pub struct Cursor {
    pub out: Seq<u8>,
    pub cv: nat,
    pub scale: nat,
}

/// The cursor in front of the first block.
pub open spec fn start_cursor() -> Cursor {
    Cursor { out: Seq::empty(), cv: 0, scale: 1 }
}

/// The minimal reference length that the prefix byte announces.
pub open spec fn min_ref(s: Seq<u8>) -> nat {
    (s[0] % 16) as nat
}

/// The base-128 number at `p`, low digits first, and the position behind
/// it. A byte under 128 ends the number, and so does the fourth byte.
pub open spec fn varint_at(s: Seq<u8>, p: int) -> Option<(nat, int)> {
    if p >= s.len() {
        None
    } else if s[p] < 128 {
        Some((s[p] as nat, p + 1))
    } else if p + 1 >= s.len() {
        None
    } else if s[p + 1] < 128 {
        Some(((s[p] % 128 + 128 * s[p + 1]) as nat, p + 2))
    } else if p + 2 >= s.len() {
        None
    } else if s[p + 2] < 128 {
        Some(((s[p] % 128 + 128 * (s[p + 1] % 128) + 16384 * s[p + 2]) as nat, p + 3))
    } else if p + 3 >= s.len() {
        None
    } else {
        Some(
            ((s[p] % 128 + 128 * (s[p + 1] % 128) + 16384 * (s[p + 2] % 128) + 2097152 * (s[p + 3]
                % 128)) as nat, p + 4),
        )
    }
}

/// The literal block whose header is at `ip`.
pub open spec fn literal_at(s: Seq<u8>, ip: int) -> Block {
    let bh = s[ip];
    if bh % 16 != 0 {
        Block::Literal { carry: (bh / 64) as nat, start: ip + 1, len: (bh % 16) as nat }
    } else {
        match varint_at(s, ip + 1) {
            Some((v, next)) => Block::Literal { carry: (bh / 64) as nat, start: next, len: 16 + v },
            None => Block::Truncated,
        }
    }
}

/// The `kind` offset bytes at `p`, read as a little-endian number.
pub open spec fn offset_at(s: Seq<u8>, p: int, kind: nat) -> nat {
    if kind == 1 {
        s[p] as nat
    } else if kind == 2 {
        (s[p] + 256 * s[p + 1]) as nat
    } else {
        (s[p] + 256 * s[p + 1] + 65536 * s[p + 2]) as nat
    }
}

/// The reference block whose header is at `ip`.
pub open spec fn reference_at(s: Seq<u8>, ip: int) -> Block {
    let bh = s[ip];
    let kind = ((bh / 16) % 4) as nat;
    let base = min_ref(s) - 1;
    if ip + kind >= s.len() {
        Block::Truncated
    } else {
        let o = offset_at(s, ip + 1, kind);
        let low = (bh / 64 + 4 * (o % 0x200000)) as nat;
        let carry = o / 0x200000;
        if bh % 16 != 0 {
            Block::Reference {
                kind,
                low,
                carry,
                len: (bh % 16 + base + 1) as nat,
                next: ip + kind + 1,
            }
        } else if ip + kind + 1 >= s.len() {
            Block::Truncated
        } else if s[ip + kind + 1] != 255 {
            Block::Reference {
                kind,
                low,
                carry,
                len: (16 + base + s[ip + kind + 1]) as nat,
                next: ip + kind + 2,
            }
        } else if ip + kind + 2 >= s.len() {
            Block::Truncated
        } else {
            Block::Reference {
                kind,
                low,
                carry,
                len: (16 + base + 255 + s[ip + kind + 2]) as nat,
                next: ip + kind + 3,
            }
        }
    }
}

/// The block whose header is at `ip`, for `0 < ip < s.len()`.
pub open spec fn block_at(s: Seq<u8>, ip: int) -> Block {
    if (s[ip] / 16) % 4 == 0 {
        literal_at(s, ip)
    } else {
        reference_at(s, ip)
    }
}

/// `out` followed by `len` bytes, each a copy of the byte `d` places before
/// it. With `d < len` the copy reads what it has just written.
pub open spec fn ref_copy(out: Seq<u8>, d: int, len: nat) -> Seq<u8>
    decreases len,
{
    if len == 0 {
        out
    } else {
        ref_copy(out.push(out[out.len() - d]), d, (len - 1) as nat)
    }
}

/// The scale behind a reference block with `kind` offset bytes.
pub open spec fn scale_after(kind: nat) -> nat {
    if kind == 3 {
        8
    } else {
        1
    }
}

/// One block of the full decoder: the position behind the block at `ip` and
/// the cursor there, or the error that the block gives when at most `dstl`
/// bytes may be written.
#[verifier::opaque]
pub open spec fn step(s: Seq<u8>, ip: int, c: Cursor, dstl: nat) -> Result<
    (int, Cursor),
    DecompressError,
> {
    match block_at(s, ip) {
        Block::Truncated => Err(DecompressError::SourceOutOfBounds),
        Block::Literal { carry, start, len } => {
            if start + len > s.len() {
                Err(DecompressError::SourceOutOfBounds)
            } else if c.out.len() + len > dstl {
                Err(DecompressError::DestOutOfBounds)
            } else {
                Ok(
                    (
                        start + len,
                        Cursor {
                            out: c.out + s.subrange(start, start + len),
                            cv: c.cv + carry * c.scale,
                            scale: 4 * c.scale,
                        },
                    ),
                )
            }
        },
        Block::Reference { kind, low, carry, len, next } => {
            let d = low * c.scale + c.cv;
            if d == 0 || d > c.out.len() {
                Err(DecompressError::ReferenceOutOfBounds)
            } else if c.out.len() + len > dstl {
                Err(DecompressError::DestOutOfBounds)
            } else {
                Ok(
                    (
                        next,
                        Cursor { out: ref_copy(c.out, d as int, len), cv: carry, scale: scale_after(kind) },
                    ),
                )
            }
        },
    }
}

/// The position behind the block at `ip` as its header gives it.
#[verifier::opaque]
pub open spec fn block_limit(s: Seq<u8>, ip: int) -> int {
    match block_at(s, ip) {
        Block::Truncated => ip + 1,
        Block::Literal { carry, start, len } => start + len,
        Block::Reference { kind, low, carry, len, next } => next,
    }
}

/// The position behind the block at `ip`, and past `ip` in any case.
pub open spec fn block_end(s: Seq<u8>, ip: int) -> int {
    if block_limit(s, ip) > ip {
        block_limit(s, ip)
    } else {
        ip + 1
    }
}

/// The blocks from `ip` on, one after the other, as long as a block starts
/// before `end`.
pub open spec fn decode_blocks(s: Seq<u8>, ip: int, c: Cursor, end: int, dstl: nat) -> Result<
    Cursor,
    DecompressError,
>
    decreases
            (if ip < end {
                end - ip
            } else {
                0
            }),
{
    if ip >= end {
        Ok(c)
    } else {
        match step(s, ip, c, dstl) {
            Err(e) => Err(e),
            Ok(r) => decode_blocks(s, block_end(s, ip), r.1, end, dstl),
        }
    }
}

/// What decompressing the stream `s` to exactly `dstl` bytes gives.
///
/// The last six bytes of a stream never start a block: they belong to the
/// literal block that ends it.
pub open spec fn decoded(s: Seq<u8>, dstl: nat) -> Result<Seq<u8>, DecompressError> {
    if s.len() == 0 {
        if dstl == 0 {
            Ok(Seq::empty())
        } else {
            Err(DecompressError::InvalidParams)
        }
    } else if s[0] / 16 != 2 {
        Err(DecompressError::UnknownFormat)
    } else if s.len() < 6 {
        Err(DecompressError::SourceOutOfBounds)
    } else {
        match decode_blocks(s, 1, start_cursor(), s.len() - 6, dstl) {
            Err(e) => Err(e),
            Ok(c) => if c.out.len() == dstl {
                Ok(c.out)
            } else {
                Err(DecompressError::DestLengthMismatch)
            },
        }
    }
}

/// The output of the blocks from `ip` on that decode before a block fails
/// or the blocks end.
pub open spec fn kept_blocks(s: Seq<u8>, ip: int, c: Cursor, end: int, dstl: nat) -> Seq<u8>
    decreases
            (if ip < end {
                end - ip
            } else {
                0
            }),
{
    if ip >= end {
        c.out
    } else {
        match step(s, ip, c, dstl) {
            Err(e) => c.out,
            Ok(r) => kept_blocks(s, block_end(s, ip), r.1, end, dstl),
        }
    }
}

/// What a decompression of the stream `s` that fails has written by then:
/// nothing where the stream is empty, of another format or shorter than
/// six bytes; else the output of the blocks before the one that fails.
pub open spec fn kept_on_error(s: Seq<u8>, dstl: nat) -> Seq<u8> {
    if s.len() < 6 || s[0] / 16 != 2 {
        Seq::empty()
    } else {
        kept_blocks(s, 1, start_cursor(), s.len() - 6, dstl)
    }
}

/// The smaller of two numbers.
pub open spec fn least(a: int, b: int) -> int {
    if a <= b {
        a
    } else {
        b
    }
}

/// The blocks from `ip` on, decoded as far as the stream and `limit` bytes
/// of output allow. The block at `ip` is taken where `first` says that it
/// is the first of the stream; any other only where it starts more than
/// six bytes before the end of the stream, as in a full decompression. A
/// block that does not fit is cut short and ends the decoding; so does a
/// header that the stream breaks off in, and a reference to before the
/// start of the output.
pub open spec fn partial_blocks(s: Seq<u8>, ip: int, c: Cursor, limit: nat, first: bool) -> Seq<u8>
    decreases
            (if ip < s.len() {
                s.len() - ip
            } else {
                0
            }),
{
    if ip >= s.len() || c.out.len() >= limit || (!first && ip + 6 >= s.len()) {
        c.out
    } else {
        match block_at(s, ip) {
            Block::Truncated => c.out,
            Block::Literal { carry, start, len } => {
                let n = least(least(len as int, s.len() - start), limit - c.out.len());
                let out = c.out + s.subrange(start, start + n);
                if n < len {
                    out
                } else {
                    partial_blocks(
                        s,
                        block_end(s, ip),
                        Cursor { out, cv: c.cv + carry * c.scale, scale: 4 * c.scale },
                        limit,
                        false,
                    )
                }
            },
            Block::Reference { kind, low, carry, len, next } => {
                let d = low * c.scale + c.cv;
                let n = least(len as int, limit - c.out.len());
                if d == 0 || d > c.out.len() {
                    c.out
                } else if n < len {
                    ref_copy(c.out, d as int, n as nat)
                } else {
                    partial_blocks(
                        s,
                        block_end(s, ip),
                        Cursor { out: ref_copy(c.out, d as int, len), cv: carry, scale: scale_after(kind) },
                        limit,
                        false,
                    )
                }
            },
        }
    }
}

/// What a partial decompression of the stream `s` writes when at most
/// `limit` bytes may be written. The blocks are those of a full
/// decompression, but that the first block is taken however short the
/// stream is: a stream that was cut off in its first blocks still gives
/// what it holds.
pub open spec fn partly_decoded(s: Seq<u8>, limit: nat) -> Seq<u8> {
    if s.len() == 0 || limit == 0 || s[0] / 16 != 2 {
        Seq::empty()
    } else {
        partial_blocks(s, 1, start_cursor(), limit, true)
    }
}

/// A copy that is cut short gives the start of the whole copy.
pub proof fn lemma_ref_copy_prefix(out: Seq<u8>, d: int, len: nat, n: nat)
    requires
        0 < d <= out.len(),
        n <= len,
    ensures
        ref_copy(out, d, len).len() == out.len() + len,
        ref_copy(out, d, len).subrange(0, (out.len() + n) as int) == ref_copy(out, d, n),
    decreases len,
{
    if len > 0 {
        let next = out.push(out[out.len() - d]);
        if n == 0 {
            lemma_ref_copy_prefix(next, d, (len - 1) as nat, 0);
            assert(ref_copy(out, d, len).subrange(0, out.len() as int) =~= ref_copy(
                next,
                d,
                (len - 1) as nat,
            ).subrange(0, next.len() as int).subrange(0, out.len() as int));
            assert(next.subrange(0, out.len() as int) =~= out);
        } else {
            lemma_ref_copy_prefix(next, d, (len - 1) as nat, (n - 1) as nat);
        }
    } else {
        assert(out.subrange(0, out.len() as int) =~= out);
    }
}

/// Decoding only adds to the output.
pub proof fn lemma_decode_extends(s: Seq<u8>, ip: int, c: Cursor, end: int, dstl: nat, fin: Cursor)
    requires
        decode_blocks(s, ip, c, end, dstl) == Ok::<Cursor, DecompressError>(fin),
    ensures
        c.out.len() <= fin.out.len(),
        fin.out.subrange(0, c.out.len() as int) == c.out,
    decreases
            (if ip < end {
                end - ip
            } else {
                0
            }),
{
    if ip >= end {
        assert(c.out.subrange(0, c.out.len() as int) =~= c.out);
    } else {
        reveal(step);
        let r = step(s, ip, c, dstl);
        let c2 = r->Ok_0.1;
        lemma_decode_extends(s, block_end(s, ip), c2, end, dstl, fin);
        match block_at(s, ip) {
            Block::Truncated => {},
            Block::Literal { carry, start, len } => {
                assert(fin.out.subrange(0, c.out.len() as int) =~= fin.out.subrange(
                    0,
                    c2.out.len() as int,
                ).subrange(0, c.out.len() as int));
                assert(c2.out.subrange(0, c.out.len() as int) =~= c.out);
            },
            Block::Reference { kind, low, carry, len, next } => {
                let d = (low * c.scale + c.cv) as int;
                lemma_ref_copy_prefix(c.out, d, len, 0);
                assert(ref_copy(c.out, d, 0) == c.out);
                assert(fin.out.subrange(0, c.out.len() as int) =~= fin.out.subrange(
                    0,
                    c2.out.len() as int,
                ).subrange(0, c.out.len() as int));
            },
        }
    }
}

/// Where the blocks from `ip` on decode without an error, decoding them
/// partly gives what they give, or the start of it where the limit is
/// less.
pub proof fn lemma_partial_blocks_prefix(
    s: Seq<u8>,
    ip: int,
    c: Cursor,
    dstl: nat,
    limit: nat,
    fin: Cursor,
    first: bool,
)
    requires
        0 < ip,
        6 <= s.len(),
        decode_blocks(s, ip, c, s.len() - 6, dstl) == Ok::<Cursor, DecompressError>(fin),
        c.out.len() <= limit,
        first ==> ip + 6 < s.len(),
    ensures
        c.out.len() <= fin.out.len(),
        partial_blocks(s, ip, c, limit, first) == fin.out.subrange(
            0,
            least(limit as int, fin.out.len() as int),
        ),
    decreases
            (if ip < s.len() - 6 {
                s.len() - 6 - ip
            } else {
                0
            }),
{
    let end = s.len() - 6;
    lemma_decode_extends(s, ip, c, end, dstl, fin);
    if ip >= end {
        assert(c.out.subrange(0, c.out.len() as int) =~= c.out);
    } else if c.out.len() >= limit {
    } else {
        reveal(step);
        reveal(block_limit);
        let r = step(s, ip, c, dstl);
        let c2 = r->Ok_0.1;
        let have = c.out.len() as int;
        lemma_decode_extends(s, block_end(s, ip), c2, end, dstl, fin);
        match block_at(s, ip) {
            Block::Truncated => {},
            Block::Literal { carry, start, len } => {
                let n = least(least(len as int, s.len() - start), limit - have);
                if n < len {
                    assert(fin.out.subrange(0, limit as int) =~= fin.out.subrange(
                        0,
                        c2.out.len() as int,
                    ).subrange(0, limit as int));
                    assert(c2.out.subrange(0, limit as int) =~= c.out + s.subrange(
                        start,
                        start + n,
                    ));
                } else {
                    assert(s.subrange(start, start + n) == s.subrange(start, start + len));
                    lemma_partial_blocks_prefix(s, block_end(s, ip), c2, dstl, limit, fin, false);
                }
            },
            Block::Reference { kind, low, carry, len, next } => {
                let d = (low * c.scale + c.cv) as int;
                let n = least(len as int, limit - have);
                if n < len {
                    lemma_ref_copy_prefix(c.out, d, len, n as nat);
                    assert(fin.out.subrange(0, limit as int) =~= fin.out.subrange(
                        0,
                        c2.out.len() as int,
                    ).subrange(0, limit as int));
                } else {
                    lemma_ref_copy_prefix(c.out, d, len, len);
                    lemma_partial_blocks_prefix(s, block_end(s, ip), c2, dstl, limit, fin, false);
                }
            },
        }
    }
}

/// Where a stream decompresses to `out`, which is not empty, a partial
/// decompression gives `out`, or the start of `out` where its limit is
/// less than the length of `out`.
///
/// An output of no bytes is left out: a stream too short for a full
/// decompression to take any block decompresses to nothing, and its first
/// block is still decoded partly.
pub proof fn lemma_partial_is_prefix(s: Seq<u8>, dstl: nat, limit: nat, out: Seq<u8>)
    requires
        decoded(s, dstl) == Ok::<Seq<u8>, DecompressError>(out),
        dstl > 0,
    ensures
        out.len() == dstl,
        partly_decoded(s, limit) == out.subrange(0, least(limit as int, dstl as int)),
{
    if limit == 0 {
        assert(out.subrange(0, 0) =~= Seq::<u8>::empty());
    } else {
        let r = decode_blocks(s, 1, start_cursor(), s.len() - 6, dstl);
        lemma_partial_blocks_prefix(s, 1, start_cursor(), dstl, limit, r->Ok_0, true);
    }
}

} // verus!
