//! The bytes that the compressor writes for each block, and the proofs that
//! the decoder of [`crate::format`] reads them back.

use vstd::prelude::*;
use crate::errors::DecompressError;
use crate::format::{
    block_at, block_end, block_limit, decode_blocks, decoded, offset_at, ref_copy, scale_after,
    start_cursor, step, varint_at, Block, Cursor,
};

verus! {

/// The prefix byte of a stream: format 2, minimal reference length 6.
pub const PREFIX_BYTE: u8 = 0x26;

/// The base-128 digits of `v`, low digits first, each but the last with its
/// top bit set. Four bytes hold every `v` under `2^28`.
pub open spec fn varint_bytes(v: nat) -> Seq<u8> {
    if v < 128 {
        seq![v as u8]
    } else if v < 16384 {
        seq![(128 + v % 128) as u8, (v / 128) as u8]
    } else if v < 2097152 {
        seq![(128 + v % 128) as u8, (128 + (v / 128) % 128) as u8, (v / 16384) as u8]
    } else {
        seq![
            (128 + v % 128) as u8,
            (128 + (v / 128) % 128) as u8,
            (128 + (v / 16384) % 128) as u8,
            (v / 2097152) as u8,
        ]
    }
}

/// The header of a literal block of `len` bytes that carries the two bits
/// `ncv`.
pub open spec fn literal_header(ncv: nat, len: nat) -> Seq<u8> {
    if len < 16 {
        seq![(64 * ncv + len) as u8]
    } else {
        seq![(64 * ncv) as u8] + varint_bytes((len - 16) as nat)
    }
}

/// The number of offset bytes that the distance bits `d` take.
pub open spec fn ref_kind(d: nat) -> nat {
    if d > 0x3FFFF {
        3
    } else if d > 0x3FF {
        2
    } else {
        1
    }
}

/// The header byte and the offset bytes of a reference block: the number
/// `d * 64 + kind * 16 + nib`, low byte first.
pub open spec fn reference_head(d: nat, nib: nat) -> Seq<u8> {
    let kind = ref_kind(d);
    let ov = d * 64 + kind * 16 + nib;
    if kind == 1 {
        seq![(ov % 256) as u8, (ov / 256) as u8]
    } else if kind == 2 {
        seq![(ov % 256) as u8, ((ov / 256) % 256) as u8, (ov / 65536) as u8]
    } else {
        seq![
            (ov % 256) as u8,
            ((ov / 256) % 256) as u8,
            ((ov / 65536) % 256) as u8,
            (ov / 16777216) as u8,
        ]
    }
}

/// The length nibble of a reference block of `len` bytes: the length less
/// 6 for 7 to 21 bytes, and 0, which announces length bytes, for more.
pub open spec fn length_nibble(len: nat) -> nat {
    if len < 22 {
        (len - 6) as nat
    } else {
        0
    }
}

/// The length bytes behind the offset bytes of a reference block of `len`
/// bytes: none up to 21 bytes; one byte, the length less 21, up to 275
/// bytes; the byte 255 and the length less 276 above that.
pub open spec fn length_tail(len: nat) -> Seq<u8> {
    if len < 22 {
        Seq::empty()
    } else if len < 276 {
        seq![(len - 21) as u8]
    } else {
        seq![255u8, (len - 276) as u8]
    }
}

/// A reference block of `len` bytes, `7 <= len <= 530`, with the distance
/// bits `d < 2^23`.
///
/// The nibble is the length less 6, as the decoder reads it back. Where
/// the layout is told in two ways, the length byte is the one that the
/// decoder's reading asks for, the length less 21, which also gives 530
/// bytes as the longest reference. The layout has no code for a reference
/// of exactly 6 bytes, a zero nibble being taken; the match finder gives
/// such a match up.
pub open spec fn reference_bytes(d: nat, len: nat) -> Seq<u8> {
    reference_head(d, length_nibble(len)) + length_tail(len)
}

/// `s` with the number `c` added into the three top bits of the byte at
/// `at`.
pub open spec fn patched(s: Seq<u8>, at: int, c: nat) -> Seq<u8> {
    s.update(at, (s[at] + 32 * c) as u8)
}

/// The base-128 number that was written is the one that is read.
#[verifier::rlimit(40)]
pub proof fn lemma_varint_parses(s: Seq<u8>, p: int, v: nat)
    requires
        v < 0x1000_0000,
        0 <= p,
        p + varint_bytes(v).len() <= s.len(),
        s.subrange(p, p + varint_bytes(v).len()) == varint_bytes(v),
    ensures
        varint_at(s, p) == Some((v, p + varint_bytes(v).len())),
{
    let vb = varint_bytes(v);
    let n = vb.len() as int;
    assert forall|i: int| 0 <= i < n implies s[p + i] == vb[i] by {
        assert(s.subrange(p, p + n)[i] == s[p + i]);
    }
    assert(s[p] == vb[0]);
    if v >= 128 {
        assert(s[p + 1] == vb[1]);
        if v >= 16384 {
            assert(s[p + 2] == vb[2]);
            if v >= 2097152 {
                assert(s[p + 3] == vb[3]);
            }
        }
    }
}

/// A literal header that was written is read as the literal block it was
/// written for.
pub proof fn lemma_literal_parses(s: Seq<u8>, ip: int, ncv: nat, len: nat)
    requires
        ncv < 4,
        0 < len < 0x1000_0010,
        0 <= ip,
        ip + literal_header(ncv, len).len() <= s.len(),
        s.subrange(ip, ip + literal_header(ncv, len).len()) == literal_header(ncv, len),
    ensures
        block_at(s, ip) == (Block::Literal {
            carry: ncv,
            start: ip + literal_header(ncv, len).len(),
            len,
        }),
{
    let h = literal_header(ncv, len);
    let n = h.len() as int;
    assert(s.subrange(ip, ip + n)[0] == s[ip]);
    assert(s[ip] == h[0]);
    if len >= 16 {
        let v = (len - 16) as nat;
        let vb = varint_bytes(v);
        assert(h.subrange(1, n) =~= vb);
        assert(s.subrange(ip + 1, ip + 1 + vb.len()) =~= s.subrange(ip, ip + n).subrange(1, n));
        lemma_varint_parses(s, ip + 1, v);
    }
}

/// The bit fields of the header byte of a reference block.
pub proof fn lemma_head_low(d: nat, nib: nat)
    requires
        d < 0x80_0000,
        nib < 16,
    ensures
        ((d * 64 + ref_kind(d) * 16 + nib) % 256) / 64 == d % 4,
        (((d * 64 + ref_kind(d) * 16 + nib) % 256) / 16) % 4 == ref_kind(d),
        ((d * 64 + ref_kind(d) * 16 + nib) % 256) % 16 == nib,
{
    let kind = ref_kind(d);
    let low = (d % 4) * 64 + kind * 16 + nib;
    assert(d * 64 + kind * 16 + nib == (d / 4) * 256 + low);
    assert(0 <= low < 256);
    assert(((d / 4) * 256 + low) % 256 == low) by (nonlinear_arith)
        requires
            0 <= low < 256,
    ;
}

/// The offset bytes of a reference block, put together again.
pub proof fn lemma_head_high(d: nat, nib: nat)
    requires
        d < 0x80_0000,
        nib < 16,
    ensures
        (d * 64 + ref_kind(d) * 16 + nib) / 256 == d / 4,
        ref_kind(d) == 1 ==> d / 4 < 256,
        ref_kind(d) == 2 ==> (d / 4) / 256 < 256,
        (d / 4) / 65536 < 32,
        (d / 4) % 256 + 256 * ((d / 4) / 256) == d / 4,
        (d / 4) % 256 + 256 * (((d / 4) / 256) % 256) + 65536 * ((d / 4) / 65536) == d / 4,
{
    let kind = ref_kind(d);
    let low = (d % 4) * 64 + kind * 16 + nib;
    assert(d * 64 + kind * 16 + nib == (d / 4) * 256 + low);
    assert(0 <= low < 256);
    assert(((d / 4) * 256 + low) / 256 == d / 4) by (nonlinear_arith)
        requires
            0 <= low < 256,
    ;
    let x = d / 4;
    assert((x / 256) % 256 + 256 * ((x / 256) / 256) == x / 256);
    assert((x / 256) / 256 == x / 65536);
}

/// The header byte and the offset bytes, as numbers: what their bit fields
/// hold.
#[verifier::rlimit(40)]
pub proof fn lemma_head_bits(d: nat, nib: nat, c: nat)
    requires
        d < 0x80_0000,
        nib < 16,
        c < 8,
    ensures
        ({
            let kind = ref_kind(d);
            let ov = d * 64 + kind * 16 + nib;
            &&& (ov % 256) / 64 == d % 4
            &&& ((ov % 256) / 16) % 4 == kind
            &&& (ov % 256) % 16 == nib
            &&& kind == 1 ==> ov / 256 < 256 && ov / 256 == d / 4
            &&& kind == 2 ==> ov / 65536 < 256 && (ov / 256) % 256 + 256 * (ov / 65536) == d / 4
            &&& kind == 3 ==> ov / 16777216 < 32 && (ov / 256) % 256 + 256 * ((ov / 65536) % 256)
                + 65536 * (ov / 16777216 + 32 * c) == d / 4 + 0x200000 * c
            &&& d / 4 < 0x200000
            &&& (d / 4 + 0x200000 * c) % 0x200000 == d / 4
            &&& (d / 4 + 0x200000 * c) / 0x200000 == c
            &&& d % 4 + 4 * (d / 4) == d
        }),
{
    let kind = ref_kind(d);
    let ov = d * 64 + kind * 16 + nib;
    let x = d / 4;
    lemma_head_low(d, nib);
    lemma_head_high(d, nib);
    assert(ov / 256 == x);
    assert(ov / 65536 == x / 256) by {
        assert(ov / 65536 == (ov / 256) / 256);
    }
    assert(ov / 16777216 == x / 65536) by {
        assert(ov / 16777216 == (ov / 256) / 65536);
    }
    assert(x < 0x200000);
    assert((x + 0x200000 * c) % 0x200000 == x && (x + 0x200000 * c) / 0x200000 == c)
        by (nonlinear_arith)
        requires
            0 <= x < 0x200000,
            0 <= c,
    ;
}

/// The header byte and the offset bytes of a reference block that was
/// written are read as the kind, the distance bits, the length nibble and
/// the carry they were written for.
#[verifier::rlimit(40)]
pub proof fn lemma_head_parses(s: Seq<u8>, ip: int, d: nat, nib: nat, c: nat)
    requires
        0 <= ip,
        d < 0x80_0000,
        nib < 16,
        c < scale_after(ref_kind(d)),
        ip + ref_kind(d) + 1 <= s.len(),
        forall|i: int|
            0 <= i <= ref_kind(d) ==> s[ip + i] == #[trigger] patched(
                reference_head(d, nib),
                ref_kind(d) as int,
                c,
            )[i],
    ensures
        s[ip] % 16 == nib,
        (s[ip] / 16) % 4 == ref_kind(d),
        s[ip] / 64 + 4 * (offset_at(s, ip + 1, ref_kind(d)) % 0x200000) == d,
        offset_at(s, ip + 1, ref_kind(d)) / 0x200000 == c,
{
    let kind = ref_kind(d);
    let head = reference_head(d, nib);
    let pb = patched(head, kind as int, c);
    let ov = d * 64 + kind * 16 + nib;
    lemma_head_bits(d, nib, c);
    assert(s[ip] == pb[0]);
    assert(s[ip + 1] == pb[1]);
    assert(s[ip] == ov % 256);
    if kind == 1 {
        assert(c == 0);
        assert(s[ip + 1] == ov / 256);
    } else if kind == 2 {
        assert(c == 0);
        assert(s[ip + 2] == pb[2]);
        assert(s[ip + 1] == (ov / 256) % 256);
        assert(s[ip + 2] == ov / 65536);
    } else {
        assert(s[ip + 2] == pb[2]);
        assert(s[ip + 3] == pb[3]);
        assert(s[ip + 1] == (ov / 256) % 256);
        assert(s[ip + 2] == (ov / 65536) % 256);
        assert(s[ip + 3] == ov / 16777216 + 32 * c);
    }
    assert(offset_at(s, ip + 1, kind) == d / 4 + 0x200000 * c);
}

/// A reference block that was written, with the bits `c` of the next
/// distance added to its last offset byte, is read as the reference block
/// it was written for, and `c` as its carry.
#[verifier::rlimit(40)]
pub proof fn lemma_reference_parses(s: Seq<u8>, ip: int, d: nat, len: nat, c: nat)
    requires
        s.len() > 0,
        s[0] % 16 == 6,
        0 < ip,
        d < 0x80_0000,
        7 <= len <= 530,
        c < scale_after(ref_kind(d)),
        ip + reference_bytes(d, len).len() <= s.len(),
        s.subrange(ip, ip + reference_bytes(d, len).len()) == patched(
            reference_bytes(d, len),
            ref_kind(d) as int,
            c,
        ),
    ensures
        block_at(s, ip) == (Block::Reference {
            kind: ref_kind(d),
            low: d,
            carry: c,
            len,
            next: ip + reference_bytes(d, len).len(),
        }),
{
    let rb = reference_bytes(d, len);
    let kind = ref_kind(d);
    let k = kind as int;
    let pb = patched(rb, k, c);
    let n = rb.len() as int;
    let nib = length_nibble(len);
    let head = reference_head(d, nib);
    let tail = length_tail(len);
    assert(head.len() == k + 1);
    assert(n == k + 1 + tail.len());
    assert forall|i: int| 0 <= i < n implies s[ip + i] == pb[i] by {
        assert(s.subrange(ip, ip + n)[i] == s[ip + i]);
    }
    assert forall|i: int| 0 <= i <= k implies s[ip + i] == #[trigger] patched(head, k, c)[i] by {
        assert(s[ip + i] == pb[i]);
        assert(rb[i] == head[i]);
    }
    lemma_head_parses(s, ip, d, nib, c);
    if len >= 22 {
        assert(s[ip + k + 1] == pb[k + 1]);
        assert(rb[k + 1] == tail[0]);
        if len >= 276 {
            assert(s[ip + k + 2] == pb[k + 2]);
            assert(rb[k + 2] == tail[1]);
        }
    }
}

/// The step of the decoder over a literal block that was written.
pub proof fn lemma_literal_step(s: Seq<u8>, ip: int, c: Cursor, dstl: nat, ncv: nat, lits: Seq<u8>)
    requires
        ncv < 4,
        0 < lits.len() < 0x1000_0010,
        0 < ip,
        ip + literal_header(ncv, lits.len()).len() + lits.len() <= s.len(),
        s.subrange(ip, ip + literal_header(ncv, lits.len()).len() + lits.len()) == literal_header(
            ncv,
            lits.len(),
        ) + lits,
        c.out.len() + lits.len() <= dstl,
    ensures
        step(s, ip, c, dstl) == Ok::<(int, Cursor), DecompressError>(
            (
                ip + literal_header(ncv, lits.len()).len() + lits.len(),
                Cursor { out: c.out + lits, cv: c.cv + ncv * c.scale, scale: 4 * c.scale },
            ),
        ),
        block_end(s, ip) == ip + literal_header(ncv, lits.len()).len() + lits.len(),
{
    reveal(step);
    reveal(block_limit);
    let h = literal_header(ncv, lits.len());
    let n = h.len() as int;
    let m = lits.len() as int;
    assert(s.subrange(ip, ip + n) =~= s.subrange(ip, ip + n + m).subrange(0, n));
    assert((h + lits).subrange(0, n) =~= h);
    lemma_literal_parses(s, ip, ncv, lits.len());
    assert(s.subrange(ip + n, ip + n + m) =~= s.subrange(ip, ip + n + m).subrange(n, n + m));
    assert((h + lits).subrange(n, n + m) =~= lits);
}

/// The step of the decoder over a reference block that was written, when
/// the cursor holds the low bits of its distance.
pub proof fn lemma_reference_step(
    s: Seq<u8>,
    ip: int,
    c: Cursor,
    dstl: nat,
    d: nat,
    len: nat,
    carry: nat,
)
    requires
        s.len() > 0,
        s[0] % 16 == 6,
        0 < ip,
        d < 0x80_0000,
        7 <= len <= 530,
        carry < scale_after(ref_kind(d)),
        ip + reference_bytes(d, len).len() <= s.len(),
        s.subrange(ip, ip + reference_bytes(d, len).len()) == patched(
            reference_bytes(d, len),
            ref_kind(d) as int,
            carry,
        ),
        0 < d * c.scale + c.cv <= c.out.len(),
        c.out.len() + len <= dstl,
    ensures
        step(s, ip, c, dstl) == Ok::<(int, Cursor), DecompressError>(
            (
                ip + reference_bytes(d, len).len(),
                Cursor {
                    out: ref_copy(c.out, (d * c.scale + c.cv) as int, len),
                    cv: carry,
                    scale: scale_after(ref_kind(d)),
                },
            ),
        ),
        block_end(s, ip) == ip + reference_bytes(d, len).len(),
{
    reveal(step);
    reveal(block_limit);
    lemma_reference_parses(s, ip, d, len, carry);
}

/// That `s` starts with the bytes of `part`.
pub open spec fn starts_with(s: Seq<u8>, part: Seq<u8>) -> bool {
    &&& part.len() <= s.len()
    &&& forall|i: int| 0 <= i < part.len() ==> part[i] == s[i]
}

/// A block that is whole in a stream is the same block, with the same
/// step, in every stream that starts with that stream.
#[verifier::rlimit(40)]
pub proof fn lemma_step_extends(part: Seq<u8>, s: Seq<u8>, ip: int, c: Cursor, dstl: nat)
    requires
        starts_with(s, part),
        0 < ip < part.len(),
        step(part, ip, c, dstl) is Ok,
    ensures
        step(s, ip, c, dstl) == step(part, ip, c, dstl),
        block_end(s, ip) == block_end(part, ip),
        block_end(part, ip) <= part.len(),
{
    reveal(step);
    reveal(block_limit);
    assert(part[0] == s[0]);
    assert(part[ip] == s[ip]);
    let b = block_at(part, ip);
    match b {
        Block::Truncated => {},
        Block::Literal { carry, start, len } => {
            assert(block_at(s, ip) == b) by {
                if part[ip] % 16 == 0 {
                    assert(varint_at(s, ip + 1) == varint_at(part, ip + 1));
                }
            }
            assert(s.subrange(start, start + len) =~= part.subrange(start, start + len));
        },
        Block::Reference { kind, low, carry, len, next } => {
            assert(offset_at(s, ip + 1, kind) == offset_at(part, ip + 1, kind));
            assert(block_at(s, ip) == b);
        },
    }
}

/// Blocks that fill a stream exactly are decoded in the same way at the
/// start of every longer stream, and the decoding goes on behind them.
pub proof fn lemma_blocks_extend(
    part: Seq<u8>,
    s: Seq<u8>,
    a: int,
    c: Cursor,
    c1: Cursor,
    e: int,
    dstl: nat,
)
    requires
        starts_with(s, part),
        0 < a <= part.len() <= e,
        decode_blocks(part, a, c, part.len() as int, dstl) == Ok::<Cursor, DecompressError>(c1),
    ensures
        decode_blocks(s, a, c, e, dstl) == decode_blocks(s, part.len() as int, c1, e, dstl),
    decreases part.len() - a,
{
    if a < part.len() {
        let r = step(part, a, c, dstl);
        assert(r is Ok);
        lemma_step_extends(part, s, a, c, dstl);
        lemma_blocks_extend(part, s, block_end(part, a), r->Ok_0.1, c1, e, dstl);
    }
}

/// Copying from `d` places back gives the bytes that stand there already,
/// where these repeat what lies `d` places before them.
pub proof fn lemma_ref_copy_matches(whole: Seq<u8>, p: int, d: int, len: nat)
    requires
        0 < d <= p,
        p + len <= whole.len(),
        forall|i: int| p <= i < p + len ==> #[trigger] whole[i] == whole[i - d],
    ensures
        ref_copy(whole.subrange(0, p), d, len) == whole.subrange(0, p + len),
    decreases len,
{
    if len > 0 {
        let head = whole.subrange(0, p);
        assert(head.push(head[head.len() - d]) =~= whole.subrange(0, p + 1));
        lemma_ref_copy_matches(whole, p + 1, d, (len - 1) as nat);
    }
}

/// That `stream` holds whole blocks which decode to `out`, where the top
/// bits of the byte at `cbp` are still free to hold the low bits of the
/// next distance: whatever is put there is what the decoder then carries.
pub open spec fn covers(stream: Seq<u8>, cbp: int, scale: nat, out: Seq<u8>, dstl: nat) -> bool {
    &&& stream.len() >= 1
    &&& stream[0] == PREFIX_BYTE
    &&& 0 <= cbp < stream.len()
    &&& scale == 1 || scale == 8
    &&& scale == 8 ==> cbp >= 1 && stream[cbp] < 32
    &&& forall|c: nat|
        c < scale ==> #[trigger] decode_blocks(
            patched(stream, cbp, c),
            1,
            start_cursor(),
            stream.len() as int,
            dstl,
        ) == Ok::<Cursor, DecompressError>(Cursor { out, cv: c, scale })
}

/// The distance bits that a block holds itself, behind the bits that the
/// previous reference and its own literal header carry.
pub open spec fn own_bits(scale: nat, lits: nat, d: nat) -> nat {
    if lits > 0 {
        d / scale / 4
    } else {
        d / scale
    }
}

/// The length of the literal part of a block.
pub open spec fn literal_part_len(scale: nat, lits: nat, d: nat) -> nat {
    if lits > 0 {
        literal_header((d / scale) % 4, lits).len() + lits
    } else {
        0
    }
}

/// The bytes of one block: the literal run `lits`, if there is one, and a
/// reference of `rc` bytes at distance `d`, behind a reference that left
/// room for `scale` values of carry.
pub open spec fn block_bytes(scale: nat, lits: Seq<u8>, rc: nat, d: nat) -> Seq<u8> {
    if lits.len() > 0 {
        literal_header((d / scale) % 4, lits.len()) + lits + reference_bytes(
            own_bits(scale, lits.len(), d),
            rc,
        )
    } else {
        reference_bytes(own_bits(scale, lits.len(), d), rc)
    }
}

/// The bits of a distance that a block holds itself, scaled back, and the
/// bits that were carried make up the distance.
pub proof fn lemma_distance_joins(d: nat, scale: nat, lits: nat)
    requires
        scale == 1 || scale == 8,
    ensures
        lits > 0 ==> own_bits(scale, lits, d) * (4 * scale) + (d % scale + ((d / scale) % 4)
            * scale) == d,
        lits == 0 ==> own_bits(scale, lits, d) * scale + d % scale == d,
{
    if scale == 1 {
        assert(d / 1 == d && d % 1 == 0);
        assert((d / 4) * 4 + d % 4 == d);
    } else {
        assert((d / 8) * 8 + d % 8 == d);
        assert(((d / 8) / 4) * 32 + (d % 8 + ((d / 8) % 4) * 8) == d);
    }
}

/// The prefix byte alone covers the empty output.
pub proof fn lemma_cover_start(dstl: nat)
    ensures
        covers(seq![PREFIX_BYTE], 0, 1, Seq::empty(), dstl),
{
    let s = seq![PREFIX_BYTE];
    assert(patched(s, 0, 0) =~= s);
    assert forall|c: nat| c < 1 implies #[trigger] decode_blocks(
        patched(s, 0, c),
        1,
        start_cursor(),
        s.len() as int,
        dstl,
    ) == Ok::<Cursor, DecompressError>(Cursor { out: Seq::empty(), cv: c, scale: 1 }) by {
        assert(c == 0);
    }
}

/// A stream that covers `out`, with the low bits of `d` put into its free
/// bits and one more block behind it, covers `out`, the block's literals
/// and the bytes that the block's reference copies.
#[verifier::rlimit(40)]
pub proof fn lemma_cover_block(
    stream: Seq<u8>,
    cbp: int,
    scale: nat,
    out: Seq<u8>,
    dstl: nat,
    lits: Seq<u8>,
    rc: nat,
    d: nat,
)
    requires
        covers(stream, cbp, scale, out, dstl),
        lits.len() < 0x80_0000,
        7 <= rc <= 530,
        0 < d < 0x80_0000,
        d <= out.len() + lits.len(),
        out.len() + lits.len() + rc <= dstl,
    ensures
        covers(
            patched(stream, cbp, d % scale) + block_bytes(scale, lits, rc, d),
            (stream.len() + literal_part_len(scale, lits.len(), d) + ref_kind(
                own_bits(scale, lits.len(), d),
            )) as int,
            scale_after(ref_kind(own_bits(scale, lits.len(), d))),
            ref_copy(out + lits, d as int, rc),
            dstl,
        ),
{
    let p0 = patched(stream, cbp, d % scale);
    let bb = block_bytes(scale, lits, rc, d);
    let n = p0 + bb;
    let m = lits.len();
    let d1 = d / scale;
    let d2 = own_bits(scale, m, d);
    let kind = ref_kind(d2);
    let lp = literal_part_len(scale, m, d) as int;
    let rb = reference_bytes(d2, rc);
    let q = stream.len() + lp;
    let at = q + kind;
    let new_scale = scale_after(kind);
    let c0 = Cursor { out, cv: d % scale, scale };
    let done = ref_copy(out + lits, d as int, rc);
    assert(d2 < 0x80_0000);
    assert(rb.len() > kind);
    assert(n.len() == stream.len() + lp + rb.len());
    assert(n[0] == PREFIX_BYTE);
    lemma_head_bits(d2, 0, 0);
    assert(n[at] == rb[kind as int]);
    assert(kind == 3 ==> n[at] < 32) by {
        let nib = length_nibble(rc);
        lemma_head_bits(d2, nib, 0);
        assert(rb[kind as int] == reference_head(d2, nib)[kind as int]);
    }
    assert forall|c: nat| c < new_scale implies #[trigger] decode_blocks(
        patched(n, at, c),
        1,
        start_cursor(),
        n.len() as int,
        dstl,
    ) == Ok::<Cursor, DecompressError>(Cursor { out: done, cv: c, scale: new_scale }) by {
        let s = patched(n, at, c);
        let e = n.len() as int;
        assert(starts_with(s, p0));
        assert(decode_blocks(p0, 1, start_cursor(), stream.len() as int, dstl) == Ok::<
            Cursor,
            DecompressError,
        >(c0));
        lemma_blocks_extend(p0, s, 1, start_cursor(), c0, e, dstl);
        let c1 = if m > 0 {
            Cursor { out: out + lits, cv: c0.cv + (d1 % 4) * scale, scale: 4 * scale }
        } else {
            c0
        };
        if m > 0 {
            let h = literal_header(d1 % 4, m);
            assert(s.subrange(stream.len() as int, (stream.len() + h.len() + m) as int) =~= h + lits);
            lemma_literal_step(s, stream.len() as int, c0, dstl, d1 % 4, lits);
            assert(decode_blocks(s, stream.len() as int, c0, e, dstl) == decode_blocks(
                s,
                q,
                c1,
                e,
                dstl,
            ));
        } else {
            assert(out + lits =~= out);
        }
        assert(d2 * c1.scale + c1.cv == d) by {
            lemma_distance_joins(d, scale, m);
        }
        assert(s.subrange(q, q + rb.len()) =~= patched(rb, kind as int, c));
        lemma_reference_step(s, q, c1, dstl, d2, rc, c);
        assert(q + rb.len() == e);
        let c2 = Cursor { out: done, cv: c, scale: new_scale };
        assert(decode_blocks(s, q, c1, e, dstl) == decode_blocks(s, e, c2, e, dstl));
        assert(decode_blocks(s, e, c2, e, dstl) == Ok::<Cursor, DecompressError>(c2));
    }
}

/// A stream that covers `out`, with a last literal block of at least six
/// bytes behind it, decompresses to `out` and those bytes.
pub proof fn lemma_cover_finish(
    stream: Seq<u8>,
    cbp: int,
    scale: nat,
    out: Seq<u8>,
    tail: Seq<u8>,
)
    requires
        covers(stream, cbp, scale, out, out.len() + tail.len()),
        6 <= tail.len() < 0x1000_0000,
    ensures
        decoded(stream + literal_header(0, tail.len()) + tail, out.len() + tail.len()) == Ok::<
            Seq<u8>,
            DecompressError,
        >(out + tail),
{
    let dstl = out.len() + tail.len();
    let h = literal_header(0, tail.len());
    let f = stream + h + tail;
    let e = f.len() - 6;
    let c0 = Cursor { out, cv: 0, scale };
    assert(patched(stream, cbp, 0) =~= stream);
    assert(decode_blocks(patched(stream, cbp, 0), 1, start_cursor(), stream.len() as int, dstl)
        == Ok::<Cursor, DecompressError>(c0));
    assert(starts_with(f, stream));
    lemma_blocks_extend(stream, f, 1, start_cursor(), c0, e, dstl);
    assert(f.subrange(stream.len() as int, (stream.len() + h.len() + tail.len()) as int) =~= h + tail);
    lemma_literal_step(f, stream.len() as int, c0, dstl, 0, tail);
    assert(f[0] == PREFIX_BYTE);
    let c1 = Cursor { out: out + tail, cv: c0.cv + 0 * c0.scale, scale: 4 * c0.scale };
    assert(decode_blocks(f, stream.len() as int, c0, e, dstl) == decode_blocks(
        f,
        f.len() as int,
        c1,
        e,
        dstl,
    ));
    assert(decode_blocks(f, f.len() as int, c1, e, dstl) == Ok::<Cursor, DecompressError>(c1));
}

/// `n` zero bytes.
pub open spec fn zeros(n: nat) -> Seq<u8> {
    Seq::new(n, |i: int| 0u8)
}

/// The stream of a source of fewer than 16 bytes: the prefix byte, the
/// length, the bytes, and zeros where fewer than six bytes were stored.
pub open spec fn short_stream(src: Seq<u8>) -> Seq<u8> {
    seq![PREFIX_BYTE, src.len() as u8] + src + zeros(
        if src.len() < 6 {
            (6 - src.len()) as nat
        } else {
            0
        },
    )
}

/// The stream of a short source decompresses to the source.
pub proof fn lemma_short_stream_decodes(src: Seq<u8>)
    requires
        0 < src.len() < 16,
    ensures
        decoded(short_stream(src), src.len()) == Ok::<Seq<u8>, DecompressError>(src),
{
    let s = short_stream(src);
    let h = literal_header(0, src.len());
    assert(s.subrange(1, (1 + h.len() + src.len()) as int) =~= h + src);
    lemma_literal_step(s, 1, start_cursor(), src.len(), 0, src);
    assert(start_cursor().out + src =~= src);
    assert(s[0] == PREFIX_BYTE);
    let e = s.len() - 6;
    let c0 = start_cursor();
    let c1 = Cursor { out: src, cv: c0.cv + 0 * c0.scale, scale: 4 * c0.scale };
    assert(decode_blocks(s, 1, c0, e, src.len()) == decode_blocks(
        s,
        2 + src.len() as int,
        c1,
        e,
        src.len(),
    ));
    assert(decode_blocks(s, 2 + src.len() as int, c1, e, src.len()) == Ok::<Cursor, DecompressError>(c1));
}

/// A block is at most one byte in 150 longer than the source bytes it
/// stands for.
pub proof fn lemma_block_cost(scale: nat, lits: Seq<u8>, rc: nat, d: nat)
    requires
        scale == 1 || scale == 8,
        lits.len() < 0x80_0000,
        7 <= rc <= 530,
    ensures
        block_bytes(scale, lits, rc, d).len() <= lits.len() + rc + (lits.len() + rc) / 150,
{
    let d2 = own_bits(scale, lits.len(), d);
    let rb = reference_bytes(d2, rc);
    assert(rb.len() + 2 <= rc);
    if lits.len() > 0 {
        let h = literal_header((d / scale) % 4, lits.len());
        assert(h.len() <= 5);
        assert(lits.len() < 144 ==> h.len() <= 2);
        assert(lits.len() < 16400 ==> h.len() <= 3);
        assert(lits.len() < 2097168 ==> h.len() <= 4);
    }
}

} // verus!
