//! A simple token compressor that compares eight bytes at a time.
//!
//! Its stream is a sequence of tokens. A literal token is the byte 0, a
//! 16-bit length and that many raw bytes; a match token is the byte 1, a
//! 32-bit distance and a 16-bit length. Numbers are stored low byte first.

use std::collections::HashMap;
use vstd::arithmetic::div_mod::lemma_div_denominator;
use vstd::prelude::*;
use vstd::slice::slice_subrange;
use crate::compress::{common_front, lemma_common_front};
use crate::encoding::lemma_ref_copy_matches;
use crate::format::{least, ref_copy};
use crate::hashtable::{hash_spec, le16_at, le32_at, lzav_hash, read_le16, read_le32};
use crate::roundtrip::lemma_common_front_agrees;

verus! {

/// The longest distance of a match.
pub const WINDOW_SIZE: usize = 8388608;

/// The shortest match.
pub const MIN_MATCH_LENGTH: usize = 4;

/// The length at which a match is no longer extended.
pub const MAX_MATCH_LENGTH: usize = 258;

/// The longest literal token.
pub const MAX_LITERALS: usize = 65535;

/// Hash bits for sources of up to 16 KiB.
pub const HASH_L1_BITS: u32 = 12;

/// Hash bits for sources of up to 128 KiB.
pub const HASH_L2_BITS: u32 = 15;

/// Hash bits for longer sources.
pub const HASH_L3_BITS: u32 = 17;

/// What a compressed buffer says of the data it stands for.
#[derive(Debug, Clone, Copy)]
pub struct FileMetadata {
    pub original_size: u32,
    pub checksum: u32,
}

/// A compressed buffer.
#[derive(Debug, Clone)]
pub struct CompressedData {
    pub metadata: FileMetadata,
    pub data: Vec<u8>,
}

/// 256 to the power `i`.
pub open spec fn pow256(i: nat) -> nat
    decreases i,
{
    if i == 0 {
        1
    } else {
        256 * pow256((i - 1) as nat)
    }
}

/// Byte number `i` of `x`, counted from the low end.
pub open spec fn byte_at(x: u64, i: nat) -> nat {
    ((x as nat) / pow256(i)) % 256
}

/// The number whose bytes, from the low end, are `bytes[from..to]`.
pub open spec fn packed(bytes: Seq<u8>, from: int, to: int) -> nat
    decreases to - from,
{
    if from >= to {
        0
    } else {
        bytes[from] as nat + 256 * packed(bytes, from + 1, to)
    }
}

/// The bytes of a packed number are the bytes it was packed from, and zero
/// above them.
#[verifier::rlimit(40)]
pub proof fn lemma_packed_byte(bytes: Seq<u8>, from: int, to: int, i: nat)
    requires
        0 <= from <= to <= bytes.len(),
        to - from <= 8,
    ensures
        packed(bytes, from, to) < pow256((to - from) as nat),
        packed(bytes, from, to) / pow256(i) % 256 == (if from + i < to {
            bytes[from + i] as nat
        } else {
            0
        }),
    decreases to - from, i,
{
    let x = packed(bytes, from, to);
    lemma_pow256_positive(i);
    if from >= to {
        assert(0int / (pow256(i) as int) == 0);
    } else {
        let rest = packed(bytes, from + 1, to);
        let b = bytes[from] as nat;
        lemma_packed_byte(bytes, from + 1, to, 0);
        assert(x == b + 256 * rest);
        assert(pow256((to - from) as nat) == 256 * pow256((to - from - 1) as nat));
        assert(x < pow256((to - from) as nat));
        if i == 0 {
            assert(pow256(0) == 1);
            assert(x / 1 == x);
            assert(x % 256 == b);
        } else {
            let j = (i - 1) as nat;
            lemma_packed_byte(bytes, from + 1, to, j);
            lemma_pow256_positive(j);
            lemma_div_denominator(x as int, 256, pow256(j) as int);
            assert(pow256(i) == 256 * pow256(j));
            assert(x / 256 == rest);
            assert((x as int) / (pow256(i) as int) == (rest as int) / (pow256(j) as int));
            assert(from + i < to <==> from + 1 + j < to);
        }
    }
}

/// Powers of 256 are positive.
pub proof fn lemma_pow256_positive(i: nat)
    ensures
        pow256(i) > 0,
    decreases i,
{
    if i > 0 {
        lemma_pow256_positive((i - 1) as nat);
    }
}

/// Eight bytes held in one number, the first byte lowest.
#[derive(Debug, Clone, Copy)]
pub struct Swar {
    pub data: u64,
}

impl Swar {
    /// Packs the first eight bytes of `bytes`; bytes that `bytes` lacks
    /// count as zero.
    pub fn from_bytes(bytes: &[u8]) -> (r: Swar)
        ensures
            forall|i: nat|
                i < 8 ==> #[trigger] byte_at(r.data, i) == (if i < bytes@.len() {
                    bytes@[i as int] as nat
                } else {
                    0
                }),
    {
        let len: usize = bytes.len();
        let n: usize = if len < 8 {
            len
        } else {
            8
        };
        let mut data: u64 = 0;
        let mut i: usize = n;
        while i > 0
            invariant
                i <= n <= 8,
                n <= bytes@.len(),
                data == packed(bytes@, i as int, n as int),
                data < pow256((n - i) as nat),
            decreases i,
        {
            i -= 1;
            proof {
                lemma_packed_byte(bytes@, i as int, n as int, 0);
                lemma_packed_byte(bytes@, i + 1, n as int, 0);
                lemma_pow256_bounds((n - i) as nat);
                assert(pow256((n - i) as nat) == 256 * pow256((n - i - 1) as nat));
            }
            data = data * 256 + bytes[i] as u64;
        }
        proof {
            assert forall|k: nat| k < 8 implies #[trigger] byte_at(data, k) == (if k
                < bytes@.len() {
                bytes@[k as int] as nat
            } else {
                0
            }) by {
                lemma_packed_byte(bytes@, 0, n as int, k);
            }
        }
        Swar { data }
    }

    /// The number of equal leading bytes of the two, from 0 to 8.
    pub fn find_match_length(&self, other: &Self) -> (k: usize)
        ensures
            k <= 8,
            forall|i: nat| i < k ==> #[trigger] byte_at(self.data, i) == byte_at(other.data, i),
            k < 8 ==> byte_at(self.data, k as nat) != byte_at(other.data, k as nat),
    {
        let mut a: u64 = self.data;
        let mut b: u64 = other.data;
        let mut k: usize = 0;
        assert(pow256(0) == 1);
        while k < 8 && a % 256 == b % 256
            invariant
                k <= 8,
                a == (self.data as nat) / pow256(k as nat),
                b == (other.data as nat) / pow256(k as nat),
                forall|i: nat| i < k ==> #[trigger] byte_at(self.data, i) == byte_at(other.data, i),
            decreases 8 - k,
        {
            proof {
                lemma_pow256_positive(k as nat);
                lemma_div_denominator(self.data as int, pow256(k as nat) as int, 256);
                lemma_div_denominator(other.data as int, pow256(k as nat) as int, 256);
                assert(pow256((k + 1) as nat) == 256 * pow256(k as nat));
                assert(pow256(k as nat) * 256 == 256 * pow256(k as nat)) by (nonlinear_arith);
            }
            a = a / 256;
            b = b / 256;
            k += 1;
        }
        k
    }

    /// The eight bytes, the lowest first.
    pub fn to_bytes(&self) -> (r: [u8; 8])
        ensures
            forall|i: nat| i < 8 ==> r@[i as int] as nat == #[trigger] byte_at(self.data, i),
    {
        let mut r: [u8; 8] = [0u8; 8];
        let mut a: u64 = self.data;
        let mut k: usize = 0;
        assert(pow256(0) == 1);
        while k < 8
            invariant
                k <= 8,
                a == (self.data as nat) / pow256(k as nat),
                forall|i: nat| i < k ==> r@[i as int] as nat == #[trigger] byte_at(self.data, i),
            decreases 8 - k,
        {
            proof {
                lemma_pow256_positive(k as nat);
                lemma_div_denominator(self.data as int, pow256(k as nat) as int, 256);
                assert(pow256((k + 1) as nat) == 256 * pow256(k as nat));
                assert(pow256(k as nat) * 256 == 256 * pow256(k as nat)) by (nonlinear_arith);
            }
            r[k] = (a % 256) as u8;
            a = a / 256;
            k += 1;
        }
        r
    }
}

/// The powers of 256 up to the eighth, which is `2^64`.
pub proof fn lemma_pow256_bounds(i: nat)
    requires
        i <= 8,
    ensures
        pow256(i) <= 0x1_0000_0000_0000_0000,
        i <= 7 ==> pow256(i) <= 0x100_0000_0000_0000,
{
    reveal_with_fuel(pow256, 10);
}

/// What decoding the tokens of `s` from `pos` on adds to `out`, or `None`
/// where a token is unknown, or cut off, or refers to before the start of
/// the output.
pub open spec fn swar_decode(s: Seq<u8>, pos: int, out: Seq<u8>) -> Option<Seq<u8>>
    decreases s.len() - pos,
{
    if pos >= s.len() || pos < 0 {
        Some(out)
    } else if s[pos] == 0 {
        if pos + 3 > s.len() || pos + 3 + le16_at(s, pos + 1) > s.len() {
            None
        } else {
            swar_decode(
                s,
                pos + 3 + le16_at(s, pos + 1),
                out + s.subrange(pos + 3, pos + 3 + le16_at(s, pos + 1)),
            )
        }
    } else if s[pos] == 1 {
        if pos + 7 > s.len() || !reference_fits(
            le32_at(s, pos + 1) as nat,
            le16_at(s, pos + 5) as nat,
            out.len(),
        ) {
            None
        } else {
            swar_decode(
                s,
                pos + 7,
                ref_copy(out, le32_at(s, pos + 1) as int, le16_at(s, pos + 5) as nat),
            )
        }
    } else {
        None
    }
}

/// That a match of `n` bytes at distance `d` can be copied behind `have`
/// bytes of output.
pub open spec fn reference_fits(d: nat, n: nat, have: nat) -> bool {
    d <= have && (d > 0 || n == 0)
}

/// What the stream `s` stands for.
pub open spec fn swar_decoded(s: Seq<u8>) -> Option<Seq<u8>> {
    swar_decode(s, 0, Seq::empty())
}

/// A literal token for the bytes `lits`.
pub open spec fn literal_token(lits: Seq<u8>) -> Seq<u8> {
    seq![0u8, (lits.len() % 256) as u8, (lits.len() / 256) as u8] + lits
}

/// A match token for `n` bytes at distance `d`.
pub open spec fn match_token(d: u32, n: u16) -> Seq<u8> {
    seq![
        1u8,
        (d % 256) as u8,
        ((d / 256) % 256) as u8,
        ((d / 65536) % 256) as u8,
        (d / 16777216) as u8,
        (n % 256) as u8,
        (n / 256) as u8,
    ]
}

/// Tokens that fill a stream exactly are decoded in the same way at the
/// start of every longer stream.
pub proof fn lemma_tokens_extend(c: Seq<u8>, t: Seq<u8>, pos: int, out: Seq<u8>, mid: Seq<u8>)
    requires
        0 <= pos <= c.len(),
        swar_decode(c, pos, out) == Some(mid),
    ensures
        swar_decode(c + t, pos, out) == swar_decode(c + t, c.len() as int, mid),
    decreases c.len() - pos,
{
    let s = c + t;
    if pos < c.len() {
        assert(s[pos] == c[pos]);
        if c[pos] == 0 {
            assert(s[pos + 1] == c[pos + 1] && s[pos + 2] == c[pos + 2]);
            let n = le16_at(c, pos + 1) as int;
            assert(s.subrange(pos + 3, pos + 3 + n) =~= c.subrange(pos + 3, pos + 3 + n));
            lemma_tokens_extend(c, t, pos + 3 + n, out + c.subrange(pos + 3, pos + 3 + n), mid);
        } else {
            assert(c[pos] == 1);
            assert(s[pos + 1] == c[pos + 1] && s[pos + 2] == c[pos + 2] && s[pos + 3] == c[pos
                + 3] && s[pos + 4] == c[pos + 4] && s[pos + 5] == c[pos + 5] && s[pos + 6]
                == c[pos + 6]);
            lemma_tokens_extend(
                c,
                t,
                pos + 7,
                ref_copy(out, le32_at(c, pos + 1) as int, le16_at(c, pos + 5) as nat),
                mid,
            );
        }
    }
}

/// A stream with one more literal token stands for the same bytes and the
/// literals.
pub proof fn lemma_literal_token(c: Seq<u8>, lits: Seq<u8>, mid: Seq<u8>)
    requires
        swar_decoded(c) == Some(mid),
        lits.len() <= 65535,
    ensures
        swar_decoded(c + literal_token(lits)) == Some(mid + lits),
{
    let t = literal_token(lits);
    let s = c + t;
    let p = c.len() as int;
    lemma_tokens_extend(c, t, 0, Seq::empty(), mid);
    assert(s[p] == t[0] && s[p + 1] == t[1] && s[p + 2] == t[2]);
    assert(le16_at(s, p + 1) == lits.len());
    assert(s.subrange(p + 3, p + 3 + lits.len()) =~= lits);
    assert(swar_decode(s, p + 3 + lits.len(), mid + lits) == Some(mid + lits));
}

/// A stream with one more match token stands for the same bytes and the
/// bytes that the match copies.
#[verifier::rlimit(40)]
pub proof fn lemma_match_token(c: Seq<u8>, d: u32, n: u16, mid: Seq<u8>)
    requires
        swar_decoded(c) == Some(mid),
        reference_fits(d as nat, n as nat, mid.len()),
    ensures
        swar_decoded(c + match_token(d, n)) == Some(ref_copy(mid, d as int, n as nat)),
{
    let t = match_token(d, n);
    let s = c + t;
    let p = c.len() as int;
    lemma_tokens_extend(c, t, 0, Seq::empty(), mid);
    assert(s[p] == t[0] && s[p + 1] == t[1] && s[p + 2] == t[2] && s[p + 3] == t[3] && s[p + 4]
        == t[4] && s[p + 5] == t[5] && s[p + 6] == t[6]);
    assert(le32_at(s, p + 1) == d);
    assert(le16_at(s, p + 5) == n);
    let done = ref_copy(mid, d as int, n as nat);
    assert(swar_decode(s, p + 7, done) == Some(done));
}

/// `x` turned left by one bit.
pub open spec fn rotated(x: u32) -> u32 {
    ((x % 0x8000_0000) * 2 + x / 0x8000_0000) as u32
}

/// The checksum of `s`: for each byte in turn, add it, dropping what does
/// not fit 32 bits, and turn the sum left by one bit.
pub open spec fn checksum_spec(s: Seq<u8>) -> u32
    decreases s.len(),
{
    if s.len() == 0 {
        0
    } else {
        rotated(((checksum_spec(s.drop_last()) + s.last()) % 0x1_0000_0000) as u32)
    }
}

/// The number of hash bits for a source of `n` bytes.
pub open spec fn hash_bits_spec(n: nat) -> u32 {
    if n <= 16384 {
        HASH_L1_BITS
    } else if n <= 131072 {
        HASH_L2_BITS
    } else {
        HASH_L3_BITS
    }
}

/// The mask that keeps `bits` low bits, for the three numbers of hash bits.
pub open spec fn hash_mask(bits: u32) -> u32 {
    if bits == HASH_L1_BITS {
        0xFFF
    } else if bits == HASH_L2_BITS {
        0x7FFF
    } else {
        0x1FFFF
    }
}

/// The hash of the bytes of `data` at `pos`: 0 where fewer than four are
/// left; else the hash of the four bytes and of the two behind them, where
/// there are two, cut to the hash bits for the length of `data`.
pub open spec fn swar_hash_spec(data: Seq<u8>, pos: int) -> u32 {
    if pos + 4 > data.len() {
        0
    } else {
        hash_spec(
            le32_at(data, pos),
            if pos + 6 <= data.len() {
                le16_at(data, pos + 4)
            } else {
                0
            },
        ) & hash_mask(hash_bits_spec(data.len()))
    }
}

/// That `m` is a match for `data` at `pos`: `m.1` bytes there repeat what
/// lies `m.0` bytes before them.
pub open spec fn is_match(data: Seq<u8>, pos: int, m: (u32, u16)) -> bool {
    &&& 0 < m.0 <= pos
    &&& m.0 < 8388608
    &&& 4 <= m.1 <= 264
    &&& pos + m.1 <= data.len()
    &&& forall|i: int| pos <= i < pos + m.1 ==> #[trigger] data[i] == data[i - m.0]
}

/// What decoding the tokens of `s` from `pos` on adds to `out`, up to the
/// first token that is unknown, or cut off, or refers to before the start
/// of the output.
pub open spec fn swar_decode_lenient(s: Seq<u8>, pos: int, out: Seq<u8>) -> Seq<u8>
    decreases s.len() - pos,
{
    if pos >= s.len() || pos < 0 {
        out
    } else if s[pos] == 0 {
        if pos + 3 > s.len() || pos + 3 + le16_at(s, pos + 1) > s.len() {
            out
        } else {
            swar_decode_lenient(
                s,
                pos + 3 + le16_at(s, pos + 1),
                out + s.subrange(pos + 3, pos + 3 + le16_at(s, pos + 1)),
            )
        }
    } else if s[pos] == 1 {
        if pos + 7 > s.len() || !reference_fits(
            le32_at(s, pos + 1) as nat,
            le16_at(s, pos + 5) as nat,
            out.len(),
        ) {
            out
        } else {
            swar_decode_lenient(
                s,
                pos + 7,
                ref_copy(out, le32_at(s, pos + 1) as int, le16_at(s, pos + 5) as nat),
            )
        }
    } else {
        out
    }
}

/// The sum of the lengths that the tokens of `s` from `pos` on announce,
/// added to `total`, up to the first token that is unknown or whose header
/// is cut off.
pub open spec fn declared_size(s: Seq<u8>, pos: int, total: nat) -> nat
    decreases
            (if pos < s.len() {
                s.len() - pos
            } else {
                0
            }),
{
    if pos >= s.len() || pos < 0 {
        total
    } else if s[pos] == 0 {
        if pos + 3 > s.len() {
            total
        } else {
            declared_size(s, pos + 3 + le16_at(s, pos + 1), total + le16_at(s, pos + 1) as nat)
        }
    } else if s[pos] == 1 {
        if pos + 7 > s.len() {
            total
        } else {
            declared_size(s, pos + 7, total + le16_at(s, pos + 5) as nat)
        }
    } else {
        total
    }
}

/// The length to which a match at `pos` and distance `d`, of `total` bytes
/// so far, grows by eight bytes at a time: as long as eight more bytes lie
/// in `data`, the match is shorter than 258 bytes, and the eight bytes
/// agree with those `d` places before them.
pub open spec fn grown_by_eights(data: Seq<u8>, pos: int, d: int, total: nat) -> nat
    decreases
            (if pos + total < data.len() {
                data.len() - pos - total
            } else {
                0
            }),
{
    if pos + total + 8 <= data.len() && total < 258 && common_front(
        data,
        pos + total,
        pos + total - d,
        8,
    ) == 8 {
        grown_by_eights(data, pos, d, total + 8)
    } else {
        total
    }
}

/// The length of a match at `pos` and distance `d` whose first eight bytes
/// agree: it grows by eight bytes at a time, and then by single bytes as
/// long as they agree, up to 258 bytes or the end of `data`.
pub open spec fn extended_len(data: Seq<u8>, pos: int, d: int) -> nat {
    let w = grown_by_eights(data, pos, d, 8);
    let room = least(data.len() - pos - w, 258 - w);
    if room > 0 {
        w + common_front(data, pos + w, pos + w - d, room as nat)
    } else {
        w
    }
}

/// The match that a search ends with when no position gave eight equal
/// bytes: the best one, where it has at least four bytes.
pub open spec fn best_match(len: nat, dist: nat) -> Option<(u32, u16)> {
    if len >= 4 {
        Some((dist as u32, len as u16))
    } else {
        None
    }
}

/// The match at `pos` among the first `idx` positions of `bucket`, the
/// latest first, when the best so far has `best_len` bytes at distance
/// `best_dist`. A position that is not before `pos` is passed over; one
/// that lies a window or more back ends the search; one whose eight bytes
/// all agree with those at `pos` is taken at once, extended; one that
/// agrees in more bytes than the best so far becomes the best.
pub open spec fn scan_spec(
    data: Seq<u8>,
    pos: int,
    bucket: Seq<usize>,
    idx: nat,
    best_len: nat,
    best_dist: nat,
) -> Option<(u32, u16)>
    decreases idx,
{
    if idx == 0 {
        best_match(best_len, best_dist)
    } else {
        let prev = bucket[idx - 1] as int;
        let same = common_front(data, pos, prev, 8);
        if prev >= pos {
            scan_spec(data, pos, bucket, (idx - 1) as nat, best_len, best_dist)
        } else if pos - prev >= 8388608 {
            best_match(best_len, best_dist)
        } else if same > best_len && same == 8 {
            Some(((pos - prev) as u32, extended_len(data, pos, pos - prev) as u16))
        } else if same > best_len {
            scan_spec(data, pos, bucket, (idx - 1) as nat, same, (pos - prev) as nat)
        } else {
            scan_spec(data, pos, bucket, (idx - 1) as nat, best_len, best_dist)
        }
    }
}

/// The match at `pos` among the positions that `seen` holds for the hash
/// `hash`: none where it holds none or fewer than eight bytes lie at
/// `pos`; else what the search through them gives.
pub open spec fn swar_find_spec(
    data: Seq<u8>,
    pos: int,
    seen: Map<u32, Seq<usize>>,
    hash: u32,
) -> Option<(u32, u16)> {
    if !seen.contains_key(hash) || pos + 8 > data.len() {
        None
    } else {
        scan_spec(data, pos, seen[hash], seen[hash].len(), 3, 0)
    }
}

/// The positions of a table, each list as the sequence it holds.
pub open spec fn seen_of(table: Map<u32, Vec<usize>>) -> Map<u32, Seq<usize>> {
    Map::new(|h: u32| table.contains_key(h), |h: u32| table[h]@)
}

/// `seen` with `pos` filed under the hash `h`, behind the positions that
/// are there.
pub open spec fn remembered(seen: Map<u32, Seq<usize>>, h: u32, pos: usize) -> Map<
    u32,
    Seq<usize>,
> {
    seen.insert(
        h,
        (if seen.contains_key(h) {
            seen[h]
        } else {
            Seq::empty()
        }).push(pos),
    )
}

/// `seen` with the first `k` positions from `pos` on filed, each under its
/// hash, as far as four bytes lie at it.
pub open spec fn remembered_upto(seen: Map<u32, Seq<usize>>, data: Seq<u8>, pos: int, k: nat) -> Map<
    u32,
    Seq<usize>,
>
    decreases k,
{
    if k == 0 {
        seen
    } else {
        let before = remembered_upto(seen, data, pos, (k - 1) as nat);
        let at = pos + k - 1;
        if at + 4 <= data.len() {
            remembered(before, swar_hash_spec(data, at), at as usize)
        } else {
            before
        }
    }
}

/// The compressor between two positions: the positions it has seen, the
/// tokens so far, the position, the start of the pending literals and the
/// running average of match lengths.
pub struct Tokenizer {
    pub seen: Map<u32, Seq<usize>>,
    pub tokens: Seq<u8>,
    pub pos: int,
    pub lit_start: int,
    pub mavg: int,
}

/// The compressor in front of the data.
pub open spec fn tokenizer_start() -> Tokenizer {
    Tokenizer { seen: Map::empty(), tokens: Seq::empty(), pos: 0, lit_start: 0, mavg: 209715200 }
}

/// The tokens with the pending literals of `s` behind them as a literal
/// token.
pub open spec fn flushed_tokens(data: Seq<u8>, s: Tokenizer) -> Seq<u8> {
    s.tokens + literal_token(data.subrange(s.lit_start, s.pos))
}

/// How far the compressor moves on without a match when the average is
/// under 200 bytes: three bytes under 100, two under 130, else one.
pub open spec fn skip_of(mavg: int) -> int {
    if mavg < 1638400 {
        3
    } else if mavg < 2129920 {
        2
    } else {
        1
    }
}

/// One position of the compressor.
///
/// Pending literals of more than 65532 bytes are written as a token first.
/// Where fewer than four bytes are left, the position moves on by one.
/// Else the positions seen with the hash of the bytes are searched. With a
/// match, the pending literals and the match are written, every position
/// of the match is filed, the position moves behind the match and the
/// average takes the match in. Without one, the position is filed and
/// moves on by one, or, where the average is under 200 bytes, moves on by
/// up to three and is not filed.
pub open spec fn tokenizer_step(data: Seq<u8>, s: Tokenizer) -> Tokenizer {
    let tokens = if s.pos - s.lit_start > 65532 {
        flushed_tokens(data, s)
    } else {
        s.tokens
    };
    let lit_start = if s.pos - s.lit_start > 65532 {
        s.pos
    } else {
        s.lit_start
    };
    let hash = swar_hash_spec(data, s.pos);
    let found = swar_find_spec(data, s.pos, s.seen, hash);
    if data.len() - s.pos < 4 {
        Tokenizer { seen: s.seen, tokens, pos: s.pos + 1, lit_start, mavg: s.mavg }
    } else if found is Some {
        let d = found->Some_0.0;
        let n = found->Some_0.1;
        Tokenizer {
            seen: remembered_upto(s.seen, data, s.pos, n as nat),
            tokens: (if s.pos > lit_start {
                tokens + literal_token(data.subrange(lit_start, s.pos))
            } else {
                tokens
            }) + match_token(d, n),
            pos: s.pos + n,
            lit_start: s.pos + n,
            mavg: s.mavg + n * 2097152 - s.mavg / 1024,
        }
    } else if s.mavg < 3276800 {
        Tokenizer { seen: s.seen, tokens, pos: s.pos + skip_of(s.mavg), lit_start, mavg: s.mavg }
    } else {
        Tokenizer {
            seen: remembered(s.seen, hash, s.pos as usize),
            tokens,
            pos: s.pos + 1,
            lit_start,
            mavg: s.mavg,
        }
    }
}

/// The compressor behind the last position.
pub open spec fn tokenizer_run(data: Seq<u8>, s: Tokenizer) -> Tokenizer
    decreases
            (if s.pos < data.len() {
                data.len() - s.pos
            } else {
                0
            }),
{
    if s.pos < data.len() && tokenizer_step(data, s).pos > s.pos {
        tokenizer_run(data, tokenizer_step(data, s))
    } else {
        s
    }
}

/// The tokens of `data`: what the compressor has written behind the last
/// position, and the literals that are still pending as one more token.
pub open spec fn swar_tokens(data: Seq<u8>) -> Seq<u8> {
    let s = tokenizer_run(data, tokenizer_start());
    if s.pos > s.lit_start {
        flushed_tokens(data, s)
    } else {
        s.tokens
    }
}

/// The positions that the compressor has seen behind the last position of
/// `data`.
pub open spec fn swar_seen(data: Seq<u8>) -> Map<u32, Seq<usize>> {
    tokenizer_run(data, tokenizer_start()).seen
}

/// Where the compressor stands: the position, the start of the pending
/// literals and the running average.
#[derive(Clone, Copy, Debug)]
pub struct Walk {
    pub pos: usize,
    pub lit_start: usize,
    pub mavg: i64,
}

impl Walk {
    /// The compressor that stands here, with the table `table` and the
    /// tokens `tokens`.
    pub open spec fn tokenizer(self, table: Map<u32, Vec<usize>>, tokens: Seq<u8>) -> Tokenizer {
        Tokenizer {
            seen: seen_of(table),
            tokens,
            pos: self.pos as int,
            lit_start: self.lit_start as int,
            mavg: self.mavg as int,
        }
    }

    /// That the compressor that stands here is in order: the tokens stand
    /// for the data up to the pending literals, which one token can hold.
    pub open spec fn ready(self, tokens: Seq<u8>, data: Seq<u8>) -> bool {
        &&& self.lit_start <= self.pos <= data.len()
        &&& self.pos - self.lit_start <= 65535
        &&& 0 <= self.mavg <= 0x100_0000_0000
        &&& swar_decoded(tokens) == Some(data.subrange(0, self.lit_start as int))
    }
}


/// The compressor, with the positions it has seen by their hash.
pub struct SWARCompressor {
    hash_table: HashMap<u32, Vec<usize>>,
}

impl View for SWARCompressor {
    type V = Map<u32, Vec<usize>>;

    /// The positions that the compressor has seen, by their hash.
    closed spec fn view(&self) -> Map<u32, Vec<usize>> {
        self.hash_table@
    }
}

/// The positions that `seen` holds for the hash `h`, the oldest first.
pub open spec fn positions_of(seen: Map<u32, Vec<usize>>, h: u32) -> Seq<usize> {
    if seen.contains_key(h) {
        seen[h]@
    } else {
        Seq::empty()
    }
}

impl SWARCompressor {
    /// A compressor that has seen nothing.
    pub fn new() -> (s: Self)
        ensures
            s@ == Map::<u32, Vec<usize>>::empty(),
    {
        SWARCompressor { hash_table: HashMap::with_capacity(65536) }
    }

    /// The number of hash bits for a source of `input_size` bytes.
    pub fn get_hash_bits(&self, input_size: usize) -> (bits: u32)
        ensures
            bits == hash_bits_spec(input_size as nat),
    {
        if input_size <= 16384 {
            HASH_L1_BITS
        } else if input_size <= 131072 {
            HASH_L2_BITS
        } else {
            HASH_L3_BITS
        }
    }

    /// The hash of the bytes of `data` at `pos`.
    pub fn hash(&self, data: &[u8], pos: usize) -> (h: u32)
        ensures
            h == swar_hash_spec(data@, pos as int),
    {
        let len: usize = data.len();
        if len < 4 || pos > len - 4 {
            return 0;
        }
        let iw1: u32 = read_le32(data, pos);
        let iw2: u16 = if len - pos >= 6 {
            read_le16(data, pos + 4)
        } else {
            0
        };
        let bits: u32 = self.get_hash_bits(len);
        let mask: u32 = if bits == HASH_L1_BITS {
            0xFFF
        } else if bits == HASH_L2_BITS {
            0x7FFF
        } else {
            0x1FFFF
        };
        lzav_hash(iw1, iw2) & mask
    }

    /// Whether the first `len` bytes of `a` and of `b` are equal, compared
    /// eight at a time and then one by one.
    pub fn compare_bytes_swar(&self, a: &[u8], b: &[u8], len: usize) -> (same: bool)
        requires
            len <= a@.len(),
            len <= b@.len(),
        ensures
            same == (a@.subrange(0, len as int) == b@.subrange(0, len as int)),
    {
        let chunks: usize = len / 8;
        let mut i: usize = 0;
        while i < chunks
            invariant
                i <= chunks,
                chunks == len / 8,
                len <= a@.len(),
                len <= b@.len(),
                forall|j: int| 0 <= j < 8 * i ==> a@[j] == b@[j],
            decreases chunks - i,
        {
            let x = Swar::from_bytes(slice_subrange(a, i * 8, len));
            let y = Swar::from_bytes(slice_subrange(b, i * 8, len));
            let k: usize = x.find_match_length(&y);
            if k < 8 {
                proof {
                    assert(byte_at(x.data, k as nat) == a@[8 * i + k] as nat);
                    assert(byte_at(y.data, k as nat) == b@[8 * i + k] as nat);
                    assert(a@.subrange(0, len as int)[8 * i + k] == a@[8 * i + k]);
                    assert(b@.subrange(0, len as int)[8 * i + k] == b@[8 * i + k]);
                }
                return false;
            }
            proof {
                assert forall|j: int| 0 <= j < 8 * (i + 1) implies a@[j] == b@[j] by {
                    if j >= 8 * i {
                        let q = (j - 8 * i) as nat;
                        assert(byte_at(x.data, q) == a@[j] as nat);
                        assert(byte_at(y.data, q) == b@[j] as nat);
                    }
                }
            }
            i += 1;
        }
        let mut j: usize = chunks * 8;
        while j < len
            invariant
                chunks * 8 <= j <= len,
                len <= a@.len(),
                len <= b@.len(),
                forall|q: int| 0 <= q < j ==> a@[q] == b@[q],
            decreases len - j,
        {
            if a[j] != b[j] {
                proof {
                    assert(a@.subrange(0, len as int)[j as int] == a@[j as int]);
                    assert(b@.subrange(0, len as int)[j as int] == b@[j as int]);
                }
                return false;
            }
            j += 1;
        }
        assert(a@.subrange(0, len as int) =~= b@.subrange(0, len as int));
        true
    }

    /// Appends a literal token for `literals` to `compressed`.
    pub fn write_literals(&self, compressed: &mut Vec<u8>, literals: &[u8])
        requires
            literals@.len() <= 65535,
        ensures
            final(compressed)@ == old(compressed)@ + literal_token(literals@),
    {
        let n: usize = literals.len();
        compressed.push(0);
        compressed.push((n % 256) as u8);
        compressed.push((n / 256) as u8);
        let mut i: usize = 0;
        while i < n
            invariant
                i <= n,
                n == literals@.len(),
                n <= 65535,
                compressed@ == old(compressed)@ + seq![0u8, (n % 256) as u8, (n / 256) as u8]
                    + literals@.subrange(0, i as int),
            decreases n - i,
        {
            compressed.push(literals[i]);
            i += 1;
            assert(compressed@ =~= old(compressed)@ + seq![0u8, (n % 256) as u8, (n / 256) as u8]
                + literals@.subrange(0, i as int));
        }
        assert(compressed@ =~= old(compressed)@ + literal_token(literals@));
    }

    /// Appends a match token for `length` bytes at `distance` to
    /// `compressed`.
    pub fn write_match(&self, compressed: &mut Vec<u8>, distance: u32, length: u16)
        ensures
            final(compressed)@ == old(compressed)@ + match_token(distance, length),
    {
        compressed.push(1);
        compressed.push((distance % 256) as u8);
        compressed.push(((distance / 256) % 256) as u8);
        compressed.push(((distance / 65536) % 256) as u8);
        compressed.push((distance / 16777216) as u8);
        compressed.push((length % 256) as u8);
        compressed.push((length / 256) as u8);
        assert(compressed@ =~= old(compressed)@ + match_token(distance, length));
    }

    /// The checksum of `data`.
    pub fn calculate_checksum(&self, data: &[u8]) -> (c: u32)
        ensures
            c == checksum_spec(data@),
    {
        let n: usize = data.len();
        let mut checksum: u32 = 0;
        let mut i: usize = 0;
        assert(data@.subrange(0, 0) =~= Seq::<u8>::empty());
        while i < n
            invariant
                i <= n,
                n == data@.len(),
                checksum == checksum_spec(data@.subrange(0, i as int)),
            decreases n - i,
        {
            let sum: u32 = ((checksum as u64 + data[i] as u64) % 0x1_0000_0000) as u32;
            checksum = (sum % 0x8000_0000) * 2 + sum / 0x8000_0000;
            i += 1;
            assert(data@.subrange(0, i as int).drop_last() =~= data@.subrange(0, i - 1));
        }
        assert(data@.subrange(0, n as int) =~= data@);
        checksum
    }

    /// Looks among the positions seen with the hash `hash`, the latest
    /// first, for the one whose next eight bytes agree longest with those at
    /// `pos`. A position whose eight bytes all agree is taken at once and
    /// the match is extended; else the best of at least four bytes is the
    /// match.
    fn find_match(&self, data: &[u8], pos: usize, hash: u32) -> (r: Option<(u32, u16)>)
        ensures
            r == swar_find_spec(data@, pos as int, seen_of(self@), hash),
            r matches Some(m) ==> is_match(data@, pos as int, m),
    {
        broadcast use vstd::std_specs::hash::group_hash_axioms;

        let len: usize = data.len();
        let positions: &Vec<usize> = match self.hash_table.get(&hash) {
            Some(p) => p,
            None => {
                return None;
            },
        };
        if len < 8 || pos > len - 8 {
            return None;
        }
        let ghost bucket = positions@;
        let ghost target = scan_spec(data@, pos as int, bucket, bucket.len(), 3, 0);
        assert(target == swar_find_spec(data@, pos as int, seen_of(self@), hash));
        let current = Swar::from_bytes(slice_subrange(data, pos, len));
        let mut best_len: usize = MIN_MATCH_LENGTH - 1;
        let mut best_dist: u32 = 0;
        let mut idx: usize = positions.len();
        let mut in_window: bool = true;
        while idx > 0 && in_window
            invariant
                len == data@.len(),
                pos + 8 <= len,
                bucket == positions@,
                target == swar_find_spec(data@, pos as int, seen_of(self@), hash),
                idx <= bucket.len(),
                forall|i: nat|
                    i < 8 ==> #[trigger] byte_at(current.data, i) == data@[pos + i] as nat,
                best_len == 3 || (4 <= best_len < 8 && is_match(
                    data@,
                    pos as int,
                    (best_dist, best_len as u16),
                )),
                target == (if in_window {
                    scan_spec(
                        data@,
                        pos as int,
                        bucket,
                        idx as nat,
                        best_len as nat,
                        best_dist as nat,
                    )
                } else {
                    best_match(best_len as nat, best_dist as nat)
                }),
            decreases idx,
        {
            idx -= 1;
            let prev_pos: usize = positions[idx];
            if prev_pos < pos {
                let distance: usize = pos - prev_pos;
                if distance >= WINDOW_SIZE {
                    in_window = false;
                } else {
                    let prev = Swar::from_bytes(slice_subrange(data, prev_pos, len));
                    let match_len: usize = current.find_match_length(&prev);
                    proof {
                        assert forall|q: nat| q < 8 implies #[trigger] byte_at(prev.data, q)
                            == data@[prev_pos + q] as nat by {
                            assert(data@.subrange(prev_pos as int, len as int)[q as int]
                                == data@[prev_pos + q]);
                        }
                        assert forall|i: int| pos <= i < pos + match_len implies #[trigger] data@[i]
                            == data@[i - distance] by {
                            let q = (i - pos) as nat;
                            assert(byte_at(current.data, q) == byte_at(prev.data, q));
                        }
                        assert forall|x: int| pos <= x < pos + match_len implies #[trigger] data@[x]
                            == data@[x - pos + prev_pos] by {
                            assert(data@[x] == data@[x - distance]);
                        }
                        if match_len < 8 {
                            assert(byte_at(current.data, match_len as nat) != byte_at(
                                prev.data,
                                match_len as nat,
                            ));
                        }
                        lemma_common_front(
                            data@,
                            pos as int,
                            prev_pos as int,
                            8,
                            match_len as nat,
                        );
                    }
                    if match_len > best_len {
                        best_len = match_len;
                        best_dist = distance as u32;
                        if match_len == 8 {
                            let total: usize = self.extend_match(data, pos, distance);
                            assert(target == Some(
                                (
                                    (pos - prev_pos) as u32,
                                    extended_len(data@, pos as int, pos - prev_pos) as u16,
                                ),
                            ));
                            return Some((best_dist, total as u16));
                        }
                    }
                }
            }
        }
        if best_len >= MIN_MATCH_LENGTH {
            Some((best_dist, best_len as u16))
        } else {
            None
        }
    }

    /// The length of a match at `pos` and distance `distance` whose first
    /// eight bytes agree: it grows by eight bytes at a time, then by single
    /// bytes, while the bytes agree and the match is shorter than the
    /// longest one.
    fn extend_match(&self, data: &[u8], pos: usize, distance: usize) -> (total: usize)
        requires
            0 < distance <= pos,
            pos + 8 <= data@.len(),
            forall|i: int| pos <= i < pos + 8 ==> #[trigger] data@[i] == data@[i - distance],
        ensures
            total == extended_len(data@, pos as int, distance as int),
            8 <= total <= 264,
            pos + total <= data@.len(),
            forall|i: int| pos <= i < pos + total ==> #[trigger] data@[i] == data@[i - distance],
    {
        let len: usize = data.len();
        let mut total: usize = 8;
        let mut more: bool = true;
        let ghost whole = grown_by_eights(data@, pos as int, distance as int, 8);
        while more
            invariant
                len == data@.len(),
                0 < distance <= pos,
                8 <= total <= 264,
                total % 8 == 0,
                more ==> total <= 256,
                pos + total <= len,
                forall|i: int|
                    pos <= i < pos + total ==> #[trigger] data@[i] == data@[i - distance],
                whole == (if more {
                    grown_by_eights(data@, pos as int, distance as int, total as nat)
                } else {
                    total as nat
                }),
            decreases len - pos - total + (if more {
                1int
            } else {
                0int
            }),
        {
            let curr: usize = pos + total;
            if len - curr >= 8 && total < MAX_MATCH_LENGTH {
                let a = slice_subrange(data, curr - distance, curr - distance + 8);
                let b = slice_subrange(data, curr, curr + 8);
                if self.compare_bytes_swar(a, b, 8) {
                    proof {
                        assert forall|i: int| pos <= i < pos + total + 8 implies #[trigger] data@[i]
                            == data@[i - distance] by {
                            if i >= curr {
                                assert(a@.subrange(0, 8)[i - curr] == b@.subrange(0, 8)[i - curr]);
                            }
                        }
                        assert forall|x: int| curr <= x < curr + 8 implies #[trigger] data@[x]
                            == data@[x - curr + (curr - distance)] by {
                            assert(data@[x] == data@[x - distance]);
                        }
                        lemma_common_front(data@, curr as int, curr - distance, 8, 8);
                        assert(grown_by_eights(
                            data@,
                            pos as int,
                            distance as int,
                            total as nat,
                        ) == grown_by_eights(
                            data@,
                            pos as int,
                            distance as int,
                            (total + 8) as nat,
                        ));
                    }
                    total = total + 8;
                    if total > 256 {
                        assert(grown_by_eights(
                            data@,
                            pos as int,
                            distance as int,
                            total as nat,
                        ) == total);
                        more = false;
                    }
                } else {
                    proof {
                        if common_front(data@, curr as int, curr - distance, 8) == 8 {
                            lemma_common_front_agrees(data@, curr as int, curr - distance, 8);
                            assert forall|j: int| 0 <= j < 8 implies a@.subrange(0, 8)[j]
                                == b@.subrange(0, 8)[j] by {
                                assert(data@[curr + j] == data@[curr + j - curr + (curr
                                    - distance)]);
                            }
                            assert(a@.subrange(0, 8) =~= b@.subrange(0, 8));
                        }
                        assert(grown_by_eights(
                            data@,
                            pos as int,
                            distance as int,
                            total as nat,
                        ) == total);
                    }
                    more = false;
                }
            } else {
                assert(grown_by_eights(data@, pos as int, distance as int, total as nat) == total);
                more = false;
            }
        }
        let ghost grown = total;
        while pos + total < len && total < MAX_MATCH_LENGTH && data[pos + total - distance]
            == data[pos + total]
            invariant
                len == data@.len(),
                0 < distance <= pos,
                8 <= grown <= total <= 264,
                pos + total <= len,
                total > grown ==> total <= 258,
                forall|i: int|
                    pos <= i < pos + total ==> #[trigger] data@[i] == data@[i - distance],
            decreases len - pos - total,
        {
            total = total + 1;
        }
        proof {
            let room = least(len - pos - grown, 258 - grown);
            if room > 0 {
                let from = pos + grown;
                assert forall|x: int| from <= x < from + (total - grown) implies #[trigger] data@[x]
                    == data@[x - from + (from - distance)] by {
                    assert(data@[x] == data@[x - distance]);
                }
                lemma_common_front(
                    data@,
                    from,
                    from - distance,
                    room as nat,
                    (total - grown) as nat,
                );
            }
        }
        total
    }

    /// Files `pos` under the hash `h`, behind the positions that are there.
    pub fn remember(&mut self, h: u32, pos: usize)
        ensures
            final(self)@.dom() == old(self)@.dom().insert(h),
            positions_of(final(self)@, h) == positions_of(old(self)@, h).push(pos),
            forall|k: u32| k != h && old(self)@.contains_key(k) ==> final(self)@[k] == old(self)@[k],
            seen_of(final(self)@) == remembered(seen_of(old(self)@), h, pos),
    {
        broadcast use vstd::std_specs::hash::group_hash_axioms;

        let mut bucket: Vec<usize> = match self.hash_table.remove(&h) {
            Some(v) => v,
            None => Vec::new(),
        };
        bucket.push(pos);
        self.hash_table.insert(h, bucket);
        assert(self@.dom() =~= old(self)@.dom().insert(h));
        assert(seen_of(self@) =~= remembered(seen_of(old(self)@), h, pos));
    }

    /// Files the first `n` positions from `pos` on, each under its hash, as
    /// far as four bytes lie at it.
    pub fn remember_run(&mut self, data: &[u8], pos: usize, n: usize)
        requires
            pos + n <= data@.len(),
        ensures
            seen_of(final(self)@) == remembered_upto(
                seen_of(old(self)@),
                data@,
                pos as int,
                n as nat,
            ),
    {
        let len: usize = data.len();
        let mut i: usize = 0;
        while i < n
            invariant
                len == data@.len(),
                pos + n <= len,
                i <= n,
                seen_of(self@) == remembered_upto(
                    seen_of(old(self)@),
                    data@,
                    pos as int,
                    i as nat,
                ),
            decreases n - i,
        {
            if len - (pos + i) >= 4 {
                let h: u32 = self.hash(data, pos + i);
                self.remember(h, pos + i);
            }
            i += 1;
        }
    }

    /// Takes the position that the compressor stands at.
    pub fn advance(&mut self, compressed: &mut Vec<u8>, data: &[u8], w: Walk) -> (n: Walk)
        requires
            data@.len() <= u32::MAX,
            w.pos < data@.len(),
            w.ready(old(compressed)@, data@),
        ensures
            n.tokenizer(final(self)@, final(compressed)@) == tokenizer_step(
                data@,
                w.tokenizer(old(self)@, old(compressed)@),
            ),
            n.pos > w.pos,
            n.ready(final(compressed)@, data@),
    {
        let len: usize = data.len();
        let ghost before = w.tokenizer(self@, compressed@);
        let ghost want = tokenizer_step(data@, before);
        let mut lit_start: usize = w.lit_start;
        let pos: usize = w.pos;
        if pos - lit_start > MAX_LITERALS - 3 {
            self.flush_literals(compressed, data, lit_start, pos);
            lit_start = pos;
        }
        if len - pos < MIN_MATCH_LENGTH {
            return Walk { pos: pos + 1, lit_start, mavg: w.mavg };
        }
        let hash: u32 = self.hash(data, pos);
        match self.find_match(data, pos, hash) {
            Some((distance, length)) => {
                let mavg: i64 = w.mavg + (length as i64) * 2097152 - w.mavg / 1024;
                if pos > lit_start {
                    self.flush_literals(compressed, data, lit_start, pos);
                }
                let ghost tokens = compressed@;
                self.write_match(compressed, distance, length);
                proof {
                    lemma_match_token(tokens, distance, length, data@.subrange(0, pos as int));
                    lemma_ref_copy_matches(data@, pos as int, distance as int, length as nat);
                }
                self.remember_run(data, pos, length as usize);
                let n = Walk { pos: pos + length as usize, lit_start: pos + length as usize, mavg };
                proof {
                    let after = n.tokenizer(self@, compressed@);
                    assert(after.seen == want.seen);
                    assert(after.tokens == want.tokens);
                }
                n
            },
            None => {
                if w.mavg < 3276800 {
                    let skip: usize = if w.mavg < 2129920 {
                        if w.mavg < 1638400 {
                            3
                        } else {
                            2
                        }
                    } else {
                        1
                    };
                    Walk { pos: pos + skip, lit_start, mavg: w.mavg }
                } else {
                    self.remember(hash, pos);
                    Walk { pos: pos + 1, lit_start, mavg: w.mavg }
                }
            },
        }
    }

    /// Compresses `data`, whose length must be a 32-bit number. The result
    /// holds the tokens of `data`, which stand for `data`, the length of
    /// `data` and its checksum. The compressor forgets what it had seen
    /// and holds the positions of `data` afterwards.
    pub fn compress(&mut self, data: &[u8]) -> (r: CompressedData)
        requires
            data@.len() <= u32::MAX,
        ensures
            r.data@ == swar_tokens(data@),
            seen_of(final(self)@) == swar_seen(data@),
            swar_decoded(r.data@) == Some(data@),
            r.metadata.original_size == data@.len(),
            r.metadata.checksum == checksum_spec(data@),
    {
        let len: usize = data.len();
        let mut compressed: Vec<u8> = Vec::with_capacity(len);
        let mut w = Walk { pos: 0, lit_start: 0, mavg: 209715200 };
        self.hash_table = HashMap::with_capacity(
            if len <= 16384 {
                4096
            } else if len <= 131072 {
                32768
            } else {
                131072
            },
        );
        proof {
            assert(data@.subrange(0, 0) =~= Seq::<u8>::empty());
            assert(seen_of(self@) =~= Map::<u32, Seq<usize>>::empty());
            assert(w.tokenizer(self@, compressed@) == tokenizer_start());
        }
        while w.pos < len
            invariant
                len == data@.len(),
                len <= u32::MAX,
                w.ready(compressed@, data@),
                tokenizer_run(data@, tokenizer_start()) == tokenizer_run(
                    data@,
                    w.tokenizer(self@, compressed@),
                ),
            decreases len - w.pos,
        {
            w = self.advance(&mut compressed, data, w);
        }
        if w.pos > w.lit_start {
            self.flush_literals(&mut compressed, data, w.lit_start, w.pos);
        }
        assert(data@.subrange(0, len as int) =~= data@);
        CompressedData {
            metadata: FileMetadata {
                original_size: len as u32,
                checksum: self.calculate_checksum(data),
            },
            data: compressed,
        }
    }

    /// Appends the bytes of `data` from `from` to `to` as a literal token.
    pub fn flush_literals(&self, compressed: &mut Vec<u8>, data: &[u8], from: usize, to: usize)
        requires
            from <= to <= data@.len(),
            to - from <= 65535,
            swar_decoded(old(compressed)@) == Some(data@.subrange(0, from as int)),
        ensures
            final(compressed)@ == old(compressed)@ + literal_token(
                data@.subrange(from as int, to as int),
            ),
            swar_decoded(final(compressed)@) == Some(data@.subrange(0, to as int)),
    {
        let lits = slice_subrange(data, from, to);
        proof {
            lemma_literal_token(compressed@, lits@, data@.subrange(0, from as int));
            assert(data@.subrange(0, from as int) + lits@ =~= data@.subrange(0, to as int));
        }
        self.write_literals(compressed, lits);
    }

    /// Decodes the tokens of `data` up to the first one that is unknown, or
    /// cut off, or refers to before the start of the output, and says
    /// whether it met none.
    pub fn decode_tokens(&self, data: &[u8]) -> (r: (Vec<u8>, bool))
        ensures
            r.0@ == swar_decode_lenient(data@, 0, Seq::empty()),
            r.1 == (swar_decoded(data@) is Some),
            r.1 ==> swar_decoded(data@) == Some(r.0@),
    {
        let len: usize = data.len();
        let mut result: Vec<u8> = Vec::new();
        let mut pos: usize = 0;
        let mut whole: bool = true;
        let mut more: bool = true;
        while pos < len && more
            invariant
                len == data@.len(),
                pos <= len,
                swar_decode_lenient(data@, 0, Seq::empty()) == (if more {
                    swar_decode_lenient(data@, pos as int, result@)
                } else {
                    result@
                }),
                whole ==> more,
                whole ==> swar_decoded(data@) == swar_decode(data@, pos as int, result@),
                !whole ==> swar_decoded(data@) is None,
            decreases len - pos + (if more {
                1int
            } else {
                0int
            }),
        {
            let token: u8 = data[pos];
            if token == 0 {
                if len - pos < 3 {
                    more = false;
                    whole = false;
                } else {
                    let n: usize = read_le16(data, pos + 1) as usize;
                    if n > len - pos - 3 {
                        more = false;
                        whole = false;
                    } else {
                        let ghost before = result@;
                        let mut i: usize = 0;
                        while i < n
                            invariant
                                len == data@.len(),
                                pos + 3 + n <= len,
                                i <= n,
                                result@ == before + data@.subrange(pos + 3, pos + 3 + i),
                            decreases n - i,
                        {
                            result.push(data[pos + 3 + i]);
                            i += 1;
                            assert(result@ =~= before + data@.subrange(pos + 3, pos + 3 + i));
                        }
                        pos = pos + 3 + n;
                    }
                }
            } else if token == 1 {
                if len - pos < 7 {
                    more = false;
                    whole = false;
                } else {
                    let distance: usize = read_le32(data, pos + 1) as usize;
                    let length: usize = read_le16(data, pos + 5) as usize;
                    let have: usize = result.len();
                    if distance > have || (distance == 0 && length > 0) {
                        more = false;
                        whole = false;
                    } else {
                        let ghost before = result@;
                        let mut i: usize = 0;
                        while i < length
                            invariant
                                i <= length,
                                have == before.len(),
                                distance <= have,
                                distance > 0 || length == 0,
                                result@.len() == have + i,
                                ref_copy(result@, distance as int, (length - i) as nat) == ref_copy(
                                    before,
                                    distance as int,
                                    length as nat,
                                ),
                            decreases length - i,
                        {
                            let at: usize = result.len() - distance;
                            let b: u8 = result[at];
                            result.push(b);
                            i += 1;
                        }
                        pos = pos + 7;
                    }
                }
            } else {
                more = false;
                whole = false;
            }
        }
        (result, whole)
    }

    /// Decompresses `compressed`, which must hold whole tokens that stand
    /// for data of the length and the checksum that its metadata give.
    pub fn decompress(&self, compressed: &CompressedData) -> (r: Vec<u8>)
        requires
            swar_decoded(compressed.data@) is Some,
            swar_decoded(compressed.data@)->Some_0.len() == compressed.metadata.original_size,
            checksum_spec(swar_decoded(compressed.data@)->Some_0) == compressed.metadata.checksum,
        ensures
            swar_decoded(compressed.data@) == Some(r@),
    {
        let (result, whole) = self.decode_tokens(compressed.data.as_slice());
        result
    }

    /// The sum of the lengths that the tokens of `data` announce, up to the
    /// first token that is unknown or whose header is cut off; the largest
    /// machine number where the sum is larger.
    pub fn decompress_size(&self, data: &[u8]) -> (total: usize)
        ensures
            declared_size(data@, 0, 0) <= usize::MAX ==> total == declared_size(data@, 0, 0),
            declared_size(data@, 0, 0) > usize::MAX ==> total == usize::MAX,
    {
        let len: usize = data.len();
        let mut pos: usize = 0;
        let mut sum: u128 = 0;
        let mut more: bool = true;
        while pos < len && more
            invariant
                len == data@.len(),
                pos <= len,
                more ==> sum <= 65535 * pos,
                sum <= 65535 * (pos + 1),
                declared_size(data@, 0, 0) == (if more {
                    declared_size(data@, pos as int, sum as nat)
                } else {
                    sum as nat
                }),
            decreases len - pos + (if more {
                1int
            } else {
                0int
            }),
        {
            let token: u8 = data[pos];
            if token == 0 && len - pos >= 3 {
                let n: usize = read_le16(data, pos + 1) as usize;
                proof {
                    assert(declared_size(data@, pos as int, sum as nat) == declared_size(
                        data@,
                        pos + 3 + n,
                        (sum + n) as nat,
                    ));
                    if n > len - pos - 3 {
                        assert(declared_size(data@, pos + 3 + n, (sum + n) as nat) == sum + n);
                    }
                }
                sum = sum + n as u128;
                if n > len - pos - 3 {
                    more = false;
                } else {
                    pos = pos + 3 + n;
                }
            } else if token == 1 && len - pos >= 7 {
                let n: usize = read_le16(data, pos + 5) as usize;
                sum = sum + n as u128;
                pos = pos + 7;
            } else {
                more = false;
            }
        }
        if sum > usize::MAX as u128 {
            usize::MAX
        } else {
            sum as usize
        }
    }

    /// The checksum of what the tokens of `data` stand for, decoded up to
    /// the first token that is unknown, or cut off, or refers to before the
    /// start of the output.
    pub fn calculate_initial_checksum(&self, data: &[u8]) -> (c: u32)
        ensures
            c == checksum_spec(swar_decode_lenient(data@, 0, Seq::empty())),
    {
        let (result, whole) = self.decode_tokens(data);
        self.calculate_checksum(result.as_slice())
    }
}

} // verus!
