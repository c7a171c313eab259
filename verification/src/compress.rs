//! The compressor: the block encoder, the match finder and the driver.

use vstd::prelude::*;
use vstd::slice::slice_subrange;
use crate::bound::{bound_of, bound_spec, lemma_bound_covers};
use crate::constants::{
    LZAV_LIT_FIN, LZAV_MIN_COMPRESS_SIZE, LZAV_REF_LEN, LZAV_REF_MIN, LZAV_WIN_LEN,
};
use crate::encoding::{
    block_bytes, covers, lemma_short_stream_decodes, length_tail, literal_header, literal_part_len,
    own_bits, patched, ref_kind, reference_bytes, reference_head, short_stream, varint_bytes,
    zeros, PREFIX_BYTE,
};
use crate::errors::{CompressError, DecompressError, LZAV_E_PARAMS};
use crate::format::{decoded, least};
use crate::hashtable::{
    calculate_hash_table_size, fresh_table, hash_spec, hash_table_insert, hash_table_probe,
    hash_table_seed, inserted, le16_at, le32_at, lzav_hash, read_le16, read_le32, scratch_size,
    scratch_use, slot_entry, slot_of, slot_offset, table_size_spec,
};
use crate::roundtrip::{driver_ok, lemma_driver_start_ok, lemma_driver_step_ok, lemma_long_stream};
use crate::utils::{
    copy_bytes, lemma_writes_join, lemma_writes_spliced, lzav_match_len, lzav_match_len_r, spliced,
    writes, AlignedBuffer,
};

verus! {

/// Writes the base-128 digits of `value` at `pos` and returns the position
/// behind them.
pub fn write_varint(dst: &mut [u8], value: usize, pos: usize) -> (next: usize)
    requires
        value < 0x1000_0000,
        pos + varint_bytes(value as nat).len() <= old(dst)@.len(),
    ensures
        next == pos + varint_bytes(value as nat).len(),
        writes(old(dst)@, final(dst)@, pos as int, varint_bytes(value as nat)),
{
    let n: usize = dst.len();
    if value < 128 {
        dst[pos] = value as u8;
        pos + 1
    } else if value < 16384 {
        dst[pos] = (128 + value % 128) as u8;
        dst[pos + 1] = (value / 128) as u8;
        pos + 2
    } else if value < 2097152 {
        dst[pos] = (128 + value % 128) as u8;
        dst[pos + 1] = (128 + (value / 128) % 128) as u8;
        dst[pos + 2] = (value / 16384) as u8;
        pos + 3
    } else {
        dst[pos] = (128 + value % 128) as u8;
        dst[pos + 1] = (128 + (value / 128) % 128) as u8;
        dst[pos + 2] = (128 + (value / 16384) % 128) as u8;
        dst[pos + 3] = (value / 2097152) as u8;
        pos + 4
    }
}

/// Writes the header of a literal block of `len` bytes with the carry bits
/// `ncv` at `op`, and returns the position behind it.
pub fn write_literal_header(dst: &mut [u8], op: usize, ncv: u8, len: usize) -> (next: usize)
    requires
        ncv < 4,
        0 < len < 0x1000_0010,
        op + literal_header(ncv as nat, len as nat).len() <= old(dst)@.len(),
    ensures
        next == op + literal_header(ncv as nat, len as nat).len(),
        next <= op + 5,
        writes(old(dst)@, final(dst)@, op as int, literal_header(ncv as nat, len as nat)),
{
    let n: usize = dst.len();
    if len < 16 {
        dst[op] = 64 * ncv + len as u8;
        op + 1
    } else {
        dst[op] = 64 * ncv;
        let ghost mid = dst@;
        let next: usize = write_varint(dst, len - 16, op + 1);
        proof {
            assert(writes(old(dst)@, mid, op as int, seq![(64 * ncv) as u8]));
            lemma_writes_join(
                old(dst)@,
                mid,
                dst@,
                op as int,
                seq![(64 * ncv) as u8],
                varint_bytes((len - 16) as nat),
            );
        }
        next
    }
}

/// Writes a literal block at `op`: the header with the carry bits `ncv`,
/// then `len` bytes of `src` from `from`. Returns the position behind the
/// block.
pub fn write_literals(dst: &mut [u8], op: usize, ncv: u8, src: &[u8], from: usize, len: usize) -> (next:
    usize)
    requires
        ncv < 4,
        0 < len < 0x1000_0010,
        from + len <= src@.len(),
        op + literal_header(ncv as nat, len as nat).len() + len <= old(dst)@.len(),
    ensures
        next == op + literal_header(ncv as nat, len as nat).len() + len,
        next <= op + 5 + len,
        writes(
            old(dst)@,
            final(dst)@,
            op as int,
            literal_header(ncv as nat, len as nat) + src@.subrange(from as int, from + len),
        ),
{
    let n: usize = dst.len();
    let at: usize = write_literal_header(dst, op, ncv, len);
    let ghost mid = dst@;
    copy_bytes(src, dst, from, at, len);
    proof {
        lemma_writes_join(
            old(dst)@,
            mid,
            dst@,
            op as int,
            literal_header(ncv as nat, len as nat),
            src@.subrange(from as int, from + len),
        );
    }
    at + len
}

/// Writes the header byte and the offset bytes of a reference block with
/// the distance bits `d` and the length nibble `nib` at `op`, and returns
/// the position behind them.
pub fn write_reference_head(dst: &mut [u8], op: usize, d: usize, nib: usize) -> (next: usize)
    requires
        d < 0x80_0000,
        nib < 16,
        op + ref_kind(d as nat) + 1 <= old(dst)@.len(),
    ensures
        next == op + ref_kind(d as nat) + 1,
        writes(old(dst)@, final(dst)@, op as int, reference_head(d as nat, nib as nat)),
{
    let n: usize = dst.len();
    let kind: usize = if d > 0x3FFFF {
        3
    } else if d > 0x3FF {
        2
    } else {
        1
    };
    let ov: usize = d * 64 + kind * 16 + nib;
    dst[op] = (ov % 256) as u8;
    if kind == 1 {
        dst[op + 1] = (ov / 256) as u8;
    } else if kind == 2 {
        dst[op + 1] = ((ov / 256) % 256) as u8;
        dst[op + 2] = (ov / 65536) as u8;
    } else {
        dst[op + 1] = ((ov / 256) % 256) as u8;
        dst[op + 2] = ((ov / 65536) % 256) as u8;
        dst[op + 3] = (ov / 16777216) as u8;
    }
    op + kind + 1
}

/// Writes the length bytes of a reference block of `len` bytes at `op`,
/// and returns the position behind them.
pub fn write_length_tail(dst: &mut [u8], op: usize, len: usize) -> (next: usize)
    requires
        len <= 530,
        op + length_tail(len as nat).len() <= old(dst)@.len(),
    ensures
        next == op + length_tail(len as nat).len(),
        writes(old(dst)@, final(dst)@, op as int, length_tail(len as nat)),
{
    let n: usize = dst.len();
    if len < 22 {
        op
    } else if len < 276 {
        dst[op] = (len - 21) as u8;
        op + 1
    } else {
        dst[op] = 255;
        dst[op + 1] = (len - 276) as u8;
        op + 2
    }
}

/// Writes a reference block of `len` bytes with the distance bits `d` at
/// `op`, and returns the position behind it. The shortest reference that
/// has a code is one of seven bytes.
pub fn write_reference(dst: &mut [u8], op: usize, d: usize, len: usize) -> (next: usize)
    requires
        d < 0x80_0000,
        7 <= len <= 530,
        op + reference_bytes(d as nat, len as nat).len() <= old(dst)@.len(),
    ensures
        next == op + reference_bytes(d as nat, len as nat).len(),
        next <= op + 6,
        next + 3 <= op + len,
        writes(old(dst)@, final(dst)@, op as int, reference_bytes(d as nat, len as nat)),
{
    let nib: usize = if len < 22 {
        len - 6
    } else {
        0
    };
    let at: usize = write_reference_head(dst, op, d, nib);
    let ghost mid = dst@;
    let next: usize = write_length_tail(dst, at, len);
    proof {
        lemma_writes_join(
            old(dst)@,
            mid,
            dst@,
            op as int,
            reference_head(d as nat, nib as nat),
            length_tail(len as nat),
        );
    }
    next
}

/// What the block encoder hands from one block to the next.
#[derive(Clone, Copy, Debug)]
pub struct BlockState {
    /// The position of the last offset byte of the last reference block:
    /// the byte whose top bits take the low bits of the next distance.
    pub cbp: usize,
    /// The top bits of the distance bits of the last reference block.
    pub cv: usize,
    /// The number of low bits of the next distance that go to the byte at
    /// `cbp`: 3 behind a reference block with three offset bytes, else 0.
    pub csh: u8,
}

impl BlockState {
    /// The number of values that the free bits at `cbp` can take.
    pub open spec fn scale(self) -> nat {
        if self.csh == 3 {
            8
        } else {
            1
        }
    }

    /// The state before the first block: nothing to carry to.
    pub fn new() -> (s: BlockState)
        ensures
            s.cbp == 0,
            s.cv == 0,
            s.csh == 0,
    {
        BlockState { cbp: 0, cv: 0, csh: 0 }
    }
}

/// The state behind a block that was written at `op`, behind a reference
/// that left room for `scale` values of carry, with `lc` literals and a
/// reference at distance `d`.
pub open spec fn state_after(op: int, scale: nat, lc: nat, d: nat) -> BlockState {
    let own = own_bits(scale, lc, d);
    BlockState {
        cbp: (op + literal_part_len(scale, lc, d) + ref_kind(own)) as usize,
        cv: (if ref_kind(own) == 3 {
            own / 0x200000
        } else {
            0
        }) as usize,
        csh: if ref_kind(own) == 3 {
            3u8
        } else {
            0u8
        },
    }
}

/// Writes one block at `op`: the `lc` bytes of `src` from `ipa` as a
/// literal run, if `lc` is not 0, and a reference of `rc` bytes at distance
/// `d`. The low bits of `d` go to the free bits of the previous reference
/// block and to the literal header. Returns the position behind the block
/// and the state for the next block.
#[verifier::rlimit(40)]
pub fn write_block(
    dst: &mut [u8],
    op: usize,
    lc: usize,
    rc: usize,
    d: usize,
    src: &[u8],
    ipa: usize,
    state: BlockState,
) -> (r: (usize, BlockState))
    requires
        state.csh == 0 || state.csh == 3,
        state.cbp < op,
        state.csh == 3 ==> old(dst)@[state.cbp as int] < 32,
        ipa + lc <= src@.len(),
        lc < 0x80_0000,
        7 <= rc <= 530,
        0 < d < 0x80_0000,
        op + block_bytes(
            state.scale(),
            src@.subrange(ipa as int, ipa + lc),
            rc as nat,
            d as nat,
        ).len() <= old(dst)@.len(),
    ensures
        final(dst)@.len() == old(dst)@.len(),
        r.0 == op + block_bytes(
            state.scale(),
            src@.subrange(ipa as int, ipa + lc),
            rc as nat,
            d as nat,
        ).len(),
        r.0 <= op + lc + 11,
        final(dst)@.subrange(0, r.0 as int) == patched(
            old(dst)@.subrange(0, op as int),
            state.cbp as int,
            (d as nat) % state.scale(),
        ) + block_bytes(state.scale(), src@.subrange(ipa as int, ipa + lc), rc as nat, d as nat),
        final(dst)@.subrange(r.0 as int, old(dst)@.len() as int) == old(dst)@.subrange(
            r.0 as int,
            old(dst)@.len() as int,
        ),
        r.1 == state_after(op as int, state.scale(), lc as nat, d as nat),
        r.1.cbp == op + literal_part_len(state.scale(), lc as nat, d as nat) + ref_kind(
            own_bits(state.scale(), lc as nat, d as nat),
        ),
{
    let n: usize = dst.len();
    let ghost total = n as int;
    let ghost lits = src@.subrange(ipa as int, ipa + lc);
    let ghost scale = state.scale();
    let mut rest: usize = d;
    if state.csh == 3 {
        let b: u8 = dst[state.cbp];
        dst[state.cbp] = b + 32 * ((rest % 8) as u8);
        rest = rest / 8;
    }
    assert(dst@ =~= patched(old(dst)@, state.cbp as int, (d as nat) % scale));
    let ghost low = dst@;
    let mut at: usize = op;
    let ghost mut lit_part = Seq::<u8>::empty();
    if lc > 0 {
        let ncv: u8 = (rest % 4) as u8;
        rest = rest / 4;
        at = write_literals(dst, at, ncv, src, ipa, lc);
        proof {
            lit_part = literal_header(ncv as nat, lc as nat) + lits;
        }
    }
    let ghost mid = dst@;
    assert(writes(low, mid, op as int, lit_part));
    let next: usize = write_reference(dst, at, rest, rc);
    let kind: usize = if rest > 0x3FFFF {
        3
    } else if rest > 0x3FF {
        2
    } else {
        1
    };
    proof {
        let bb = block_bytes(scale, lits, rc as nat, d as nat);
        assert(rest == own_bits(scale, lc as nat, d as nat));
        lemma_writes_join(low, mid, dst@, op as int, lit_part, reference_bytes(rest as nat, rc as nat));
        assert(lit_part + reference_bytes(rest as nat, rc as nat) =~= bb);
        lemma_writes_spliced(low, dst@, op as int, bb);
        assert(dst@.subrange(0, next as int) =~= patched(
            old(dst)@.subrange(0, op as int),
            state.cbp as int,
            (d as nat) % scale,
        ) + bb);
        assert(dst@.subrange(next as int, total) =~= old(dst)@.subrange(next as int, total));
    }
    (
        next,
        BlockState {
            cbp: at + kind,
            cv: if kind == 3 {
                rest / 0x200000
            } else {
                0
            },
            csh: if kind == 3 {
                3
            } else {
                0
            },
        },
    )
}

/// Writes the last block of a stream at `op`: the bytes of `src` from
/// `ipa` on, as one literal run that carries nothing. Returns the position
/// behind it.
pub fn write_final_block(dst: &mut [u8], op: usize, src: &[u8], ipa: usize) -> (next: usize)
    requires
        ipa < src@.len(),
        src@.len() - ipa < 0x1000_0010,
        op + literal_header(0, (src@.len() - ipa) as nat).len() + (src@.len() - ipa) <= old(
            dst,
        )@.len(),
    ensures
        next == op + literal_header(0, (src@.len() - ipa) as nat).len() + (src@.len() - ipa),
        next <= op + 5 + (src@.len() - ipa),
        final(dst)@ == spliced(
            old(dst)@,
            op as int,
            literal_header(0, (src@.len() - ipa) as nat) + src@.subrange(
                ipa as int,
                src@.len() as int,
            ),
        ),
{
    let len: usize = src.len() - ipa;
    let next: usize = write_literals(dst, op, 0, src, ipa, len);
    proof {
        lemma_writes_spliced(
            old(dst)@,
            dst@,
            op as int,
            literal_header(0, len as nat) + src@.subrange(ipa as int, src@.len() as int),
        );
    }
    next
}

/// Writes the stream of a source of fewer than 16 bytes to the start of
/// `dst`: the prefix byte, the length, the bytes, and zeros up to six bytes
/// of payload. Returns the length of the stream.
pub fn write_short_data(src: &[u8], dst: &mut [u8]) -> (n: usize)
    requires
        0 < src@.len() < 16,
        old(dst)@.len() >= 2 + src@.len(),
        old(dst)@.len() >= 8,
    ensures
        n == short_stream(src@).len(),
        final(dst)@ == spliced(old(dst)@, 0, short_stream(src@)),
{
    let srcl: usize = src.len();
    let cap: usize = dst.len();
    dst[0] = PREFIX_BYTE;
    dst[1] = srcl as u8;
    let ghost mid = dst@;
    assert(writes(old(dst)@, mid, 0, seq![PREFIX_BYTE, srcl as u8]));
    copy_bytes(src, dst, 0, 2, srcl);
    assert(src@.subrange(0, srcl as int) =~= src@);
    proof {
        lemma_writes_join(old(dst)@, mid, dst@, 0, seq![PREFIX_BYTE, srcl as u8], src@);
    }
    let ghost body = seq![PREFIX_BYTE, srcl as u8] + src@;
    let mut op: usize = 2 + srcl;
    assert(body + zeros(0) =~= body);
    while op < 2 + LZAV_LIT_FIN
        invariant
            cap == dst@.len(),
            cap == old(dst)@.len(),
            cap >= 8,
            srcl == src@.len(),
            body == seq![PREFIX_BYTE, srcl as u8] + src@,
            2 + srcl <= op,
            op <= 8 || op == 2 + srcl,
            writes(old(dst)@, dst@, 0, body + zeros((op - 2 - srcl) as nat)),
        decreases 8 - op,
    {
        let ghost before = dst@;
        dst[op] = 0;
        op = op + 1;
        proof {
            let prev = body + zeros((op - 3 - srcl) as nat);
            let done = body + zeros((op - 2 - srcl) as nat);
            assert forall|j: int| 0 <= j < done.len() implies dst@[0 + j] == #[trigger] done[j] by {
                if j < op - 1 {
                    assert(before[0 + j] == prev[j]);
                    assert(prev[j] == done[j]);
                }
            }
        }
    }
    proof {
        lemma_writes_spliced(old(dst)@, dst@, 0, short_stream(src@));
    }
    op
}

/// A back-reference that the match finder chose: `len` bytes from `start`
/// repeat what lies `dist` bytes before them.
#[derive(Clone, Copy, Debug)]
pub struct Match {
    pub start: usize,
    pub len: usize,
    pub dist: usize,
}

impl Match {
    /// That the match can be written as a reference block behind the
    /// literals from `ipa` on: it starts in the pending literals and covers
    /// at least six bytes from `ip`, its length and distance are in range,
    /// it leaves the last six bytes of the source alone, and the source
    /// does repeat.
    pub open spec fn valid(self, src: Seq<u8>, ipa: int, ip: int) -> bool {
        &&& ipa <= self.start <= ip
        &&& 7 <= self.len <= 530
        &&& 8 <= self.dist <= self.start
        &&& self.dist <= 8388608
        &&& ip + 6 <= self.start + self.len
        &&& self.start + self.len + 6 <= src.len()
        &&& forall|i: int|
            self.start <= i < self.start + self.len ==> #[trigger] src[i] == src[i - self.dist]
    }
}

/// The number of bytes, at most `limit`, that are the same from `i` on and
/// from `j` on, up to the first that differs.
pub open spec fn common_front(src: Seq<u8>, i: int, j: int, limit: nat) -> nat
    decreases limit,
{
    if limit == 0 || src[i] != src[j] {
        0
    } else {
        1 + common_front(src, i + 1, j + 1, (limit - 1) as nat)
    }
}

/// The number of bytes, at most `limit`, that are the same before `i` and
/// before `j`, counted backward up to the first that differs.
pub open spec fn common_back(src: Seq<u8>, i: int, j: int, limit: nat) -> nat
    decreases limit,
{
    if limit == 0 || src[i - 1] != src[j - 1] {
        0
    } else {
        1 + common_back(src, i - 1, j - 1, (limit - 1) as nat)
    }
}

/// A count of equal bytes that stops at the limit or at a difference is
/// the common length.
pub proof fn lemma_common_front(src: Seq<u8>, i: int, j: int, limit: nat, k: nat)
    requires
        k <= limit,
        forall|x: int| i <= x < i + k ==> #[trigger] src[x] == src[x - i + j],
        k < limit ==> src[i + k] != src[j + k],
    ensures
        common_front(src, i, j, limit) == k,
    decreases k,
{
    if k > 0 {
        assert(src[i] == src[i - i + j]);
        assert forall|x: int| i + 1 <= x < i + 1 + (k - 1) implies #[trigger] src[x] == src[x - (i
            + 1) + (j + 1)] by {
            assert(src[x] == src[x - i + j]);
        }
        lemma_common_front(src, i + 1, j + 1, (limit - 1) as nat, (k - 1) as nat);
    }
}

/// A backward count of equal bytes that stops at the limit or at a
/// difference is the common length.
pub proof fn lemma_common_back(src: Seq<u8>, i: int, j: int, limit: nat, k: nat)
    requires
        k <= limit,
        forall|x: int| i - k <= x < i ==> #[trigger] src[x] == src[x - i + j],
        k < limit ==> src[i - 1 - k] != src[j - 1 - k],
    ensures
        common_back(src, i, j, limit) == k,
    decreases k,
{
    if k > 0 {
        assert(src[i - 1] == src[i - 1 - i + j]);
        assert forall|x: int| i - 1 - (k - 1) <= x < i - 1 implies #[trigger] src[x] == src[x - (i
            - 1) + (j - 1)] by {
            assert(src[x] == src[x - i + j]);
        }
        lemma_common_back(src, i - 1, j - 1, (limit - 1) as nat, (k - 1) as nat);
    }
}

/// The longest match that may start at `ip` with distance `d`: it is no
/// longer than its distance or than the longest reference, and it ends
/// before the last six bytes of the source.
pub open spec fn forward_limit(srcl: nat, ip: int, d: int) -> int {
    least(least(530, d), srcl - 6 - ip)
}

/// The length of the match at `ip` with the candidate `(key, pos)` of a
/// hash table slot, or 0 where there is none: the key must be the four
/// bytes `iw1` at `ip`, the distance must be at least 8 and within the
/// window, and at least six bytes must match.
#[verifier::opaque]
pub open spec fn candidate_spec(src: Seq<u8>, ip: int, key: u32, pos: u32, iw1: u32) -> nat {
    let d = ip - pos;
    let limit = forward_limit(src.len(), ip, d);
    if key == iw1 && pos < ip && 8 <= d <= 8388608 && limit >= 6 && common_front(
        src,
        ip,
        pos as int,
        limit as nat,
    ) >= 6 {
        common_front(src, ip, pos as int, limit as nat)
    } else {
        0
    }
}

/// The match at `ip` among the two candidates of a hash table slot: none
/// where neither is one; else the longer one, the first where both are as
/// long, extended backward over the pending literals from `ipa` on as far
/// as the bytes before both places agree, and no further than the
/// distance, the longest reference and the start of the source allow.
///
/// A match that is no longer than six bytes even so is given up: the
/// stream has no code for a reference of exactly six bytes.
pub open spec fn find_match_spec(
    src: Seq<u8>,
    ip: int,
    ipa: int,
    entry: (u32, u32, u32, u32),
    iw1: u32,
) -> Option<Match> {
    let k0 = candidate_spec(src, ip, entry.0, entry.1, iw1);
    let k1 = candidate_spec(src, ip, entry.2, entry.3, iw1);
    if k0 == 0 && k1 == 0 {
        None
    } else {
        let fwd = if k1 > k0 {
            k1
        } else {
            k0
        };
        let pos = if k1 > k0 {
            entry.3
        } else {
            entry.1
        };
        let d = ip - pos;
        let room = least(least(least(ip - ipa, d), 530 - fwd), pos as int);
        let back = common_back(src, ip, pos as int, room as nat);
        if fwd + back < 7 {
            None
        } else {
            Some(
                Match { start: (ip - back) as usize, len: (fwd + back) as usize, dist: d as usize },
            )
        }
    }
}

/// The length of the match at `ip` with one candidate of a hash table
/// slot, or 0.
#[verifier::rlimit(40)]
pub fn candidate_len(src: &[u8], ip: usize, key: u32, pos: u32, iw1: u32) -> (k: usize)
    requires
        ip + 6 <= src@.len(),
    ensures
        k == candidate_spec(src@, ip as int, key, pos, iw1),
        k == 0 || 6 <= k <= 530,
        k != 0 ==> key == iw1 && pos < ip && 8 <= ip - pos <= 8388608 && k <= ip - pos && ip + k
            + 6 <= src@.len() && forall|i: int| ip <= i < ip + k ==> #[trigger] src@[i] == src@[i - (
        ip - pos)],
{
    proof {
        reveal(candidate_spec);
    }
    let srcl: usize = src.len();
    let p: usize = pos as usize;
    if key != iw1 || p >= ip {
        return 0;
    }
    let d: usize = ip - p;
    if d < 8 || d > LZAV_WIN_LEN {
        return 0;
    }
    let room: usize = srcl - LZAV_LIT_FIN - ip;
    let mut ml: usize = if d < LZAV_REF_LEN {
        d
    } else {
        LZAV_REF_LEN
    };
    if room < ml {
        ml = room;
    }
    if ml < LZAV_REF_MIN {
        return 0;
    }
    let a = slice_subrange(src, ip, ip + ml);
    let b = slice_subrange(src, p, p + ml);
    let k: usize = lzav_match_len(a, b, ml);
    proof {
        assert forall|i: int| ip <= i < ip + k implies #[trigger] src@[i] == src@[i - d] by {
            assert(a@[i - ip] == b@[i - ip]);
        }
        assert forall|x: int| ip <= x < ip + k implies #[trigger] src@[x] == src@[x - ip + p] by {
            assert(src@[x] == src@[x - d]);
        }
        if k < ml {
            assert(a@[k as int] != b@[k as int]);
        }
        lemma_common_front(src@, ip as int, p as int, ml as nat, k as nat);
    }
    if k < LZAV_REF_MIN {
        0
    } else {
        k
    }
}

/// How far a match of `fwd` bytes at `ip`, with its source at `pos`,
/// reaches backward over the pending literals from `ipa` on.
#[verifier::rlimit(40)]
pub fn extend_back(src: &[u8], ip: usize, ipa: usize, pos: usize, fwd: usize) -> (back: usize)
    requires
        ipa <= ip <= src@.len(),
        pos < ip,
        fwd <= 530,
    ensures
        back == common_back(
            src@,
            ip as int,
            pos as int,
            least(least(least(ip - ipa, ip - pos), 530 - fwd), pos as int) as nat,
        ),
        back <= ip - ipa,
        back <= pos,
        back + fwd <= 530,
        forall|i: int| ip - back <= i < ip ==> #[trigger] src@[i] == src@[i - (ip - pos)],
{
    let d: usize = ip - pos;
    let mut mlb: usize = ip - ipa;
    if d < mlb {
        mlb = d;
    }
    if LZAV_REF_LEN - fwd < mlb {
        mlb = LZAV_REF_LEN - fwd;
    }
    if pos < mlb {
        mlb = pos;
    }
    let a = slice_subrange(src, ipa, ip);
    let b = slice_subrange(src, 0, pos);
    let bmc: usize = lzav_match_len_r(a, b, mlb);
    proof {
        assert forall|i: int| ip - bmc <= i < ip implies #[trigger] src@[i] == src@[i - d] by {
            assert(a@[i - ipa] == b@[i - ipa - a@.len() + b@.len()]);
        }
        assert forall|x: int| ip - bmc <= x < ip implies #[trigger] src@[x] == src@[x - ip + pos] by {
            assert(src@[x] == src@[x - d]);
        }
        if bmc < mlb {
            assert(a@[a@.len() - 1 - bmc] != b@[b@.len() - 1 - bmc]);
        }
        lemma_common_back(src@, ip as int, pos as int, mlb as nat, bmc as nat);
    }
    bmc
}

/// Looks for a match at `ip` among the two candidates of a hash table
/// slot and extends it backward over the pending literals from `ipa` on.
#[verifier::rlimit(40)]
pub fn find_match(src: &[u8], ip: usize, ipa: usize, entry: (u32, u32, u32, u32), iw1: u32) -> (r:
    Option<Match>)
    requires
        ipa <= ip,
        ip + 6 <= src@.len(),
    ensures
        r == find_match_spec(src@, ip as int, ipa as int, entry, iw1),
        r matches Some(m) ==> m.valid(src@, ipa as int, ip as int),
{
    let k0: usize = candidate_len(src, ip, entry.0, entry.1, iw1);
    let k1: usize = candidate_len(src, ip, entry.2, entry.3, iw1);
    if k0 == 0 && k1 == 0 {
        return None;
    }
    let fwd: usize = if k1 > k0 {
        k1
    } else {
        k0
    };
    let pos: usize = if k1 > k0 {
        entry.3 as usize
    } else {
        entry.1 as usize
    };
    let back: usize = extend_back(src, ip, ipa, pos, fwd);
    if fwd + back < LZAV_REF_MIN + 1 {
        return None;
    }
    let m = Match { start: ip - back, len: fwd + back, dist: ip - pos };
    proof {
        let d = ip - pos;
        assert forall|i: int| m.start <= i < m.start + m.len implies #[trigger] src@[i] == src@[i
            - m.dist] by {
            if i < ip {
                assert(src@[i] == src@[i - (ip - pos)]);
            }
        }
    }
    Some(m)
}

/// The running average of match lengths at the start: 100 bytes, scaled
/// by `2^21`.
pub const MAVG_START: u32 = 209715200;

/// The largest running average: the longest reference, scaled by `2^21`.
pub const MAVG_MAX: u32 = 1111490560;

/// The average after a match of `rc` bytes: it moves a 1024th of the way
/// to `rc * 2^21`, rounded down.
pub open spec fn mavg_after_spec(mavg: u32, rc: nat) -> u32 {
    if rc * 2097152 >= mavg {
        (mavg + (rc * 2097152 - mavg) / 1024) as u32
    } else {
        (mavg - (mavg - rc * 2097152 + 1023) / 1024) as u32
    }
}

/// The average after a match of `rc` bytes.
pub fn mavg_after_match(mavg: u32, rc: usize) -> (r: u32)
    requires
        mavg <= MAVG_MAX,
        rc <= 530,
    ensures
        r == mavg_after_spec(mavg, rc as nat),
        r <= MAVG_MAX,
{
    let target: u32 = (rc as u32) * 2097152;
    if target >= mavg {
        mavg + (target - mavg) / 1024
    } else {
        mavg - (mavg - target + 1023) / 1024
    }
}

/// The average after a position without a match: it loses a 2048th.
pub open spec fn mavg_decayed(mavg: u32) -> u32 {
    (mavg - mavg / 2048) as u32
}

/// Where the driver goes on from `ip` after a position without a match,
/// and the dither bit then, given the decayed average `mavg` and the
/// dither bit `rndb`. It moves one byte; where the average is under 200
/// bytes and literals are pending, it first moves one byte and the dither
/// bit, takes the low bit of that position as the new dither bit, moves
/// one byte more under 130 bytes, and under 100 bytes as many bytes more
/// as the average lacks.
pub open spec fn skip_spec(ip: int, ipa: int, mavg: u32, rndb: u32) -> (int, u32) {
    if mavg < 3276800 && ip != ipa {
        (
            ip + 2 + rndb + (if mavg < 2129920 {
                1int
            } else {
                0int
            }) + (if mavg < 1638400 {
                100 - mavg / 16384
            } else {
                0
            }),
            ((ip + 1 + rndb) % 2) as u32,
        )
    } else {
        (ip + 1, rndb)
    }
}

/// Where the driver goes on from `ip` after a position without a match,
/// and the dither bit then.
pub fn skip_ahead(ip: usize, ipa: usize, mavg: u32, rndb: u32) -> (r: (usize, u32))
    requires
        ip <= 8388608,
        rndb <= 1,
        mavg <= MAVG_MAX,
    ensures
        (r.0 as int, r.1) == skip_spec(ip as int, ipa as int, mavg, rndb),
        ip < r.0 <= ip + 104,
        r.1 <= 1,
{
    let mut next: usize = ip;
    let mut bit: u32 = rndb;
    if mavg < 3276800 && ip != ipa {
        next = next + 1 + rndb as usize;
        bit = (next % 2) as u32;
        if mavg < 2129920 {
            next = next + 1;
            if mavg < 1638400 {
                next = next + (100 - (mavg / 16384) as usize);
            }
        }
    }
    (next + 1, bit)
}

/// The compressor between two positions: the hash table, the stream so
/// far, the position, the start of the pending literals, the state of the
/// block encoder, the running average and the dither bit.
pub struct Driver {
    pub table: Seq<u8>,
    pub stream: Seq<u8>,
    pub ip: int,
    pub ipa: int,
    pub state: BlockState,
    pub mavg: u32,
    pub rndb: u32,
}

/// The compressor in front of a source: a fresh table, the prefix byte,
/// and the position 16.
pub open spec fn driver_start(src: Seq<u8>, used: nat) -> Driver {
    Driver {
        table: fresh_table(used, le32_at(src, 0)),
        stream: seq![PREFIX_BYTE],
        ip: 16,
        ipa: 0,
        state: BlockState { cbp: 0, cv: 0, csh: 0 },
        mavg: MAVG_START,
        rndb: 0,
    }
}

/// One position of the compressor. The six bytes at the position are
/// hashed and the slot of the hash is searched for a match.
///
/// With a match, the pending literals and the match are written as one
/// block, the position moves behind the match, the average takes the
/// match in, and the dither bit flips; where the match lies more than 273
/// bytes back, the position is stored in the slot.
///
/// Without one, the position is stored in the slot, in the half that the
/// dither bit names, the average decays, and the position moves on as
/// [`skip_spec`] says.
pub open spec fn driver_step(src: Seq<u8>, used: nat, s: Driver) -> Driver {
    let iw1 = le32_at(src, s.ip);
    let off = slot_of(hash_spec(iw1, le16_at(src, s.ip + 4)), used) as int;
    let stored = inserted(s.table, off, s.rndb, iw1, s.ip as u32);
    match find_match_spec(src, s.ip, s.ipa, slot_entry(s.table, off), iw1) {
        Some(m) => Driver {
            table: if m.dist > 273 {
                stored
            } else {
                s.table
            },
            stream: patched(s.stream, s.state.cbp as int, (m.dist as nat) % s.state.scale())
                + block_bytes(
                s.state.scale(),
                src.subrange(s.ipa, m.start as int),
                m.len as nat,
                m.dist as nat,
            ),
            ip: m.start + m.len,
            ipa: m.start + m.len,
            state: state_after(
                s.stream.len() as int,
                s.state.scale(),
                (m.start - s.ipa) as nat,
                m.dist as nat,
            ),
            mavg: mavg_after_spec(s.mavg, m.len as nat),
            rndb: (1 - s.rndb) as u32,
        },
        None => Driver {
            table: stored,
            stream: s.stream,
            ip: skip_spec(s.ip, s.ipa, mavg_decayed(s.mavg), s.rndb).0,
            ipa: s.ipa,
            state: s.state,
            mavg: mavg_decayed(s.mavg),
            rndb: skip_spec(s.ip, s.ipa, mavg_decayed(s.mavg), s.rndb).1,
        },
    }
}

/// The compressor behind the last position: it takes positions as long as
/// more than six bytes of the source lie behind the position.
pub open spec fn driver_run(src: Seq<u8>, used: nat, s: Driver) -> Driver
    decreases
            (if s.ip < src.len() {
                src.len() - s.ip
            } else {
                0
            }),
{
    if s.ip + 6 < src.len() && driver_step(src, used, s).ip > s.ip {
        driver_run(src, used, driver_step(src, used, s))
    } else {
        s
    }
}

/// The stream of a source of at least 16 bytes, compressed with a table
/// of `used` bytes: what the compressor has written behind the last
/// position, and the rest of the source as one literal block.
pub open spec fn stream_spec(src: Seq<u8>, used: nat) -> Seq<u8> {
    let s = driver_run(src, used, driver_start(src, used));
    s.stream + literal_header(0, (src.len() - s.ipa) as nat) + src.subrange(
        s.ipa,
        src.len() as int,
    )
}

/// The hash table behind the last position of the compressor.
pub open spec fn table_spec(src: Seq<u8>, used: nat) -> Seq<u8> {
    driver_run(src, used, driver_start(src, used)).table
}

/// Where the compressor stands: the position, the start of the pending
/// literals, the end of the stream, the state of the block encoder, the
/// running average and the dither bit.
#[derive(Clone, Copy, Debug)]
pub struct Progress {
    pub ip: usize,
    pub ipa: usize,
    pub op: usize,
    pub state: BlockState,
    pub mavg: u32,
    pub rndb: u32,
}

impl Progress {
    /// The compressor that stands here, with the table `table` and its
    /// stream in `dst`.
    pub open spec fn driver(self, table: Seq<u8>, dst: Seq<u8>) -> Driver {
        Driver {
            table,
            stream: dst.subrange(0, self.op as int),
            ip: self.ip as int,
            ipa: self.ipa as int,
            state: self.state,
            mavg: self.mavg,
            rndb: self.rndb,
        }
    }

    /// That the compressor that stands here is in order.
    pub open spec fn ready(self, table: Seq<u8>, dst: Seq<u8>, src: Seq<u8>) -> bool {
        &&& self.op <= dst.len()
        &&& driver_ok(src, self.driver(table, dst))
    }
}

/// Takes the position that the compressor stands at.
#[verifier::rlimit(40)]
pub fn drive(src: &[u8], dst: &mut [u8], table: &mut [u8], p: Progress) -> (q: Progress)
    requires
        16 <= src@.len() <= 8388608,
        old(dst)@.len() >= bound_spec(src@.len() as int),
        16 <= old(table)@.len() <= 1048576,
        old(table)@.len() % 16 == 0,
        p.ip + 6 < src@.len(),
        p.ready(old(table)@, old(dst)@, src@),
    ensures
        final(dst)@.len() == old(dst)@.len(),
        final(table)@.len() == old(table)@.len(),
        q.driver(final(table)@, final(dst)@) == driver_step(
            src@,
            old(table)@.len(),
            p.driver(old(table)@, old(dst)@),
        ),
        p.ip < q.ip <= src@.len() + 200,
        p.op <= q.op,
        q.ready(final(table)@, final(dst)@, src@),
        forall|i: int| q.op <= i < old(dst)@.len() ==> #[trigger] final(dst)@[i] == old(dst)@[i],
{
    let ghost before = p.driver(table@, dst@);
    let srcl: usize = src.len();
    let cap: usize = dst.len();
    let used: usize = table.len();
    proof {
        lemma_driver_step_ok(src@, used as nat, before);
    }
    let iw1: u32 = read_le32(src, p.ip);
    let iw2: u16 = read_le16(src, p.ip + 4);
    let hval: u32 = lzav_hash(iw1, iw2);
    let off: usize = slot_offset(hval, used);
    let entry = hash_table_probe(table, off);
    match find_match(src, p.ip, p.ipa, entry, iw1) {
        Some(m) => {
            if m.dist > 273 {
                hash_table_insert(table, off, p.rndb, iw1, p.ip as u32);
            }
            proof {
                lemma_bound_room(srcl as int, p.ipa as int, m.start as int);
                assert(before.stream[p.state.cbp as int] == dst@[p.state.cbp as int]);
            }
            let (next_op, next_state) = write_block(
                dst,
                p.op,
                m.start - p.ipa,
                m.len,
                m.dist,
                src,
                p.ipa,
                p.state,
            );
            let q = Progress {
                ip: m.start + m.len,
                ipa: m.start + m.len,
                op: next_op,
                state: next_state,
                mavg: mavg_after_match(p.mavg, m.len),
                rndb: 1 - p.rndb,
            };
            proof {
                let after = q.driver(table@, dst@);
                let want = driver_step(src@, used as nat, before);
                assert(after.table == want.table);
                assert(after.stream == want.stream);
                assert(after.state == want.state);
                assert forall|i: int| next_op <= i < cap implies #[trigger] dst@[i] == old(
                    dst,
                )@[i] by {
                    assert(dst@.subrange(next_op as int, cap as int)[i - next_op] == old(
                        dst,
                    )@.subrange(next_op as int, cap as int)[i - next_op]);
                }
            }
            q
        },
        None => {
            hash_table_insert(table, off, p.rndb, iw1, p.ip as u32);
            let mavg: u32 = p.mavg - p.mavg / 2048;
            let (next_ip, bit) = skip_ahead(p.ip, p.ipa, mavg, p.rndb);
            Progress { ip: next_ip, ipa: p.ipa, op: p.op, state: p.state, mavg, rndb: bit }
        },
    }
}

/// Compresses a source of at least 16 bytes with `table` as the hash
/// table, and returns the length of the stream.
pub fn compress_with_table(src: &[u8], dst: &mut [u8], table: &mut [u8]) -> (n: usize)
    requires
        16 <= src@.len() <= 8388608,
        old(dst)@.len() >= bound_spec(src@.len() as int),
        16 <= old(table)@.len() <= 1048576,
        old(table)@.len() % 16 == 0,
    ensures
        final(dst)@.len() == old(dst)@.len(),
        final(table)@ == table_spec(src@, old(table)@.len()),
        n <= src@.len() + src@.len() / 150 + 6,
        n <= old(dst)@.len(),
        final(dst)@.subrange(0, n as int) == stream_spec(src@, old(table)@.len()),
        decoded(final(dst)@.subrange(0, n as int), src@.len()) == Ok::<Seq<u8>, DecompressError>(
            src@,
        ),
        final(dst)@.subrange(n as int, old(dst)@.len() as int) == old(dst)@.subrange(
            n as int,
            old(dst)@.len() as int,
        ),
{
    let srcl: usize = src.len();
    let cap: usize = dst.len();
    let used: usize = table.len();
    hash_table_seed(table, read_le32(src, 0));
    proof {
        lemma_bound_covers(srcl as int);
        lemma_driver_start_ok(src@, used as nat);
        lemma_long_stream(src@, used as nat);
    }
    dst[0] = PREFIX_BYTE;
    let mut p = Progress {
        ip: LZAV_MIN_COMPRESS_SIZE,
        ipa: 0,
        op: 1,
        state: BlockState::new(),
        mavg: MAVG_START,
        rndb: 0,
    };
    proof {
        assert(dst@.subrange(0, 1) =~= seq![PREFIX_BYTE]);
        assert(p.driver(table@, dst@) == driver_start(src@, used as nat));
    }
    while p.ip < srcl - LZAV_LIT_FIN
        invariant
            srcl == src@.len(),
            16 <= srcl <= 8388608,
            cap == dst@.len(),
            cap == old(dst)@.len(),
            cap >= bound_spec(srcl as int),
            used == table@.len(),
            used == old(table)@.len(),
            16 <= used <= 1048576,
            used % 16 == 0,
            p.ip <= srcl + 200,
            p.ready(table@, dst@, src@),
            forall|i: int| p.op <= i < cap ==> #[trigger] dst@[i] == old(dst)@[i],
            driver_run(src@, used as nat, driver_start(src@, used as nat)) == driver_run(
                src@,
                used as nat,
                p.driver(table@, dst@),
            ),
        decreases srcl + 200 - p.ip,
    {
        p = drive(src, dst, table, p);
    }
    let ghost stream = dst@.subrange(0, p.op as int);
    let ghost tail = src@.subrange(p.ipa as int, srcl as int);
    proof {
        lemma_bound_room(srcl as int, p.ipa as int, srcl as int);
    }
    let n: usize = write_final_block(dst, p.op, src, p.ipa);
    proof {
        assert(dst@.subrange(0, n as int) =~= stream + literal_header(0, tail.len()) + tail);
        assert(dst@.subrange(n as int, cap as int) =~= old(dst)@.subrange(n as int, cap as int));
    }
    n
}

/// Compresses a source of at least 16 bytes with the first `used` bytes of
/// `scratch` as the hash table, and returns the length of the stream. The
/// rest of `scratch` is left as it was.
pub fn compress_in_scratch(src: &[u8], dst: &mut [u8], scratch: &mut [u8], used: usize) -> (n:
    usize)
    requires
        16 <= src@.len() <= 8388608,
        old(dst)@.len() >= bound_spec(src@.len() as int),
        16 <= used <= 1048576,
        used % 16 == 0,
        used <= old(scratch)@.len(),
    ensures
        final(dst)@.len() == old(dst)@.len(),
        final(scratch)@ == table_spec(src@, used as nat) + old(scratch)@.subrange(
            used as int,
            old(scratch)@.len() as int,
        ),
        n <= src@.len() + src@.len() / 150 + 6,
        n <= old(dst)@.len(),
        final(dst)@.subrange(0, n as int) == stream_spec(src@, used as nat),
        decoded(final(dst)@.subrange(0, n as int), src@.len()) == Ok::<Seq<u8>, DecompressError>(
            src@,
        ),
        final(dst)@.subrange(n as int, old(dst)@.len() as int) == old(dst)@.subrange(
            n as int,
            old(dst)@.len() as int,
        ),
{
    let (table, _rest) = scratch.split_at_mut(used);
    compress_with_table(src, dst, table)
}

/// With the stream no more than one byte in 150 ahead of the source, the
/// bound leaves room for the literals up to `upto` and 16 bytes more.
pub proof fn lemma_bound_room(srcl: int, ipa: int, upto: int)
    requires
        0 <= ipa <= upto <= srcl,
    ensures
        1 + ipa + ipa / 150 + (upto - ipa) + 15 <= bound_spec(srcl),
{
    crate::bound::lemma_bound_covers(srcl);
}

/// When a source of `srcl` bytes can be compressed to a destination of
/// `cap` bytes: the source is not empty and fits the window, and the
/// destination holds the bound for its length.
pub open spec fn can_compress(srcl: nat, cap: nat) -> bool {
    &&& 0 < srcl <= 8388608
    &&& cap >= bound_spec(srcl as int)
}

/// The size of the hash table for a source of `srcl` bytes and scratch
/// memory of `scratch` bytes: the part of the scratch memory that can
/// serve, or the table size for the source where none can.
pub open spec fn table_bytes(scratch: nat, srcl: nat) -> nat {
    if scratch_use(scratch, srcl) > 0 {
        scratch_use(scratch, srcl)
    } else {
        table_size_spec(srcl)
    }
}

/// The length of the scratch memory, 0 for none.
pub open spec fn scratch_len(ext_buf: Option<&mut [u8]>) -> nat {
    match ext_buf {
        Some(buf) => buf@.len(),
        None => 0,
    }
}

/// What the scratch memory `before` holds after a source was compressed,
/// or was not, as `done` says: where a table was kept in it, the table as
/// the compressor left it and the rest of the memory as it was; else all
/// of it as it was.
pub open spec fn scratch_after(src: Seq<u8>, before: Seq<u8>, done: bool) -> Seq<u8> {
    let used = scratch_use(before.len(), src.len());
    if done && src.len() >= 16 && used > 0 {
        table_spec(src, used) + before.subrange(used as int, before.len() as int)
    } else {
        before
    }
}

/// The stream of a source: a source of fewer than 16 bytes is stored as it
/// is; a longer one is compressed with a table of `used` bytes.
pub open spec fn compressed_stream(src: Seq<u8>, used: nat) -> Seq<u8> {
    if src.len() < 16 {
        short_stream(src)
    } else {
        stream_spec(src, used)
    }
}

/// That the first `n` bytes of `after` are the stream of `src`, compressed
/// with a table of `used` bytes, and the rest of `before` is untouched.
/// The stream decompresses to `src` and is no longer than the bound for
/// the length of `src`.
pub open spec fn compressed_to(
    src: Seq<u8>,
    used: nat,
    before: Seq<u8>,
    after: Seq<u8>,
    n: nat,
) -> bool {
    &&& after.len() == before.len()
    &&& 8 <= n <= before.len()
    &&& n <= bound_spec(src.len() as int)
    &&& after.subrange(0, n as int) == compressed_stream(src, used)
    &&& decoded(after.subrange(0, n as int), src.len()) == Ok::<Seq<u8>, DecompressError>(src)
    &&& after.subrange(n as int, before.len() as int) == before.subrange(
        n as int,
        before.len() as int,
    )
}

/// Compresses `src` to the start of `dst` and returns the length of the
/// stream.
pub fn lzav_compress_internal(src: &[u8], dst: &mut [u8], ext_buf: Option<&mut [u8]>) -> (r: Result<
    usize,
    CompressError,
>)
    ensures
        final(dst)@.len() == old(dst)@.len(),
        ext_buf matches Some(buf) ==> final(buf)@ == scratch_after(src@, buf@, r is Ok),
        match r {
            Ok(n) => can_compress(src@.len(), old(dst)@.len()) && compressed_to(
                src@,
                table_bytes(scratch_len(ext_buf), src@.len()),
                old(dst)@,
                final(dst)@,
                n as nat,
            ),
            Err(e) => !can_compress(src@.len(), old(dst)@.len()) && final(dst)@ == old(dst)@ && (e
                == CompressError::InvalidParams <==> src@.len() == 0 || src@.len() > 8388608),
        },
{
    let srcl: usize = src.len();
    let cap: usize = dst.len();
    if srcl == 0 || srcl > LZAV_WIN_LEN {
        return Err(CompressError::InvalidParams);
    }
    if cap < bound_of(srcl) {
        return Err(CompressError::BufferTooSmall);
    }
    if srcl < LZAV_MIN_COMPRESS_SIZE {
        let n: usize = write_short_data(src, dst);
        proof {
            lemma_short_stream_decodes(src@);
            assert(dst@.subrange(0, n as int) =~= short_stream(src@));
            assert(dst@.subrange(n as int, cap as int) =~= old(dst)@.subrange(n as int, cap as int));
        }
        return Ok(n);
    }
    match ext_buf {
        Some(buf) => {
            let used: usize = scratch_size(buf.len(), srcl);
            if used > 0 {
                let n: usize = compress_in_scratch(src, dst, buf, used);
                return Ok(n);
            }
        },
        None => {},
    }
    let size: usize = calculate_hash_table_size(srcl);
    let mut own = AlignedBuffer::new(size);
    let n: usize = compress_with_table(src, dst, own.as_mut_slice());
    Ok(n)
}

/// Compresses `src` to the start of `dst` and returns the length of the
/// stream, or the code of a parameter error where `src` is empty or longer
/// than the window, or `dst` is shorter than the bound for the length of
/// `src`. On an error `dst` is left as it was.
///
/// `ext_buf` is scratch memory for the hash table. It is used where its
/// length is a power of two of at least 4 KiB; what it held is lost.
/// Without it, or with one of another length, the table is allocated.
pub fn lzav_compress(src: &[u8], dst: &mut [u8], ext_buf: Option<&mut [u8]>) -> (r: Result<
    usize,
    i32,
>)
    ensures
        final(dst)@.len() == old(dst)@.len(),
        ext_buf matches Some(buf) ==> final(buf)@ == scratch_after(src@, buf@, r is Ok),
        match r {
            Ok(n) => can_compress(src@.len(), old(dst)@.len()) && compressed_to(
                src@,
                table_bytes(scratch_len(ext_buf), src@.len()),
                old(dst)@,
                final(dst)@,
                n as nat,
            ),
            Err(e) => !can_compress(src@.len(), old(dst)@.len()) && final(dst)@ == old(dst)@ && e
                == LZAV_E_PARAMS,
        },
{
    match lzav_compress_internal(src, dst, ext_buf) {
        Ok(size) => Ok(size),
        Err(e) => Err(e.code()),
    }
}

/// A destination of the size of the bound is enough for every source that
/// is not empty and fits the window.
pub proof fn lemma_bound_is_enough(srcl: nat)
    requires
        0 < srcl <= 8388608,
    ensures
        bound_spec(srcl as int) > 0,
        can_compress(srcl, bound_spec(srcl as int) as nat),
{
}

} // verus!
