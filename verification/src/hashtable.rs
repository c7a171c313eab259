//! The compressor's hash table: slots of two `(key, position)` pairs in a
//! byte region, numbers stored low byte first.

use vstd::prelude::*;

verus! {

/// First multiplier seed of the hash.
pub const HASH_SEED1: u32 = 0x243F6A88;

/// Second multiplier seed of the hash.
pub const HASH_SEED2: u32 = 0x85A308D3;

/// The smallest table, in bytes.
pub const TABLE_MIN: usize = 4096;

/// The largest table, in bytes.
pub const TABLE_MAX: usize = 1048576;

/// The bytes of one slot: two keys and two positions of four bytes each.
pub const SLOT_BYTES: usize = 16;

/// The position that every slot holds in a fresh table.
pub const SEED_POS: u32 = 16;

/// The hash of six source bytes, given as the number `iw1` of the first
/// four and the number `iw2` of the next two: both seeds are mixed with the
/// input, the two are multiplied to 64 bits, and the halves of the product
/// are mixed.
pub open spec fn hash_spec(iw1: u32, iw2: u16) -> u32 {
    let hm = (((HASH_SEED1 ^ iw1) as u64) * ((HASH_SEED2 ^ (iw2 as u32)) as u64)) as u64;
    (hm as u32) ^ ((hm >> 32) as u32)
}

/// The hash of six source bytes.
pub fn lzav_hash(iw1: u32, iw2: u16) -> (h: u32)
    ensures
        h == hash_spec(iw1, iw2),
{
    let a: u64 = (HASH_SEED1 ^ iw1) as u64;
    let b: u64 = (HASH_SEED2 ^ (iw2 as u32)) as u64;
    assert(a * b <= 0xFFFF_FFFF * 0xFFFF_FFFF) by (nonlinear_arith)
        requires
            a <= 0xFFFF_FFFF,
            b <= 0xFFFF_FFFF,
    ;
    let hm: u64 = a * b;
    (hm as u32) ^ ((hm >> 32) as u32)
}

/// The number that the four bytes at `i` hold, low byte first.
pub open spec fn le32_at(t: Seq<u8>, i: int) -> u32 {
    (t[i] + 256 * t[i + 1] + 65536 * t[i + 2] + 16777216 * t[i + 3]) as u32
}

/// The number that the two bytes at `i` hold, low byte first.
pub open spec fn le16_at(t: Seq<u8>, i: int) -> u16 {
    (t[i] + 256 * t[i + 1]) as u16
}

/// `t` with the number `v` stored in the four bytes at `i`, low byte first.
pub open spec fn with_le32(t: Seq<u8>, i: int, v: u32) -> Seq<u8> {
    t.update(i, (v % 256) as u8).update(i + 1, ((v / 256) % 256) as u8).update(
        i + 2,
        ((v / 65536) % 256) as u8,
    ).update(i + 3, (v / 16777216) as u8)
}

/// Reads the four bytes at `i` as a number, low byte first.
pub fn read_le32(t: &[u8], i: usize) -> (v: u32)
    requires
        i + 4 <= t@.len(),
    ensures
        v == le32_at(t@, i as int),
{
    let n: usize = t.len();
    (t[i] as u32) + 256 * (t[i + 1] as u32) + 65536 * (t[i + 2] as u32) + 16777216 * (t[i
        + 3] as u32)
}

/// Reads the two bytes at `i` as a number, low byte first.
pub fn read_le16(t: &[u8], i: usize) -> (v: u16)
    requires
        i + 2 <= t@.len(),
    ensures
        v == le16_at(t@, i as int),
{
    let n: usize = t.len();
    (t[i] as u16) + 256 * (t[i + 1] as u16)
}

/// Stores `v` in the four bytes at `i`, low byte first.
#[verifier::rlimit(40)]
pub fn write_le32(t: &mut [u8], i: usize, v: u32)
    requires
        i + 4 <= old(t)@.len(),
    ensures
        final(t)@ == with_le32(old(t)@, i as int, v),
        final(t)@.len() == old(t)@.len(),
        le32_at(final(t)@, i as int) == v,
{
    let n: usize = t.len();
    t[i] = (v % 256) as u8;
    t[i + 1] = ((v / 256) % 256) as u8;
    t[i + 2] = ((v / 65536) % 256) as u8;
    t[i + 3] = (v / 16777216) as u8;
}

/// That `h` is a table size: a power of two from 4 KiB to 1 MiB.
pub open spec fn is_table_size(h: nat) -> bool {
    h == 4096 || h == 8192 || h == 16384 || h == 32768 || h == 65536 || h == 131072 || h == 262144
        || h == 524288 || h == 1048576
}

/// The table size for a source of `srcl` bytes: the smallest power of two
/// that is at least four times `srcl`, and at least 4 KiB, and no more than
/// 1 MiB.
pub open spec fn table_size_spec(srcl: nat) -> nat {
    if 4 * srcl <= 4096 {
        4096
    } else if 4 * srcl <= 8192 {
        8192
    } else if 4 * srcl <= 16384 {
        16384
    } else if 4 * srcl <= 32768 {
        32768
    } else if 4 * srcl <= 65536 {
        65536
    } else if 4 * srcl <= 131072 {
        131072
    } else if 4 * srcl <= 262144 {
        262144
    } else if 4 * srcl <= 524288 {
        524288
    } else {
        1048576
    }
}

/// The table size for a source of `srcl` bytes.
pub fn calculate_hash_table_size(srcl: usize) -> (h: usize)
    ensures
        h == table_size_spec(srcl as nat),
        is_table_size(h as nat),
{
    let mut h: usize = TABLE_MIN;
    while h < TABLE_MAX && h / 4 < srcl
        invariant
            is_table_size(h as nat),
            h == 4096 || (h / 2) / 4 < srcl,
        decreases TABLE_MAX - h,
    {
        h = h * 2;
    }
    h
}

/// That `n` is a power of two.
pub open spec fn is_power_of_two(n: nat) -> bool
    decreases n,
{
    n == 1 || (n > 1 && n % 2 == 0 && is_power_of_two(n / 2))
}

/// Whether `n` is a power of two.
pub fn power_of_two(n: usize) -> (b: bool)
    ensures
        b == is_power_of_two(n as nat),
{
    let mut m: usize = n;
    while m > 1 && m % 2 == 0
        invariant
            is_power_of_two(m as nat) == is_power_of_two(n as nat),
        decreases m,
    {
        m = m / 2;
    }
    m == 1
}

/// The part of a scratch region of `len` bytes that serves as the table
/// for a source of `srcl` bytes: as much as the table size asks for, where
/// the region is a power of two of at least 4 KiB; else nothing, and the
/// compressor makes a table of its own.
pub open spec fn scratch_use(len: nat, srcl: nat) -> nat {
    if len >= 4096 && is_power_of_two(len) {
        if len < table_size_spec(srcl) {
            len
        } else {
            table_size_spec(srcl)
        }
    } else {
        0
    }
}

/// The part of a scratch region of `len` bytes that serves as the table.
pub fn scratch_size(len: usize, srcl: usize) -> (h: usize)
    ensures
        h == scratch_use(len as nat, srcl as nat),
        h <= len,
        h == 0 || (4096 <= h <= 1048576 && h % 16 == 0),
{
    if len >= TABLE_MIN && power_of_two(len) {
        let want: usize = calculate_hash_table_size(srcl);
        let h: usize = if len < want {
            len
        } else {
            want
        };
        proof {
            lemma_power_of_two_multiple(h as nat);
        }
        h
    } else {
        0
    }
}

/// A power of two of at least 16 is a multiple of 16.
pub proof fn lemma_power_of_two_multiple(n: nat)
    requires
        is_power_of_two(n) || is_table_size(n),
        n >= 16,
    ensures
        n % 16 == 0,
{
    if is_power_of_two(n) {
        assert(is_power_of_two(n / 2));
        assert(is_power_of_two(n / 2 / 2));
        assert(is_power_of_two(n / 2 / 2 / 2));
        assert(is_power_of_two(n / 2 / 2 / 2 / 2));
    }
}

/// The offset of the slot of `hash` in a table of `used` bytes: `hash`
/// masked to the table and to a multiple of the slot size.
pub open spec fn slot_of(hash: u32, used: nat) -> nat {
    (hash & ((used - 16) as u32)) as nat
}

/// The offset of the slot of `hash` in a table of `used` bytes.
pub fn slot_offset(hash: u32, used: usize) -> (off: usize)
    requires
        16 <= used <= 1048576,
        used % 16 == 0,
    ensures
        off == slot_of(hash, used as nat),
        off + 16 <= used,
        off % 16 == 0,
{
    let mask: u32 = (used - SLOT_BYTES) as u32;
    let o: u32 = hash & mask;
    assert(o <= mask) by (bit_vector)
        requires
            o == hash & mask,
    ;
    assert(o % 16 == 0) by (bit_vector)
        requires
            o == hash & mask,
            mask % 16 == 0,
    ;
    o as usize
}

/// Byte number `i` of a fresh table for the key `key`: every slot holds
/// the key and the seed position, twice, each number low byte first.
pub open spec fn seed_byte(i: int, key: u32) -> u8 {
    let v: u32 = if (i % 8) < 4 {
        key
    } else {
        SEED_POS
    };
    if i % 4 == 0 {
        (v % 256) as u8
    } else if i % 4 == 1 {
        ((v / 256) % 256) as u8
    } else if i % 4 == 2 {
        ((v / 65536) % 256) as u8
    } else {
        (v / 16777216) as u8
    }
}

/// A fresh table of `used` bytes for the key `key`.
pub open spec fn fresh_table(used: nat, key: u32) -> Seq<u8> {
    Seq::new(used, |i: int| seed_byte(i, key))
}

/// Makes the slot at `off` a fresh one for the key `key`.
#[verifier::rlimit(40)]
pub fn seed_slot(table: &mut [u8], off: usize, key: u32)
    requires
        off + 16 <= old(table)@.len(),
        off % 16 == 0,
    ensures
        final(table)@.len() == old(table)@.len(),
        forall|j: int| off <= j < off + 16 ==> #[trigger] final(table)@[j] == seed_byte(j, key),
        forall|j: int|
            0 <= j < old(table)@.len() && !(off <= j < off + 16) ==> #[trigger] final(table)@[j]
                == old(table)@[j],
{
    let n: usize = table.len();
    table[off] = (key % 256) as u8;
    table[off + 1] = ((key / 256) % 256) as u8;
    table[off + 2] = ((key / 65536) % 256) as u8;
    table[off + 3] = (key / 16777216) as u8;
    table[off + 4] = (SEED_POS % 256) as u8;
    table[off + 5] = ((SEED_POS / 256) % 256) as u8;
    table[off + 6] = ((SEED_POS / 65536) % 256) as u8;
    table[off + 7] = (SEED_POS / 16777216) as u8;
    table[off + 8] = (key % 256) as u8;
    table[off + 9] = ((key / 256) % 256) as u8;
    table[off + 10] = ((key / 65536) % 256) as u8;
    table[off + 11] = (key / 16777216) as u8;
    table[off + 12] = (SEED_POS % 256) as u8;
    table[off + 13] = ((SEED_POS / 256) % 256) as u8;
    table[off + 14] = ((SEED_POS / 65536) % 256) as u8;
    table[off + 15] = (SEED_POS / 16777216) as u8;
    proof {
        assert forall|j: int| off <= j < off + 16 implies #[trigger] table@[j] == seed_byte(
            j,
            key,
        ) by {
            let r = j - off;
            assert(j % 4 == r % 4 && j % 8 == r % 8);
        }
    }
}

/// Makes `table` a fresh table for the key `key`.
pub fn hash_table_seed(table: &mut [u8], key: u32)
    requires
        old(table)@.len() % 16 == 0,
    ensures
        final(table)@ == fresh_table(old(table)@.len(), key),
{
    let n: usize = table.len();
    let mut off: usize = 0;
    while off < n
        invariant
            n == table@.len(),
            n % 16 == 0,
            off % 16 == 0,
            off <= n,
            forall|j: int| 0 <= j < off ==> #[trigger] table@[j] == seed_byte(j, key),
        decreases n - off,
    {
        seed_slot(table, off, key);
        off = off + 16;
    }
    assert(table@ =~= fresh_table(n as nat, key));
}

/// The two `(key, position)` pairs of the slot at `off`.
pub open spec fn slot_entry(t: Seq<u8>, off: int) -> (u32, u32, u32, u32) {
    (le32_at(t, off), le32_at(t, off + 4), le32_at(t, off + 8), le32_at(t, off + 12))
}

/// `t` with the pair `(key, pos)` in one half of the slot at `off`: the
/// first pair where `half` is even, the second where it is odd.
pub open spec fn inserted(t: Seq<u8>, off: int, half: u32, key: u32, pos: u32) -> Seq<u8> {
    with_le32(with_le32(t, off + 8 * (half % 2), key), off + 8 * (half % 2) + 4, pos)
}

/// The two `(key, position)` pairs of the slot at `off` of `table`.
pub fn hash_table_probe(table: &[u8], off: usize) -> (e: (u32, u32, u32, u32))
    requires
        off + 16 <= table@.len(),
    ensures
        e == slot_entry(table@, off as int),
{
    let n: usize = table.len();
    (
        read_le32(table, off),
        read_le32(table, off + 4),
        read_le32(table, off + 8),
        read_le32(table, off + 12),
    )
}

/// Stores the pair `(key, pos)` in one half of the slot at `off` of
/// `table`: the first pair where `half` is even, the second where it is
/// odd.
#[verifier::rlimit(40)]
pub fn hash_table_insert(table: &mut [u8], off: usize, half: u32, key: u32, pos: u32)
    requires
        off + 16 <= old(table)@.len(),
    ensures
        final(table)@ == inserted(old(table)@, off as int, half, key, pos),
        final(table)@.len() == old(table)@.len(),
{
    let n: usize = table.len();
    let at: usize = off + 8 * ((half % 2) as usize);
    write_le32(table, at, key);
    write_le32(table, at + 4, pos);
}

} // verus!
