//! The compressor's model writes streams that decompress to the source:
//! the proof, over the models alone.

use vstd::prelude::*;
use crate::bound::{bound_spec, lemma_bound_covers};
use crate::compress::{
    candidate_spec, common_back, common_front, compressed_stream, driver_run, driver_start,
    driver_step, find_match_spec, forward_limit, state_after, stream_spec, Driver, MAVG_MAX,
};
use crate::encoding::{
    block_bytes, covers, lemma_block_cost, lemma_cover_block, lemma_cover_finish,
    lemma_cover_start, lemma_ref_copy_matches, lemma_short_stream_decodes, literal_header,
    literal_part_len, own_bits, ref_kind,
};
use crate::errors::DecompressError;
use crate::decompress::decompressed;
use crate::format::{decoded, least, lemma_partial_is_prefix, partly_decoded, scale_after};
use crate::hashtable::{hash_spec, le16_at, le32_at, slot_entry, slot_of};

verus! {

/// The common length at the front is within its limit, and the bytes
/// within it are the same.
pub proof fn lemma_common_front_agrees(src: Seq<u8>, i: int, j: int, limit: nat)
    ensures
        common_front(src, i, j, limit) <= limit,
        forall|x: int|
            i <= x < i + common_front(src, i, j, limit) ==> #[trigger] src[x] == src[x - i + j],
    decreases limit,
{
    if limit > 0 && src[i] == src[j] {
        lemma_common_front_agrees(src, i + 1, j + 1, (limit - 1) as nat);
        assert forall|x: int| i <= x < i + common_front(src, i, j, limit) implies #[trigger] src[x]
            == src[x - i + j] by {
            if x > i {
                assert(src[x] == src[x - (i + 1) + (j + 1)]);
            }
        }
    }
}

/// The common length at the back is within its limit, and the bytes
/// within it are the same.
pub proof fn lemma_common_back_agrees(src: Seq<u8>, i: int, j: int, limit: nat)
    ensures
        common_back(src, i, j, limit) <= limit,
        forall|x: int|
            i - common_back(src, i, j, limit) <= x < i ==> #[trigger] src[x] == src[x - i + j],
    decreases limit,
{
    if limit > 0 && src[i - 1] == src[j - 1] {
        lemma_common_back_agrees(src, i - 1, j - 1, (limit - 1) as nat);
        assert forall|x: int| i - common_back(src, i, j, limit) <= x < i implies #[trigger] src[x]
            == src[x - i + j] by {
            if x < i - 1 {
                assert(src[x] == src[x - (i - 1) + (j - 1)]);
            }
        }
    }
}

/// A candidate that counts is a match of six bytes or more, within the
/// window and before the last six bytes of the source.
pub proof fn lemma_candidate_valid(src: Seq<u8>, ip: int, key: u32, pos: u32, iw1: u32)
    ensures
        ({
            let k = candidate_spec(src, ip, key, pos, iw1);
            k == 0 || {
                &&& 6 <= k <= 530
                &&& pos < ip
                &&& 8 <= ip - pos <= 8388608
                &&& k <= ip - pos
                &&& ip + k + 6 <= src.len()
                &&& forall|x: int| ip <= x < ip + k ==> #[trigger] src[x] == src[x - (ip - pos)]
            }
        }),
{
    reveal(candidate_spec);
    let k = candidate_spec(src, ip, key, pos, iw1);
    if k != 0 {
        let limit = forward_limit(src.len(), ip, ip - pos);
        lemma_common_front_agrees(src, ip, pos as int, limit as nat);
        assert forall|x: int| ip <= x < ip + k implies #[trigger] src[x] == src[x - (ip - pos)] by {
            assert(src[x] == src[x - ip + pos]);
        }
    }
}

/// The match that the match finder's model gives can be written as a
/// reference block.
pub proof fn lemma_find_match_valid(
    src: Seq<u8>,
    ip: int,
    ipa: int,
    entry: (u32, u32, u32, u32),
    iw1: u32,
)
    requires
        0 <= ipa <= ip,
        src.len() <= 8388608,
    ensures
        find_match_spec(src, ip, ipa, entry, iw1) matches Some(m) ==> m.valid(src, ipa, ip),
{
    let k0 = candidate_spec(src, ip, entry.0, entry.1, iw1);
    let k1 = candidate_spec(src, ip, entry.2, entry.3, iw1);
    lemma_candidate_valid(src, ip, entry.0, entry.1, iw1);
    lemma_candidate_valid(src, ip, entry.2, entry.3, iw1);
    if !(k0 == 0 && k1 == 0) {
        let m = find_match_spec(src, ip, ipa, entry, iw1)->Some_0;
        let fwd = if k1 > k0 {
            k1
        } else {
            k0
        };
        let pos = if k1 > k0 {
            entry.3
        } else {
            entry.1
        };
        let d = ip - pos;
        let room = least(least(least(ip - ipa, d), 530 - fwd), pos as int);
        let back = common_back(src, ip, pos as int, room as nat);
        lemma_common_back_agrees(src, ip, pos as int, room as nat);
        if fwd + back >= 7 {
            assert(m.start == ip - back && m.len == fwd + back && m.dist == d);
        assert forall|x: int| m.start <= x < m.start + m.len implies #[trigger] src[x] == src[x
            - m.dist] by {
                if x < ip {
                    assert(src[x] == src[x - ip + pos]);
                }
            }
        }
    }
}

/// That the compressor's model is in order between two positions: its
/// stream stands for the source up to the start of the pending literals
/// and is no more than one byte in 150 longer, and at least six bytes of
/// the source lie behind the start of the pending literals.
pub open spec fn driver_ok(src: Seq<u8>, s: Driver) -> bool {
    &&& 0 <= s.ipa <= s.ip
    &&& s.ipa + 6 <= src.len()
    &&& s.mavg <= MAVG_MAX
    &&& s.rndb <= 1
    &&& 1 <= s.stream.len() <= 1 + s.ipa + s.ipa / 150
    &&& s.state.cbp < s.stream.len()
    &&& s.state.csh == 0 || s.state.csh == 3
    &&& covers(s.stream, s.state.cbp as int, s.state.scale(), src.subrange(0, s.ipa), src.len())
}

/// A position leaves the compressor's model in order.
#[verifier::rlimit(40)]
pub proof fn lemma_driver_step_ok(src: Seq<u8>, used: nat, s: Driver)
    requires
        16 <= src.len() <= 8388608,
        driver_ok(src, s),
        s.ip + 6 < src.len(),
    ensures
        driver_ok(src, driver_step(src, used, s)),
{
    let iw1 = le32_at(src, s.ip);
    let off = slot_of(hash_spec(iw1, le16_at(src, s.ip + 4)), used) as int;
    let entry = slot_entry(s.table, off);
    let next = driver_step(src, used, s);
    lemma_find_match_valid(src, s.ip, s.ipa, entry, iw1);
    match find_match_spec(src, s.ip, s.ipa, entry, iw1) {
        Some(m) => {
            let scale = s.state.scale();
            let lits = src.subrange(s.ipa, m.start as int);
            lemma_cover_block(
                s.stream,
                s.state.cbp as int,
                scale,
                src.subrange(0, s.ipa),
                src.len(),
                lits,
                m.len as nat,
                m.dist as nat,
            );
            lemma_block_cost(scale, lits, m.len as nat, m.dist as nat);
            assert(src.subrange(0, s.ipa) + lits =~= src.subrange(0, m.start as int));
            lemma_ref_copy_matches(src, m.start as int, m.dist as int, m.len as nat);
            let own = own_bits(scale, lits.len(), m.dist as nat);
            assert(next.state == state_after(
                s.stream.len() as int,
                scale,
                lits.len(),
                m.dist as nat,
            ));
            assert(next.state.scale() == scale_after(ref_kind(own)));
            assert(next.state.cbp == s.stream.len() + literal_part_len(
                scale,
                lits.len(),
                m.dist as nat,
            ) + ref_kind(own));
            assert(next.stream.len() == s.stream.len() + block_bytes(
                scale,
                lits,
                m.len as nat,
                m.dist as nat,
            ).len());
        },
        None => {},
    }
}

/// The compressor's model is in order behind the last position.
pub proof fn lemma_driver_run_ok(src: Seq<u8>, used: nat, s: Driver)
    requires
        16 <= src.len() <= 8388608,
        driver_ok(src, s),
    ensures
        driver_ok(src, driver_run(src, used, s)),
    decreases
            (if s.ip < src.len() {
                src.len() - s.ip
            } else {
                0
            }),
{
    if s.ip + 6 < src.len() && driver_step(src, used, s).ip > s.ip {
        lemma_driver_step_ok(src, used, s);
        lemma_driver_run_ok(src, used, driver_step(src, used, s));
    }
}

/// The compressor's model is in order in front of a source.
pub proof fn lemma_driver_start_ok(src: Seq<u8>, used: nat)
    requires
        16 <= src.len(),
    ensures
        driver_ok(src, driver_start(src, used)),
{
    lemma_cover_start(src.len());
    assert(src.subrange(0, 0) =~= Seq::<u8>::empty());
}

/// The stream of a source of at least 16 bytes decompresses to the source,
/// and is at most one byte in 150, and six bytes, longer.
#[verifier::rlimit(60)]
pub proof fn lemma_long_stream(src: Seq<u8>, used: nat)
    requires
        16 <= src.len() <= 8388608,
    ensures
        decoded(stream_spec(src, used), src.len()) == Ok::<Seq<u8>, DecompressError>(src),
        8 <= stream_spec(src, used).len() <= src.len() + src.len() / 150 + 6,
{
    let start = driver_start(src, used);
    lemma_driver_start_ok(src, used);
    lemma_driver_run_ok(src, used, start);
    let s = driver_run(src, used, start);
    assert(driver_ok(src, s));
    let head = src.subrange(0, s.ipa);
    let tail = src.subrange(s.ipa, src.len() as int);
    assert(covers(s.stream, s.state.cbp as int, s.state.scale(), head, src.len()));
    assert(head.len() + tail.len() == src.len());
    lemma_cover_finish(s.stream, s.state.cbp as int, s.state.scale(), head, tail);
    assert(head + tail =~= src);
    assert(literal_header(0, tail.len()).len() <= 5);
    assert(stream_spec(src, used) == s.stream + literal_header(0, tail.len()) + tail);
}

/// Round trip: the stream of a source that is not empty and fits the
/// window decompresses, to the length of the source and into a
/// destination of `cap` bytes that holds it, to the source. And the stream
/// is no longer than the bound for the length of the source.
pub proof fn lemma_round_trip(src: Seq<u8>, used: nat, cap: nat)
    requires
        0 < src.len() <= 8388608,
        src.len() <= cap,
    ensures
        decoded(compressed_stream(src, used), src.len()) == Ok::<Seq<u8>, DecompressError>(src),
        decompressed(compressed_stream(src, used), cap, src.len()) == Ok::<
            Seq<u8>,
            DecompressError,
        >(src),
        8 <= compressed_stream(src, used).len() <= bound_spec(src.len() as int),
{
    lemma_bound_covers(src.len() as int);
    if src.len() < 16 {
        lemma_short_stream_decodes(src);
    } else {
        lemma_long_stream(src, used);
    }
}

/// A partial decompression of the stream of a source gives the source, or
/// the start of the source where its limit is less than the length of the
/// source.
pub proof fn lemma_partial_round_trip(src: Seq<u8>, used: nat, limit: nat)
    requires
        0 < src.len() <= 8388608,
    ensures
        partly_decoded(compressed_stream(src, used), limit) == src.subrange(
            0,
            least(limit as int, src.len() as int),
        ),
{
    lemma_round_trip(src, used, src.len());
    lemma_partial_is_prefix(compressed_stream(src, used), src.len(), limit, src);
}

} // verus!
