//! Match-length primitives and buffer helpers.

use vstd::prelude::*;

verus! {

/// The smallest of the bound `ml` and the two lengths.
pub open spec fn match_limit(a: Seq<u8>, b: Seq<u8>, ml: nat) -> nat {
    if ml <= a.len() && ml <= b.len() {
        ml
    } else if a.len() <= b.len() {
        a.len()
    } else {
        b.len()
    }
}

/// That the first `k` bytes of `a` and of `b` are equal.
pub open spec fn agree_front(a: Seq<u8>, b: Seq<u8>, k: nat) -> bool {
    forall|i: int| 0 <= i < k ==> a[i] == b[i]
}

/// That the last `k` bytes of `a` and of `b` are equal.
pub open spec fn agree_back(a: Seq<u8>, b: Seq<u8>, k: nat) -> bool {
    forall|j: int| a.len() - k <= j < a.len() ==> #[trigger] a[j] == b[j - a.len() + b.len()]
}

/// The number of equal leading bytes of `a` and `b`, counted up to `ml`
/// and to the end of the shorter slice.
pub fn lzav_match_len(a: &[u8], b: &[u8], ml: usize) -> (k: usize)
    ensures
        k <= match_limit(a@, b@, ml as nat),
        agree_front(a@, b@, k as nat),
        k < match_limit(a@, b@, ml as nat) ==> a@[k as int] != b@[k as int],
{
    let n1: usize = a.len();
    let n2: usize = b.len();
    let shorter: usize = if n1 <= n2 {
        n1
    } else {
        n2
    };
    let max_len: usize = if ml <= shorter {
        ml
    } else {
        shorter
    };
    let mut pos: usize = 0;
    while pos < max_len && a[pos] == b[pos]
        invariant
            pos <= max_len,
            max_len == match_limit(a@, b@, ml as nat),
            agree_front(a@, b@, pos as nat),
        decreases max_len - pos,
    {
        pos += 1;
    }
    pos
}

/// The number of equal trailing bytes of `a` and `b`, counted backward
/// from their ends, up to `ml` and to the start of the shorter slice.
pub fn lzav_match_len_r(a: &[u8], b: &[u8], ml: usize) -> (k: usize)
    ensures
        k <= match_limit(a@, b@, ml as nat),
        agree_back(a@, b@, k as nat),
        k < match_limit(a@, b@, ml as nat) ==> a@[a@.len() - 1 - k] != b@[b@.len() - 1 - k],
{
    let n1: usize = a.len();
    let n2: usize = b.len();
    let shorter: usize = if n1 <= n2 {
        n1
    } else {
        n2
    };
    let max_len: usize = if ml <= shorter {
        ml
    } else {
        shorter
    };
    let mut pos: usize = 0;
    while pos < max_len && a[n1 - 1 - pos] == b[n2 - 1 - pos]
        invariant
            pos <= max_len,
            n1 == a@.len(),
            n2 == b@.len(),
            max_len == match_limit(a@, b@, ml as nat),
            agree_back(a@, b@, pos as nat),
        decreases max_len - pos,
    {
        pos += 1;
    }
    pos
}

/// `whole` with `bytes` in place of what stood at `at`.
pub open spec fn spliced(whole: Seq<u8>, at: int, bytes: Seq<u8>) -> Seq<u8> {
    whole.subrange(0, at) + bytes + whole.subrange(at + bytes.len(), whole.len() as int)
}

/// That `after` is `before` with `bytes` in place of what stood at `at`,
/// said byte by byte.
pub open spec fn writes(before: Seq<u8>, after: Seq<u8>, at: int, bytes: Seq<u8>) -> bool {
    &&& after.len() == before.len()
    &&& 0 <= at
    &&& at + bytes.len() <= before.len()
    &&& forall|i: int|
        0 <= i < before.len() && !(at <= i < at + bytes.len()) ==> #[trigger] after[i] == before[i]
    &&& forall|i: int| 0 <= i < bytes.len() ==> after[at + i] == #[trigger] bytes[i]
}

/// Both ways of saying what was written agree.
pub proof fn lemma_writes_spliced(before: Seq<u8>, after: Seq<u8>, at: int, bytes: Seq<u8>)
    requires
        writes(before, after, at, bytes),
    ensures
        after == spliced(before, at, bytes),
{
    let sp = spliced(before, at, bytes);
    assert(sp.len() == after.len());
    assert forall|i: int| 0 <= i < after.len() implies after[i] == sp[i] by {
        if at <= i < at + bytes.len() {
            assert(after[at + (i - at)] == bytes[i - at]);
        }
    }
    assert(after =~= sp);
}

/// Two writes, one behind the other, are one write of both.
pub proof fn lemma_writes_join(
    before: Seq<u8>,
    mid: Seq<u8>,
    after: Seq<u8>,
    at: int,
    x: Seq<u8>,
    y: Seq<u8>,
)
    requires
        writes(before, mid, at, x),
        writes(mid, after, at + x.len(), y),
    ensures
        writes(before, after, at, x + y),
{
    let xy = x + y;
    assert forall|i: int| 0 <= i < xy.len() implies after[at + i] == #[trigger] xy[i] by {
        if i < x.len() {
            assert(mid[at + i] == x[i]);
            assert(after[at + i] == mid[at + i]);
        } else {
            assert(after[at + x.len() + (i - x.len())] == y[i - x.len()]);
        }
    }
    assert forall|i: int|
        0 <= i < before.len() && !(at <= i < at + xy.len()) implies #[trigger] after[i]
        == before[i] by {
        assert(after[i] == mid[i]);
    }
}

/// Copies `len` bytes of `src` from `from` to `dst` at `op`.
pub fn copy_bytes(src: &[u8], dst: &mut [u8], from: usize, op: usize, len: usize)
    requires
        from + len <= src@.len(),
        op + len <= old(dst)@.len(),
    ensures
        writes(old(dst)@, final(dst)@, op as int, src@.subrange(from as int, from + len)),
{
    let sn: usize = src.len();
    let dn: usize = dst.len();
    let mut i: usize = 0;
    while i < len
        invariant
            i <= len,
            sn == src@.len(),
            dn == dst@.len(),
            dn == old(dst)@.len(),
            from + len <= sn,
            op + len <= dn,
            writes(old(dst)@, dst@, op as int, src@.subrange(from as int, from + i)),
        decreases len - i,
    {
        let ghost before = dst@;
        dst[op + i] = src[from + i];
        i += 1;
        proof {
            let done = src@.subrange(from as int, from + i);
            let prev = src@.subrange(from as int, from + i - 1);
            assert forall|j: int| 0 <= j < done.len() implies dst@[op + j] == #[trigger] done[j] by {
                if j < i - 1 {
                    assert(before[op + j] == prev[j]);
                }
            }
        }
    }
}

/// Copies the first `len` bytes of `src` to the start of `dst`. Where
/// either slice is shorter than `len`, nothing is copied and the result is
/// `None`.
pub fn copy_block(dst: &mut [u8], src: &[u8], len: usize) -> (r: Option<()>)
    ensures
        final(dst)@.len() == old(dst)@.len(),
        len <= old(dst)@.len() && len <= src@.len() ==> r is Some && final(dst)@ == src@.subrange(
            0,
            len as int,
        ) + old(dst)@.subrange(len as int, old(dst)@.len() as int),
        !(len <= old(dst)@.len() && len <= src@.len()) ==> r is None && final(dst)@ == old(dst)@,
{
    if len > dst.len() || len > src.len() {
        return None;
    }
    copy_bytes(src, dst, 0, 0, len);
    proof {
        lemma_writes_spliced(old(dst)@, dst@, 0, src@.subrange(0, len as int));
        assert(dst@ =~= src@.subrange(0, len as int) + old(dst)@.subrange(
            len as int,
            old(dst)@.len() as int,
        ));
    }
    Some(())
}

/// A zero-filled byte buffer of a fixed size.
pub struct AlignedBuffer {
    data: Vec<u8>,
}

impl View for AlignedBuffer {
    type V = Seq<u8>;

    closed spec fn view(&self) -> Seq<u8> {
        self.data@
    }
}

impl AlignedBuffer {
    /// A buffer of `size` zero bytes.
    pub fn new(size: usize) -> (b: Self)
        ensures
            b@.len() == size,
            forall|i: int| 0 <= i < size ==> b@[i] == 0,
    {
        let mut data: Vec<u8> = Vec::with_capacity(size);
        let mut i: usize = 0;
        while i < size
            invariant
                i <= size,
                data@.len() == i,
                forall|j: int| 0 <= j < i ==> data@[j] == 0,
            decreases size - i,
        {
            data.push(0);
            i += 1;
        }
        AlignedBuffer { data }
    }

    /// The bytes of the buffer.
    pub fn as_slice(&self) -> (s: &[u8])
        ensures
            s@ == self@,
    {
        self.data.as_slice()
    }

    /// The bytes of the buffer, to write to.
    pub fn as_mut_slice(&mut self) -> (s: &mut [u8])
        ensures
            s@ == old(self)@,
            final(s)@ == final(self)@,
    {
        self.data.as_mut_slice()
    }
}

/// The number of zero bits below the lowest set bit of `value`, 64 where
/// no bit is set.
pub fn count_trailing_zeros(value: u64) -> (r: u32)
    ensures
        r == vstd::std_specs::bits::u64_trailing_zeros(value),
        r <= 64,
        r == 64 <==> value == 0,
{
    broadcast use vstd::std_specs::bits::axiom_u64_trailing_zeros;

    value.trailing_zeros()
}

} // verus!
