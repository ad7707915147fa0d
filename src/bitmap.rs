use vstd::prelude::*;
use crate::error::FsError;

verus! {

/// Number of blocks tracked by one byte of the bitmap.
pub const BITS_PER_BYTE: usize = 8;

/// Whether bit `k` of `b` is set.
pub open spec fn bit_set(b: u8, k: int) -> bool {
    (b >> (k as u8)) & 1u8 == 1u8
}

/// Number of `false` (free) entries of `s`.
pub open spec fn count_free(s: Seq<bool>) -> nat
    decreases s.len(),
{
    if s.len() == 0 {
        0
    } else {
        count_free(s.drop_last()) + if s.last() { 0nat } else { 1nat }
    }
}

proof fn lemma_count_free_update(s: Seq<bool>, i: int, v: bool)
    requires
        0 <= i < s.len(),
    ensures
        count_free(s.update(i, v)) + (if s[i] { 0int } else { 1int }) == count_free(s) + (if v {
            0int
        } else {
            1int
        }),
    decreases s.len(),
{
    let t = s.update(i, v);
    if i == s.len() - 1 {
        assert(t.drop_last() =~= s.drop_last());
    } else {
        assert(t.drop_last() =~= s.drop_last().update(i, v));
        lemma_count_free_update(s.drop_last(), i, v);
    }
}

proof fn lemma_count_free_bound(s: Seq<bool>)
    ensures
        count_free(s) <= s.len(),
        (forall|j: int| 0 <= j < s.len() ==> s[j]) ==> count_free(s) == 0,
    decreases s.len(),
{
    if s.len() > 0 {
        lemma_count_free_bound(s.drop_last());
        if forall|j: int| 0 <= j < s.len() ==> s[j] {
            assert(s.last());
            assert forall|j: int| 0 <= j < s.drop_last().len() implies s.drop_last()[j] by {
                assert(s[j]);
            }
        }
    }
}

proof fn lemma_set_bit(b: u8, k: u8, j: u8)
    by (bit_vector)
    requires
        k < 8,
        j < 8,
    ensures
        ((b | (1u8 << k)) >> j) & 1u8 == (if j == k {
            1u8
        } else {
            (b >> j) & 1u8
        }),
{
}

proof fn lemma_clear_bit(b: u8, k: u8, j: u8)
    by (bit_vector)
    requires
        k < 8,
        j < 8,
    ensures
        ((b & !(1u8 << k)) >> j) & 1u8 == (if j == k {
            0u8
        } else {
            (b >> j) & 1u8
        }),
{
}

proof fn lemma_get_bit(b: u8, k: u8)
    by (bit_vector)
    requires
        k < 8,
    ensures
        ((b >> k) & 1u8 == 1u8) == (b & (1u8 << k) != 0u8),
{
}

/// Free-space map over a fixed number of blocks: bit `i % 8` of byte `i / 8`
/// is set while block `i` is in use.
pub struct BlockBitmap {
    bits: Vec<u8>,
    total: usize,
    free: usize,
}

impl BlockBitmap {
    /// Whether each block is in use.
    pub closed spec fn view(&self) -> Seq<bool> {
        Seq::new(
            self.total as nat,
            |i: int| bit_set(self.bits@[i / 8], i % 8),
        )
    }

    /// Number of free blocks, kept in step with the bits.
    pub closed spec fn free_count(&self) -> nat {
        self.free as nat
    }

    pub closed spec fn wf(&self) -> bool {
        &&& self.bits@.len() * 8 >= self.total
        &&& self.free == count_free(self@)
    }

    /// A map over `total` blocks, all free.
    pub fn new(total: usize) -> (r: Self)
        ensures
            r.wf(),
            r@ == Seq::new(total as nat, |i: int| false),
            r.free_count() == total,
    {
        let nbytes: usize = total / 8 + 1;
        let mut bits: Vec<u8> = Vec::new();
        let mut i: usize = 0;
        while i < nbytes
            invariant
                i <= nbytes,
                nbytes == total / 8 + 1,
                bits@.len() == i,
                forall|j: int| 0 <= j < i ==> bits@[j] == 0u8,
            decreases nbytes - i,
        {
            bits.push(0u8);
            i = i + 1;
        }
        let r = BlockBitmap { bits, total, free: total };
        assert forall|j: int| 0 <= j < total implies !r@[j] by {
            assert(r.bits@[j / 8] == 0u8);
            let k = (j % 8) as u8;
            assert((0u8 >> k) & 1u8 == 0u8) by (bit_vector);
        }
        assert(r@ =~= Seq::new(total as nat, |i: int| false));
        proof {
            lemma_count_free_all_free(total as nat);
        }
        r
    }

    /// Number of blocks tracked.
    pub fn len(&self) -> (r: usize)
        ensures
            r == self@.len(),
    {
        self.total
    }

    /// Number of free blocks.
    pub fn free_blocks(&self) -> (r: usize)
        ensures
            r == self.free_count(),
    {
        self.free
    }

    /// Whether block `i` is in use.
    pub fn is_allocated(&self, i: usize) -> (r: bool)
        requires
            self.wf(),
            i < self@.len(),
        ensures
            r == self@[i as int],
    {
        let byte = self.bits[i / BITS_PER_BYTE];
        let k = (i % BITS_PER_BYTE) as u8;
        proof {
            lemma_get_bit(byte, k);
        }
        byte & (1u8 << k) != 0
    }

    /// Marks block `i`, which is free, as in use.
    pub(crate) fn claim(&mut self, i: usize)
        requires
            old(self).wf(),
            i < old(self)@.len(),
            !old(self)@[i as int],
        ensures
            final(self).wf(),
            final(self)@ == old(self)@.update(i as int, true),
            final(self).free_count() + 1 == old(self).free_count(),
    {
        let ghost before = self@;
        let bi = i / BITS_PER_BYTE;
        let k = (i % BITS_PER_BYTE) as u8;
        let byte = self.bits[bi];
        self.bits.set(bi, byte | (1u8 << k));
        proof {
            lemma_count_free_update(before, i as int, true);
            lemma_count_free_bound(before);
        }
        self.free = self.free - 1;
        assert forall|j: int| 0 <= j < self.total implies self@[j] == before.update(i as int, true)[j] by {
            if j / 8 == bi as int {
                lemma_set_bit(byte, k, (j % 8) as u8);
            }
        }
        assert(self@ =~= before.update(i as int, true));
    }

    /// Marks block `i` as free; a block that is already free stays free.
    fn unclaim(&mut self, i: usize)
        requires
            old(self).wf(),
            i < old(self)@.len(),
        ensures
            final(self).wf(),
            final(self)@ == old(self)@.update(i as int, false),
            final(self).free_count() == old(self).free_count() + if old(self)@[i as int] {
                1nat
            } else {
                0nat
            },
    {
        let ghost before = self@;
        let bi = i / BITS_PER_BYTE;
        let k = (i % BITS_PER_BYTE) as u8;
        let byte = self.bits[bi];
        proof {
            lemma_get_bit(byte, k);
            lemma_count_free_update(before, i as int, false);
            lemma_count_free_bound(before.update(i as int, false));
        }
        if byte & (1u8 << k) != 0 {
            self.bits.set(bi, byte & !(1u8 << k));
            self.free = self.free + 1;
            assert forall|j: int| 0 <= j < self.total implies self@[j] == before.update(i as int, false)[j] by {
                if j / 8 == bi as int {
                    lemma_clear_bit(byte, k, (j % 8) as u8);
                }
            }
            assert(self@ =~= before.update(i as int, false));
        } else {
            assert(self@ =~= before.update(i as int, false));
        }
    }
    /// Claims the first `count` free blocks in ascending order. Fails with
    /// `InsufficientSpace`, changing nothing, when fewer than `count` are
    /// free: the decision is taken before any bit is claimed, so nothing is
    /// ever left half-claimed.
    pub fn allocate(&mut self, count: usize) -> (r: Result<Vec<usize>, FsError>)
        requires
            old(self).wf(),
        ensures
            final(self).wf(),
            final(self)@.len() == old(self)@.len(),
            count > old(self).free_count() ==> r == Err::<Vec<usize>, FsError>(
                FsError::InsufficientSpace,
            ) && *final(self) == *old(self),
            count <= old(self).free_count() ==> r is Ok,
            r is Ok ==> first_fit(old(self)@, r->Ok_0@, count as nat) && final(self)@ == claimed(
                old(self)@,
                r->Ok_0@,
            ) && final(self).free_count() + count == old(self).free_count(),
    {
        if count > self.free {
            return Err(FsError::InsufficientSpace);
        }
        let ghost start = self@;
        let mut v: Vec<usize> = Vec::new();
        let mut i: usize = 0;
        while v.len() < count
            invariant
                self.wf(),
                self.total == old(self).total,
                start == old(self)@,
                count <= old(self).free_count(),
                i <= self.total,
                v@.len() <= count,
                self.free_count() + v@.len() == old(self).free_count(),
                forall|a: int, b: int| 0 <= a < b < v@.len() ==> v@[a] < v@[b],
                forall|a: int| 0 <= a < v@.len() ==> v@[a] < i && !start[v@[a] as int],
                forall|j: int| 0 <= j < i && !start[j] ==> v@.contains(j as usize),
                forall|j: int| 0 <= j < self.total ==> #[trigger] self@[j] == (start[j] || j < i),
            decreases self.total - i,
        {
            if i == self.total {
                assert(forall|j: int| 0 <= j < self.total ==> self@[j]);
                proof {
                    lemma_count_free_bound(self@);
                }
                assert(false);
            }
            if !self.is_allocated(i) {
                self.claim(i);
                let ghost before = v@;
                v.push(i);
                assert forall|j: int| 0 <= j < i + 1 && !start[j] implies v@.contains(j as usize) by {
                    if j == i {
                        assert(v@[v@.len() - 1] == i);
                    } else {
                        assert(before.contains(j as usize));
                        let t = choose|t: int| 0 <= t < before.len() && before[t] == j as usize;
                        assert(v@[t] == j as usize);
                    }
                }
            }
            i = i + 1;
        }
        assert forall|j: int| 0 <= j < self.total implies self@[j] == claimed(start, v@)[j] by {
            if !start[j] && j < i {
                assert(v@.contains(j as usize));
            }
            if v@.contains(j as usize) {
                let t = choose|t: int| 0 <= t < v@.len() && v@[t] == j as usize;
                assert(v@[t] < i);
            }
        }
        assert(self@ =~= claimed(start, v@));
        assert forall|k: int, j: int|
            #![trigger v@[k], start[j]]
            0 <= k < v@.len() && 0 <= j < v@[k] && !start[j] implies v@.contains(j as usize) by {
            assert(v@[k] < i);
        }
        Ok(v)
    }

    /// Marks every block of `idxs` as free. Releasing a free block is a no-op.
    pub fn release(&mut self, idxs: &Vec<usize>)
        requires
            old(self).wf(),
            forall|k: int| 0 <= k < idxs@.len() ==> idxs@[k] < old(self)@.len(),
        ensures
            final(self).wf(),
            final(self)@ == released(old(self)@, idxs@),
            all_claimed(old(self)@, idxs@) ==> final(self).free_count() == old(self).free_count()
                + idxs@.len(),
    {
        let ghost start = self@;
        let mut k: usize = 0;
        while k < idxs.len()
            invariant
                self.wf(),
                k <= idxs@.len(),
                start == old(self)@,
                self.total == old(self).total,
                forall|t: int| 0 <= t < idxs@.len() ==> idxs@[t] < old(self)@.len(),
                self@ == released(start, idxs@.take(k as int)),
                all_claimed(start, idxs@) ==> self.free_count() == old(self).free_count() + k,
            decreases idxs@.len() - k,
        {
            let b = idxs[k];
            proof {
                if all_claimed(start, idxs@) {
                    assert(start[b as int]);
                    assert(!idxs@.take(k as int).contains(b)) by {
                        if idxs@.take(k as int).contains(b) {
                            let t = choose|t: int| 0 <= t < k && idxs@.take(k as int)[t] == b;
                            assert(idxs@[t] == idxs@[k as int]);
                        }
                    }
                }
            }
            let ghost prev = self@;
            self.unclaim(b);
            assert(idxs@.take(k + 1) =~= idxs@.take(k as int).push(b));
            assert forall|j: int| 0 <= j < self@.len() implies self@[j] == released(
                start,
                idxs@.take(k + 1),
            )[j] by {
                let pre = idxs@.take(k as int);
                assert(self@[j] == prev.update(b as int, false)[j]);
                assert(prev[j] == released(start, pre)[j]);
                if j == b {
                    assert(idxs@.take(k + 1)[k as int] == b);
                }
                if pre.contains(j as usize) {
                    let t = choose|t: int| 0 <= t < pre.len() && pre[t] == j as usize;
                    assert(idxs@.take(k + 1)[t] == j as usize);
                }
                if idxs@.take(k + 1).contains(j as usize) && j != b {
                    let post = idxs@.take(k + 1);
                    let t = choose|t: int| 0 <= t < post.len() && post[t] == j as usize;
                    assert(pre[t] == j as usize);
                }
            }
            assert(self@ =~= released(start, idxs@.take(k + 1)));
            k = k + 1;
        }
        assert(idxs@.take(k as int) =~= idxs@);
    }
}

/// `v` lists, in ascending order, the first `count` blocks that are free in `s`.
pub open spec fn first_fit(s: Seq<bool>, v: Seq<usize>, count: nat) -> bool {
    &&& v.len() == count
    &&& forall|a: int, b: int| 0 <= a < b < v.len() ==> v[a] < v[b]
    &&& forall|a: int| 0 <= a < v.len() ==> v[a] < s.len() && !s[v[a] as int]
    &&& forall|k: int, j: int|
        #![trigger v[k], s[j]]
        0 <= k < v.len() && 0 <= j < v[k] && !s[j] ==> v.contains(j as usize)
}

/// `s` with the blocks of `v` marked in use.
pub open spec fn claimed(s: Seq<bool>, v: Seq<usize>) -> Seq<bool> {
    Seq::new(s.len(), |j: int| s[j] || v.contains(j as usize))
}

/// `s` with the blocks of `v` marked free.
pub open spec fn released(s: Seq<bool>, v: Seq<usize>) -> Seq<bool> {
    Seq::new(s.len(), |j: int| s[j] && !v.contains(j as usize))
}

/// The blocks of `v` are distinct and all in use in `s`.
pub open spec fn all_claimed(s: Seq<bool>, v: Seq<usize>) -> bool {
    &&& forall|a: int, b: int| 0 <= a < b < v.len() ==> v[a] != v[b]
    &&& forall|a: int| 0 <= a < v.len() ==> v[a] < s.len() && s[v[a] as int]
}

proof fn lemma_count_free_all_free(n: nat)
    ensures
        count_free(Seq::new(n, |i: int| false)) == n,
    decreases n,
{
    if n > 0 {
        lemma_count_free_all_free((n - 1) as nat);
        assert(Seq::new(n, |i: int| false).drop_last() =~= Seq::new((n - 1) as nat, |i: int| false));
    }
}

} // verus!
