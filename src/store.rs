use vstd::prelude::*;
use crate::error::FsError;

verus! {

/// A copy of `v`.
pub fn copy_bytes(v: &Vec<u8>) -> (r: Vec<u8>)
    ensures
        r@ == v@,
{
    let mut r: Vec<u8> = Vec::new();
    let mut i: usize = 0;
    while i < v.len()
        invariant
            i <= v@.len(),
            r@ == v@.take(i as int),
        decreases v@.len() - i,
    {
        r.push(v[i]);
        i = i + 1;
        assert(r@ =~= v@.take(i as int));
    }
    assert(v@.take(i as int) =~= v@);
    r
}

/// `n` zero bytes.
pub fn zeroed(n: usize) -> (r: Vec<u8>)
    ensures
        r@ == Seq::new(n as nat, |i: int| 0u8),
{
    let mut r: Vec<u8> = Vec::new();
    let mut i: usize = 0;
    while i < n
        invariant
            i <= n,
            r@ == Seq::new(i as nat, |j: int| 0u8),
        decreases n - i,
    {
        r.push(0u8);
        i = i + 1;
        assert(r@ =~= Seq::new(i as nat, |j: int| 0u8));
    }
    r
}

/// Raw storage addressed in fixed-size blocks: "read block N into a buffer"
/// and "write a buffer to block N", synchronous and blocking. A transport
/// error is reported as `StorageFailure`; retrying is the store's own affair.
pub trait BlockStore {
    /// The contents of every block, in index order.
    spec fn blocks(&self) -> Seq<Seq<u8>>;

    /// The size of every block, in bytes.
    spec fn spec_block_size(&self) -> nat;

    /// The store never reports a transport error.
    spec fn infallible(&self) -> bool;

    /// The size of every block, in bytes.
    fn block_size(&self) -> (r: usize)
        ensures
            r == self.spec_block_size(),
    ;

    /// The number of blocks.
    fn num_blocks(&self) -> (r: usize)
        ensures
            r == self.blocks().len(),
    ;

    /// Reads block `index` into `buf`.
    fn read_block(&self, index: usize, buf: &mut Vec<u8>) -> (r: Result<(), FsError>)
        requires
            index < self.blocks().len(),
        ensures
            r is Ok ==> final(buf)@ == self.blocks()[index as int],
            r is Err ==> r == Err::<(), FsError>(FsError::StorageFailure),
            self.infallible() ==> r is Ok,
    ;

    /// Writes `data`, one whole block, to block `index`. On failure the other
    /// blocks are untouched; what block `index` then holds is unknown.
    fn write_block(&mut self, index: usize, data: &Vec<u8>) -> (r: Result<(), FsError>)
        requires
            index < old(self).blocks().len(),
            data@.len() == old(self).spec_block_size(),
        ensures
            final(self).spec_block_size() == old(self).spec_block_size(),
            final(self).blocks().len() == old(self).blocks().len(),
            final(self).infallible() == old(self).infallible(),
            old(self).infallible() ==> r is Ok,
            r is Ok ==> final(self).blocks() == old(self).blocks().update(index as int, data@),
            r is Err ==> r == Err::<(), FsError>(FsError::StorageFailure),
            r is Err ==> final(self).blocks()[index as int].len() == old(self).spec_block_size(),
            r is Err ==> forall|j: int|
                0 <= j < old(self).blocks().len() && j != index ==> #[trigger] final(self).blocks()[j]
                    == old(self).blocks()[j],
    ;
}

/// A block store held in memory.
pub struct MemDisk {
    data: Vec<Vec<u8>>,
    block_size: usize,
}

impl MemDisk {
    /// `total` blocks of `block_size` zero bytes each.
    pub fn new(total: usize, block_size: usize) -> (r: Self)
        ensures
            r.blocks() == Seq::new(total as nat, |i: int| Seq::new(block_size as nat, |j: int| 0u8)),
            r.spec_block_size() == block_size,
            r.infallible(),
    {
        let mut data: Vec<Vec<u8>> = Vec::new();
        let mut i: usize = 0;
        while i < total
            invariant
                i <= total,
                data@.len() == i,
                forall|k: int| 0 <= k < i ==> (#[trigger] data@[k])@ == Seq::new(block_size as nat, |j: int| 0u8),
            decreases total - i,
        {
            data.push(zeroed(block_size));
            i = i + 1;
        }
        let r = MemDisk { data, block_size };
        assert(r.blocks() =~= Seq::new(total as nat, |i: int| Seq::new(block_size as nat, |j: int| 0u8)));
        r
    }
}

impl BlockStore for MemDisk {
    closed spec fn blocks(&self) -> Seq<Seq<u8>> {
        Seq::new(self.data@.len(), |i: int| self.data@[i]@)
    }

    closed spec fn spec_block_size(&self) -> nat {
        self.block_size as nat
    }

    /// Memory never fails.
    closed spec fn infallible(&self) -> bool {
        true
    }

    fn block_size(&self) -> (r: usize) {
        self.block_size
    }

    fn num_blocks(&self) -> (r: usize) {
        self.data.len()
    }

    fn read_block(&self, index: usize, buf: &mut Vec<u8>) -> (r: Result<(), FsError>) {
        *buf = copy_bytes(&self.data[index]);
        Ok(())
    }

    fn write_block(&mut self, index: usize, data: &Vec<u8>) -> (r: Result<(), FsError>) {
        let ghost before = self.blocks();
        self.data.set(index, copy_bytes(data));
        assert(self.blocks() =~= before.update(index as int, data@));
        Ok(())
    }
}

} // verus!
