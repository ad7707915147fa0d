use vstd::prelude::*;
use crate::bitmap::{BlockBitmap, first_fit, claimed, released, all_claimed};
use crate::error::FsError;
use crate::store::BlockStore;
use vstd::arithmetic::div_mod::{
    lemma_div_pos_is_pos, lemma_fundamental_div_mod, lemma_fundamental_div_mod_converse, lemma_mod_bound,
};

verus! {

/// Tag that marks a formatted file system.
pub const MAGIC: u32 = 0xF0F0_3410;

/// Number of block pointers in one file record.
pub const BLOCK_PTRS: usize = 10;

/// Blocks kept from files: block 0 holds the superblock, block 1 the root
/// directory.
pub const RESERVED_BLOCKS: usize = 2;

/// Number of file records in the metadata table.
pub const MAX_FILES: usize = 128;

/// Number of blocks that `len` bytes occupy, with blocks of `bs` bytes.
pub open spec fn blocks_needed(len: nat, bs: nat) -> nat {
    if bs == 0 {
        0
    } else {
        len / bs + if len % bs == 0 {
            0nat
        } else {
            1nat
        }
    }
}

/// The bytes of a file of `size` bytes whose blocks are `ptrs`, in order:
/// byte `i` sits at offset `i % bs` of block `ptrs[i / bs]`.
pub open spec fn content_of(blocks: Seq<Seq<u8>>, size: nat, ptrs: Seq<usize>, bs: nat) -> Seq<u8> {
    Seq::new(size, |i: int| blocks[ptrs[i / bs as int] as int][i % bs as int])
}

/// Block `k` of `data`: `bs` bytes from offset `k * bs`, zero past the end.
pub open spec fn chunk(data: Seq<u8>, k: int, bs: nat) -> Seq<u8> {
    Seq::new(bs, |j: int| if k * bs + j < data.len() { data[k * bs + j] } else { 0u8 })
}

/// Byte `i` of `len` bytes lies at offset `i % bs` of block `i / bs`, one of
/// the blocks that `len` bytes need.
pub proof fn lemma_byte_position(i: int, len: int, bs: int)
    requires
        0 <= i < len,
        bs > 0,
    ensures
        (i / bs) * bs + i % bs == i,
        0 <= i % bs < bs,
        0 <= i / bs < blocks_needed(len as nat, bs as nat),
{
    lemma_fundamental_div_mod(i, bs);
    lemma_fundamental_div_mod(len, bs);
    lemma_mod_bound(i, bs);
    lemma_mod_bound(len, bs);
    lemma_div_pos_is_pos(i, bs);
    let qi = i / bs;
    let ql = len / bs;
    let ri = i % bs;
    let rl = len % bs;
    assert(qi * bs == bs * qi) by (nonlinear_arith);
    assert(qi <= ql) by (nonlinear_arith)
        requires
            bs * qi + ri < bs * ql + rl,
            0 <= ri < bs,
            0 <= rl < bs,
    ;
    if qi == ql {
        assert(rl > 0);
    }
}

/// `len` bytes fit in `ptrs` blocks of `bs` bytes exactly when
/// `len <= ptrs * bs`.
pub proof fn lemma_fits(len: nat, bs: nat, ptrs: nat)
    requires
        bs > 0,
    ensures
        (blocks_needed(len, bs) <= ptrs) == (len <= ptrs * bs),
{
    let l = len as int;
    let b = bs as int;
    let p = ptrs as int;
    lemma_fundamental_div_mod(l, b);
    lemma_mod_bound(l, b);
    lemma_div_pos_is_pos(l, b);
    let q = l / b;
    let r = l % b;
    if r == 0 {
        assert((q <= p) == (l <= p * b)) by (nonlinear_arith)
            requires
                l == b * q,
                b > 0,
        ;
    } else {
        assert((q + 1 <= p) == (l <= p * b)) by (nonlinear_arith)
            requires
                l == b * q + r,
                0 < r < b,
        ;
    }
}

/// Block `k` of the blocks that `len` bytes need starts inside them.
pub proof fn lemma_block_start(k: int, len: int, bs: int)
    requires
        0 <= k < blocks_needed(len as nat, bs as nat),
        0 <= len,
        bs > 0,
    ensures
        0 <= k * bs < len,
{
    lemma_fundamental_div_mod(len, bs);
    lemma_mod_bound(len, bs);
    let ql = len / bs;
    let rl = len % bs;
    assert(blocks_needed(len as nat, bs as nat) == ql + if rl == 0 {
        0int
    } else {
        1int
    });
    assert(0 <= k * bs) by (nonlinear_arith)
        requires
            0 <= k,
            bs > 0,
    ;
    if k < ql {
        assert(k * bs < len) by (nonlinear_arith)
            requires
                k < ql,
                len == bs * ql + rl,
                0 <= rl,
                bs > 0,
        ;
    } else {
        assert(k * bs < len) by (nonlinear_arith)
            requires
                k == ql,
                len == bs * ql + rl,
                0 < rl,
        ;
    }
}

/// No bytes need no blocks.
pub proof fn lemma_empty_needs_none(bs: nat)
    requires
        bs > 0,
    ensures
        blocks_needed(0, bs) == 0,
{
    lemma_fundamental_div_mod_converse(0, bs as int, 0, 0);
}

/// Offset `j` of block `k` is byte `k * bs + j`.
pub proof fn lemma_offset_in_block(k: int, j: int, bs: int)
    requires
        0 <= k,
        0 <= j < bs,
    ensures
        (k * bs + j) / bs == k,
        (k * bs + j) % bs == j,
{
    lemma_fundamental_div_mod_converse(k * bs + j, bs, k, j);
}

/// Blocks that hold the chunks of `data` in order make up `data`.
pub proof fn lemma_content_written(s: Seq<Seq<u8>>, ptrs: Seq<usize>, data: Seq<u8>, bs: nat)
    requires
        bs > 0,
        ptrs.len() == blocks_needed(data.len(), bs),
        forall|k: int|
            0 <= k < ptrs.len() ==> ptrs[k] < s.len() && s[#[trigger] ptrs[k] as int] == chunk(
                data,
                k,
                bs,
            ),
    ensures
        content_of(s, data.len(), ptrs, bs) == data,
{
    assert forall|i: int| 0 <= i < data.len() implies #[trigger] content_of(s, data.len(), ptrs, bs)[i]
        == data[i] by {
        lemma_byte_position(i, data.len() as int, bs as int);
        let k = i / bs as int;
        assert(s[ptrs[k] as int] == chunk(data, k, bs));
    }
    assert(content_of(s, data.len(), ptrs, bs) =~= data);
}

/// A file reads the same from two stores that agree on its blocks.
pub proof fn lemma_content_frame(s1: Seq<Seq<u8>>, s2: Seq<Seq<u8>>, size: nat, ptrs: Seq<usize>, bs: nat)
    requires
        bs > 0,
        ptrs.len() == blocks_needed(size, bs),
        forall|k: int| 0 <= k < ptrs.len() ==> s1[#[trigger] ptrs[k] as int] == s2[ptrs[k] as int],
    ensures
        content_of(s1, size, ptrs, bs) == content_of(s2, size, ptrs, bs),
{
    assert forall|i: int| 0 <= i < size implies #[trigger] content_of(s1, size, ptrs, bs)[i]
        == content_of(s2, size, ptrs, bs)[i] by {
        lemma_byte_position(i, size as int, bs as int);
        let k = i / bs as int;
        assert(s1[ptrs[k] as int] == s2[ptrs[k] as int]);
    }
    assert(content_of(s1, size, ptrs, bs) =~= content_of(s2, size, ptrs, bs));
}

/// Block `k` of `data`, zero-padded to `bs` bytes.
fn make_chunk(data: &[u8], k: usize, bs: usize) -> (r: Vec<u8>)
    requires
        bs > 0,
        k < blocks_needed(data@.len(), bs as nat),
    ensures
        r@ == chunk(data@, k as int, bs as nat),
{
    proof {
        lemma_block_start(k as int, data@.len() as int, bs as int);
    }
    let len = data.len();
    let off = k * bs;
    let mut r: Vec<u8> = Vec::new();
    let mut j: usize = 0;
    while j < bs
        invariant
            j <= bs,
            off == k * bs,
            off < data@.len(),
            r@.len() == j,
            forall|t: int| 0 <= t < j ==> r@[t] == chunk(data@, k as int, bs as nat)[t],
        decreases bs - j,
    {
        if j < data.len() - off {
            r.push(data[off + j]);
        } else {
            r.push(0u8);
        }
        j = j + 1;
    }
    assert(r@ =~= chunk(data@, k as int, bs as nat));
    r
}

/// Number of blocks of `bs` bytes that `len` bytes need.
pub fn blocks_for(len: usize, bs: usize) -> (r: usize)
    requires
        bs > 0,
    ensures
        r == blocks_needed(len as nat, bs as nat),
{
    let q = len / bs;
    if len % bs == 0 {
        q
    } else {
        proof {
            lemma_fundamental_div_mod(len as int, bs as int);
            let qi = q as int;
            let ri = (len % bs) as int;
            assert(qi < len) by (nonlinear_arith)
                requires
                    len == bs * qi + ri,
                    ri > 0,
                    qi >= 0,
                    bs > 0,
            ;
        }
        q + 1
    }
}

/// Smallest of two sizes.
fn min_usize(a: usize, b: usize) -> (r: usize)
    ensures
        r == if a < b {
            a
        } else {
            b
        },
{
    if a < b {
        a
    } else {
        b
    }
}

/// Process-wide descriptor of the file system.
pub struct SuperBlock {
    pub magic: u32,
    pub total_blocks: usize,
    pub free_blocks: usize,
    pub block_size: usize,
    pub root_dir_block: usize,
}

impl SuperBlock {
    /// Descriptor of a fresh file system: block 0 holds the descriptor and
    /// block 1 the root directory; every other block is free.
    pub fn new(total_blocks: usize, block_size: usize) -> (r: Self)
        ensures
            r.magic == MAGIC,
            r.total_blocks == total_blocks,
            r.free_blocks == if total_blocks < RESERVED_BLOCKS {
                0
            } else {
                total_blocks - RESERVED_BLOCKS
            },
            r.block_size == block_size,
            r.root_dir_block == 1,
    {
        SuperBlock {
            magic: MAGIC,
            total_blocks,
            free_blocks: if total_blocks < RESERVED_BLOCKS {
                0
            } else {
                total_blocks - RESERVED_BLOCKS
            },
            block_size,
            root_dir_block: 1,
        }
    }
}

/// A file record: the logical size and the blocks holding the bytes, in order.
pub struct Inode {
    pub size: usize,
    pub blocks: Vec<usize>,
}

impl Inode {
    /// The record of an empty file.
    pub fn new() -> (r: Self)
        ensures
            r.size == 0,
            r.blocks@.len() == 0,
    {
        Inode { size: 0, blocks: Vec::new() }
    }

    /// A copy of this record.
    pub fn copy(&self) -> (r: Self)
        ensures
            r.size == self.size,
            r.blocks@ == self.blocks@,
    {
        let mut blocks: Vec<usize> = Vec::new();
        let mut i: usize = 0;
        while i < self.blocks.len()
            invariant
                i <= self.blocks@.len(),
                blocks@ == self.blocks@.take(i as int),
            decreases self.blocks@.len() - i,
        {
            blocks.push(self.blocks[i]);
            i = i + 1;
            assert(blocks@ =~= self.blocks@.take(i as int));
        }
        assert(self.blocks@.take(i as int) =~= self.blocks@);
        Inode { size: self.size, blocks }
    }
}

/// The metadata table and block allocator over a block store: files are
/// addressed by handle, the index of their record.
pub struct FileSystem<D: BlockStore> {
    superblock: SuperBlock,
    bitmap: BlockBitmap,
    inodes: Vec<Option<Inode>>,
    store: D,
}

impl<D: BlockStore> FileSystem<D> {
    pub closed spec fn bs(&self) -> nat {
        self.superblock.block_size as nat
    }

    /// Whether handle `h` names a live file.
    pub closed spec fn live(&self, h: int) -> bool {
        0 <= h < self.inodes@.len() && self.inodes@[h] is Some
    }

    pub closed spec fn rec(&self, h: int) -> Inode {
        self.inodes@[h]->Some_0
    }

    /// The bytes of file `h`.
    pub closed spec fn content(&self, h: int) -> Seq<u8> {
        content_of(self.store.blocks(), self.rec(h).size as nat, self.rec(h).blocks@, self.bs())
    }

    /// Every live file, by handle, with its bytes.
    pub closed spec fn files(&self) -> Map<int, Seq<u8>> {
        Map::new(|h: int| self.live(h), |h: int| self.content(h))
    }

    /// The store underneath never reports a transport error.
    pub closed spec fn store_ok(&self) -> bool {
        self.store.infallible()
    }

    /// What every block of the store holds.
    pub closed spec fn stored(&self) -> Seq<Seq<u8>> {
        self.store.blocks()
    }

    /// Number of free blocks, as the superblock records it.
    pub closed spec fn free_count(&self) -> nat {
        self.superblock.free_blocks as nat
    }

    /// Whether each block is in use.
    pub closed spec fn in_use(&self) -> Seq<bool> {
        self.bitmap@
    }

    pub closed spec fn block_len(&self) -> nat {
        self.bs()
    }

    /// Blocks of the live file `h`.
    pub closed spec fn blocks_of(&self, h: int) -> Seq<usize> {
        self.rec(h).blocks@
    }

    pub closed spec fn rec_ok(&self, h: int) -> bool {
        let ino = self.rec(h);
        &&& ino.blocks@.len() == blocks_needed(ino.size as nat, self.bs())
        &&& ino.blocks@.len() <= BLOCK_PTRS
        &&& forall|a: int|
            0 <= a < ino.blocks@.len() ==> #[trigger] ino.blocks@[a] < self.bitmap@.len()
                && self.bitmap@[ino.blocks@[a] as int] && ino.blocks@[a] >= RESERVED_BLOCKS
    }

    pub closed spec fn wf(&self) -> bool {
        &&& self.superblock.block_size > 0
        &&& self.superblock.magic == MAGIC
        &&& self.store.spec_block_size() == self.bs()
        &&& self.bitmap.wf()
        &&& self.bitmap@.len() == self.store.blocks().len()
        &&& self.superblock.total_blocks == self.bitmap@.len()
        &&& self.superblock.free_blocks == self.bitmap.free_count()
        &&& forall|i: int| 0 <= i < RESERVED_BLOCKS && i < self.bitmap@.len() ==> self.bitmap@[i]
        &&& forall|i: int|
            0 <= i < self.store.blocks().len() ==> (#[trigger] self.store.blocks()[i]).len()
                == self.bs()
        &&& self.inodes@.len() == MAX_FILES
        &&& forall|h: int| #[trigger] self.live(h) ==> self.rec_ok(h)
        &&& forall|h1: int, h2: int, a: int, b: int|
            #![trigger self.rec(h1).blocks@[a], self.rec(h2).blocks@[b]]
            self.live(h1) && self.live(h2) && 0 <= a < self.rec(h1).blocks@.len() && 0 <= b
                < self.rec(h2).blocks@.len() && (h1 != h2 || a != b) ==> self.rec(h1).blocks@[a]
                != self.rec(h2).blocks@[b]
    }

    /// Disjointness carries over to a state whose live records are live
    /// records of `before`, unchanged.
    proof fn lemma_disjoint_kept(&self, before: &Self)
        requires
            before.wf(),
            forall|h: int| #[trigger] self.live(h) ==> before.live(h) && self.rec(h) == before.rec(h),
        ensures
            forall|h1: int, h2: int, a: int, b: int|
                #![trigger self.rec(h1).blocks@[a], self.rec(h2).blocks@[b]]
                self.live(h1) && self.live(h2) && 0 <= a < self.rec(h1).blocks@.len() && 0 <= b
                    < self.rec(h2).blocks@.len() && (h1 != h2 || a != b) ==> self.rec(h1).blocks@[a]
                    != self.rec(h2).blocks@[b],
    {
        assert forall|h1: int, h2: int, a: int, b: int|
            #![trigger self.rec(h1).blocks@[a], self.rec(h2).blocks@[b]]
            self.live(h1) && self.live(h2) && 0 <= a < self.rec(h1).blocks@.len() && 0 <= b
                < self.rec(h2).blocks@.len() && (h1 != h2 || a != b) implies self.rec(h1).blocks@[a]
                != self.rec(h2).blocks@[b] by {
            assert(before.rec(h1).blocks@[a] != before.rec(h2).blocks@[b]);
        }
    }

    /// Every record of the table is in use.
    pub open spec fn records_full(&self) -> bool {
        forall|h: int| 0 <= h < MAX_FILES ==> self.files().contains_key(h)
    }

    /// Whether a record is free.
    pub fn has_free_record(&self) -> (r: bool)
        requires
            self.wf(),
        ensures
            r == !self.records_full(),
    {
        let r = self.first_free_record();
        proof {
            self.lemma_live();
            if r is Some {
                assert(!self.files().contains_key(r->Some_0 as int));
            }
        }
        r.is_some()
    }

    /// A live file occupies exactly the blocks that its size needs.
    pub proof fn lemma_blocks_of(&self, h: int)
        requires
            self.wf(),
            self.files().contains_key(h),
        ensures
            self.blocks_of(h).len() == blocks_needed(self.files()[h].len(), self.block_len()),
            self.blocks_of(h).len() <= BLOCK_PTRS,
    {
        assert(self.rec_ok(h));
    }

    /// No block belongs to two live files, nor twice to one.
    pub proof fn lemma_no_shared_blocks(&self)
        requires
            self.wf(),
        ensures
            forall|h1: int, h2: int, a: int, b: int|
                #![trigger self.blocks_of(h1)[a], self.blocks_of(h2)[b]]
                self.files().contains_key(h1) && self.files().contains_key(h2) && 0 <= a < self.blocks_of(h1).len() && 0 <= b
                    < self.blocks_of(h2).len() && (h1 != h2 || a != b) ==> self.blocks_of(h1)[a]
                    != self.blocks_of(h2)[b],
            forall|h: int, a: int|
                #![trigger self.blocks_of(h)[a]]
                self.files().contains_key(h) && 0 <= a < self.blocks_of(h).len() ==> self.blocks_of(h)[a] < self.in_use().len()
                    && self.in_use()[self.blocks_of(h)[a] as int] && self.blocks_of(h)[a] >= RESERVED_BLOCKS,
            forall|i: int| 0 <= i < RESERVED_BLOCKS && i < self.in_use().len() ==> self.in_use()[i],
    {
        assert forall|h: int, a: int|
            #![trigger self.blocks_of(h)[a]]
            self.live(h) && 0 <= a < self.blocks_of(h).len() implies self.blocks_of(h)[a] < self.in_use().len()
                && self.in_use()[self.blocks_of(h)[a] as int] && self.blocks_of(h)[a] >= RESERVED_BLOCKS by {
            assert(self.rec_ok(h));
            assert(self.rec(h).blocks@[a] == self.blocks_of(h)[a]);
        }
    }

    /// Blocks have at least one byte.
    pub proof fn lemma_block_len(&self)
        requires
            self.wf(),
        ensures
            self.block_len() > 0,
    {
    }

    /// The live handles are the keys of the file map.
    pub proof fn lemma_live(&self)
        requires
            self.wf(),
        ensures
            forall|h: int| #[trigger] self.files().contains_key(h) == self.live(h),
            forall|h: int| #[trigger] self.files().contains_key(h) ==> 0 <= h < MAX_FILES,
    {
    }

    /// Whether handle `h` names a live file.
    pub fn is_live(&self, h: usize) -> (r: bool)
        ensures
            r == self.files().contains_key(h as int),
    {
        h < self.inodes.len() && self.inodes[h].is_some()
    }

    /// Index of the first free record, if any.
    fn first_free_record(&self) -> (r: Option<usize>)
        requires
            self.wf(),
        ensures
            r is None <==> forall|h: int| 0 <= h < MAX_FILES ==> self.live(h),
            r is Some ==> r->Some_0 < MAX_FILES && !self.live(r->Some_0 as int) && forall|g: int|
                0 <= g < r->Some_0 ==> self.live(g),
    {
        let mut i: usize = 0;
        while i < self.inodes.len()
            invariant
                self.wf(),
                i <= self.inodes@.len(),
                forall|g: int| 0 <= g < i ==> self.live(g),
            decreases self.inodes@.len() - i,
        {
            if self.inodes[i].is_none() {
                assert(!self.live(i as int));
                return Some(i);
            }
            i = i + 1;
        }
        assert(forall|h: int| 0 <= h < MAX_FILES ==> self.live(h));
        None
    }

    /// An empty file system over `store`; block 0 is kept for the superblock.
    pub fn new(store: D) -> (r: Self)
        requires
            store.spec_block_size() > 0,
            forall|i: int|
                0 <= i < store.blocks().len() ==> (#[trigger] store.blocks()[i]).len()
                    == store.spec_block_size(),
        ensures
            r.wf(),
            r.files() == Map::<int, Seq<u8>>::empty(),
            r.free_count() == if store.blocks().len() < RESERVED_BLOCKS {
                0
            } else {
                store.blocks().len() - RESERVED_BLOCKS
            },
            r.in_use().len() == store.blocks().len(),
            r.block_len() == store.spec_block_size(),
            r.store_ok() == store.infallible(),
    {
        let total = store.num_blocks();
        let bs = store.block_size();
        let mut bitmap = BlockBitmap::new(total);
        if total > 0 {
            bitmap.claim(0);
        }
        if total > 1 {
            bitmap.claim(1);
        }
        let mut inodes: Vec<Option<Inode>> = Vec::new();
        let mut i: usize = 0;
        while i < MAX_FILES
            invariant
                i <= MAX_FILES,
                inodes@.len() == i,
                forall|k: int| 0 <= k < i ==> inodes@[k] is None,
            decreases MAX_FILES - i,
        {
            inodes.push(None);
            i = i + 1;
        }
        let r = FileSystem { superblock: SuperBlock::new(total, bs), bitmap, inodes, store };
        assert(r.files() =~= Map::<int, Seq<u8>>::empty());
        r
    }

    /// Block size in bytes.
    pub fn block_size(&self) -> (r: usize)
        ensures
            r == self.block_len(),
            self.wf() ==> r > 0,
    {
        self.superblock.block_size
    }

    /// Number of blocks of the store.
    pub fn total_blocks(&self) -> (r: usize)
        requires
            self.wf(),
        ensures
            r == self.in_use().len(),
    {
        self.superblock.total_blocks
    }

    /// Number of free blocks.
    pub fn free_blocks(&self) -> (r: usize)
        ensures
            r == self.free_count(),
    {
        self.superblock.free_blocks
    }

    /// The block store underneath.
    pub fn store(&self) -> (r: &D)
        ensures
            self.wf() ==> r.blocks().len() == self.in_use().len() && r.spec_block_size()
                == self.block_len(),
    {
        &self.store
    }

    /// Takes the first free record and makes it an empty file.
    pub fn create_file(&mut self) -> (r: Result<usize, FsError>)
        requires
            old(self).wf(),
        ensures
            final(self).wf(),
            final(self).block_len() == old(self).block_len(),
            final(self).store_ok() == old(self).store_ok(),
            final(self).free_count() == old(self).free_count(),
            final(self).in_use() == old(self).in_use(),
            old(self).records_full() <==> r == Err::<usize, FsError>(
                FsError::NoFreeRecords,
            ),
            r is Err ==> final(self).files() == old(self).files() && r == Err::<usize, FsError>(
                FsError::NoFreeRecords,
            ),
            r is Ok ==> {
                let h = r->Ok_0 as int;
                &&& 0 <= h < MAX_FILES
                &&& !old(self).files().contains_key(h)
                &&& forall|g: int| 0 <= g < h ==> old(self).files().contains_key(g)
                &&& final(self).files() == old(self).files().insert(h, Seq::empty())
                &&& final(self).blocks_of(h).len() == 0
            },
    {
        match self.first_free_record() {
            None => {
                proof {
                    self.lemma_live();
                }
                Err(FsError::NoFreeRecords)
            },
            Some(i) => {
                let ghost before = *self;
                self.inodes.set(i, Some(Inode::new()));
                proof {
                    assert forall|h: int| #[trigger] self.live(h) implies self.rec_ok(h) by {
                        if h != i {
                            assert(before.live(h));
                        }
                    }
                    assert forall|h1: int, h2: int, a: int, b: int|
                        #![trigger self.rec(h1).blocks@[a], self.rec(h2).blocks@[b]]
                        self.live(h1) && self.live(h2) && 0 <= a < self.rec(h1).blocks@.len() && 0
                            <= b < self.rec(h2).blocks@.len() && (h1 != h2 || a != b) implies self.rec(
                            h1,
                        ).blocks@[a] != self.rec(h2).blocks@[b] by {
                        assert(h1 != i && h2 != i);
                        assert(before.rec(h1).blocks@[a] != before.rec(h2).blocks@[b]);
                    }
                    assert forall|h: int| #[trigger] self.live(h) && h != i implies self.content(h)
                        == before.content(h) by {}
                    assert(self.content(i as int) =~= Seq::<u8>::empty());
                    assert(self.files() =~= before.files().insert(i as int, Seq::empty()));
                    before.lemma_live();
                    assert(!before.files().contains_key(i as int));
                }
                Ok(i)
            },
        }
    }

    /// Marks the first free block as in use and returns it.
    pub fn allocate_block(&mut self) -> (r: Result<usize, FsError>)
        requires
            old(self).wf(),
        ensures
            final(self).wf(),
            final(self).files() == old(self).files(),
            final(self).store_ok() == old(self).store_ok(),
            final(self).block_len() == old(self).block_len(),
            old(self).free_count() == 0 <==> r == Err::<usize, FsError>(FsError::InsufficientSpace),
            r is Err ==> r == Err::<usize, FsError>(FsError::InsufficientSpace),
            r is Err ==> final(self).in_use() == old(self).in_use(),
            r is Ok ==> first_fit(old(self).in_use(), seq![r->Ok_0], 1) && final(self).in_use()
                == claimed(old(self).in_use(), seq![r->Ok_0]) && final(self).free_count() + 1
                == old(self).free_count(),
    {
        let ghost before = *self;
        match self.bitmap.allocate(1) {
            Ok(v) => {
                self.superblock.free_blocks = self.bitmap.free_blocks();
                let b = v[0];
                assert(v@ =~= seq![b]);
                proof {
                    self.lemma_disjoint_kept(&before);
                    assert forall|h: int| #[trigger] self.live(h) implies self.rec_ok(h) by {
                        assert(before.live(h));
                        assert(before.rec_ok(h));
                        assert forall|a: int| 0 <= a < self.rec(h).blocks@.len() implies #[trigger] self.rec(h).blocks@[a] < self.bitmap@.len()
                            && self.bitmap@[self.rec(h).blocks@[a] as int] by {
                            assert(before.bitmap@[self.rec(h).blocks@[a] as int]);
                        }
                    }
                    assert(self.files() =~= before.files());
                }
                Ok(b)
            },
            Err(e) => Err(e),
        }
    }

    /// A copy of the record of handle `h`, if `h` is live.
    pub fn read_inode(&self, h: usize) -> (r: Option<Inode>)
        requires
            self.wf(),
        ensures
            r is Some <==> self.files().contains_key(h as int),
            r is Some ==> r->Some_0.size == self.files()[h as int].len() && r->Some_0.blocks@
                == self.blocks_of(h as int),
    {
        if h < self.inodes.len() {
            match &self.inodes[h] {
                Some(ino) => Some(ino.copy()),
                None => None,
            }
        } else {
            None
        }
    }

    /// A state that differs from `before` only in what the blocks of the
    /// store hold is well formed.
    proof fn lemma_wf_store_change(&self, before: &Self)
        requires
            before.wf(),
            self.superblock == before.superblock,
            self.bitmap == before.bitmap,
            self.inodes == before.inodes,
            self.store.spec_block_size() == before.store.spec_block_size(),
            self.store.blocks().len() == before.store.blocks().len(),
            forall|i: int|
                0 <= i < self.store.blocks().len() ==> (#[trigger] self.store.blocks()[i]).len()
                    == self.bs(),
        ensures
            self.wf(),
    {
        assert forall|h: int| #[trigger] self.live(h) implies self.rec_ok(h) by {
            assert(before.live(h));
            assert(before.rec_ok(h));
        }
        self.lemma_disjoint_kept(before);
    }

    /// Writes the chunks of `data` to `ptrs`, chunk `k` to block `ptrs[k]`,
    /// in that order. Blocks outside `ptrs` are untouched, even on failure.
    fn write_chunks(&mut self, ptrs: &Vec<usize>, data: &[u8]) -> (r: Result<(), FsError>)
        requires
            old(self).wf(),
            ptrs@.len() == blocks_needed(data@.len(), old(self).bs()),
            forall|k: int| 0 <= k < ptrs@.len() ==> #[trigger] ptrs@[k] < old(self).store.blocks().len(),
            forall|a: int, b: int| 0 <= a < b < ptrs@.len() ==> ptrs@[a] != ptrs@[b],
        ensures
            final(self).wf(),
            final(self).superblock == old(self).superblock,
            final(self).bitmap == old(self).bitmap,
            final(self).inodes == old(self).inodes,
            final(self).store.blocks().len() == old(self).store.blocks().len(),
            final(self).store.infallible() == old(self).store.infallible(),
            old(self).store.infallible() || ptrs@.len() == 0 ==> r is Ok,
            forall|j: int|
                0 <= j < old(self).store.blocks().len() && !ptrs@.contains(j as usize) ==> #[trigger] final(self).store.blocks()[j]
                    == old(self).store.blocks()[j],
            r is Err ==> r == Err::<(), FsError>(FsError::StorageFailure),
            r is Ok ==> forall|k: int|
                0 <= k < ptrs@.len() ==> final(self).store.blocks()[#[trigger] ptrs@[k] as int]
                    == chunk(data@, k, old(self).bs()),
    {
        let bs = self.superblock.block_size;
        let ghost start = self.store.blocks();
        let ghost bsn = self.bs();
        let mut k: usize = 0;
        while k < ptrs.len()
            invariant
                old(self).wf(),
                bs == bsn,
                bsn == old(self).bs(),
                bs > 0,
                start == old(self).store.blocks(),
                k <= ptrs@.len(),
                ptrs@.len() == blocks_needed(data@.len(), bsn),
                forall|t: int| 0 <= t < ptrs@.len() ==> #[trigger] ptrs@[t] < start.len(),
                forall|a: int, b: int| 0 <= a < b < ptrs@.len() ==> ptrs@[a] != ptrs@[b],
                self.superblock == old(self).superblock,
                self.bitmap == old(self).bitmap,
                self.inodes == old(self).inodes,
                self.store.spec_block_size() == bsn,
                self.store.infallible() == old(self).store.infallible(),
                self.store.blocks().len() == start.len(),
                forall|i: int|
                    0 <= i < self.store.blocks().len() ==> (#[trigger] self.store.blocks()[i]).len()
                        == bsn,
                forall|j: int|
                    0 <= j < start.len() && !ptrs@.take(k as int).contains(j as usize)
                        ==> #[trigger] self.store.blocks()[j] == start[j],
                forall|t: int|
                    0 <= t < k ==> self.store.blocks()[#[trigger] ptrs@[t] as int] == chunk(data@, t, bsn),
            decreases ptrs@.len() - k,
        {
            let b = ptrs[k];
            let buf = make_chunk(data, k, bs);
            let ghost prev = self.store.blocks();
            let res = self.store.write_block(b, &buf);
            proof {
                assert(ptrs@.take(k + 1) =~= ptrs@.take(k as int).push(b));
                assert forall|j: int|
                    0 <= j < start.len() && !ptrs@.take(k + 1).contains(j as usize) implies #[trigger] self.store.blocks()[j]
                    == start[j] by {
                    assert(ptrs@.take(k + 1)[k as int] == b);
                    if ptrs@.take(k as int).contains(j as usize) {
                        let t = choose|t: int|
                            0 <= t < ptrs@.take(k as int).len() && ptrs@.take(k as int)[t] == j as usize;
                        assert(ptrs@.take(k + 1)[t] == j as usize);
                    }
                    assert(prev[j] == start[j]);
                }
                assert forall|i: int|
                    0 <= i < self.store.blocks().len() implies (#[trigger] self.store.blocks()[i]).len()
                    == bsn by {
                    if i != b {
                        assert(prev[i].len() == bsn);
                    }
                }
                if res is Ok {
                    assert forall|t: int| 0 <= t < k + 1 implies self.store.blocks()[#[trigger] ptrs@[t] as int]
                        == chunk(data@, t, bsn) by {
                        if t < k {
                            assert(ptrs@[t] != ptrs@[k as int]);
                            assert(prev[ptrs@[t] as int] == chunk(data@, t, bsn));
                        }
                    }
                }
            }
            if res.is_err() {
                proof {
                    self.lemma_wf_store_change(&*old(self));
                    assert forall|j: int|
                        0 <= j < start.len() && !ptrs@.contains(j as usize) implies #[trigger] self.store.blocks()[j]
                        == start[j] by {
                        let post = ptrs@.take(k + 1);
                        if post.contains(j as usize) {
                            let t = choose|t: int| 0 <= t < post.len() && post[t] == j as usize;
                            assert(ptrs@[t] == j as usize);
                        }
                    }
                }
                return Err(FsError::StorageFailure);
            }
            k = k + 1;
        }
        proof {
            assert(ptrs@.take(k as int) =~= ptrs@);
            self.lemma_wf_store_change(&*old(self));
        }
        Ok(())
    }

    /// File `h` becomes `data`, written over its own blocks, whose number
    /// does not change.
    fn rewrite_in_place(&mut self, h: usize, data: &[u8]) -> (r: Result<(), FsError>)
        requires
            old(self).wf(),
            old(self).live(h as int),
            blocks_needed(data@.len(), old(self).bs()) == old(self).blocks_of(h as int).len(),
        ensures
            final(self).wf(),
            final(self).block_len() == old(self).block_len(),
            final(self).store_ok() == old(self).store_ok(),
            old(self).store_ok() || data@.len() == 0 ==> r is Ok,
            final(self).free_count() == old(self).free_count(),
            final(self).in_use() == old(self).in_use(),
            final(self).files().dom() == old(self).files().dom(),
            forall|g: int| #[trigger] old(self).live(g) && g != h ==> final(self).files()[g] == old(self).files()[g],
            r is Err ==> r == Err::<(), FsError>(FsError::StorageFailure),
            r is Err ==> final(self).inodes@ == old(self).inodes@,
            r is Ok ==> final(self).files() == old(self).files().insert(h as int, data@),
            r is Ok ==> forall|k: int|
                0 <= k < final(self).blocks_of(h as int).len() ==> final(self).stored()[#[trigger] final(self).blocks_of(h as int)[k] as int] == chunk(data@, k, old(self).block_len()),
    {
        let ghost s0 = *self;
        let ptrs = self.inodes[h].as_ref().unwrap().copy().blocks;
        proof {
            assert(s0.live(h as int));
            assert(s0.rec_ok(h as int));
            assert forall|a: int, b: int| 0 <= a < b < ptrs@.len() implies ptrs@[a] != ptrs@[b] by {
                assert(s0.rec(h as int).blocks@[a] != s0.rec(h as int).blocks@[b]);
            }
            assert forall|k: int| 0 <= k < ptrs@.len() implies #[trigger] ptrs@[k] < s0.store.blocks().len() by {
                assert(s0.rec(h as int).blocks@[k] < s0.bitmap@.len());
            }
        }
        proof {
            lemma_empty_needs_none(s0.bs());
        }
        let res = self.write_chunks(&ptrs, data);
        let ghost s1 = *self;
        proof {
            assert forall|g: int| #[trigger] s0.live(g) && g != h implies s1.content(g) == s0.content(g) by {
                assert(s0.rec_ok(g));
                assert forall|k: int| 0 <= k < s0.rec(g).blocks@.len() implies s1.store.blocks()[#[trigger] s0.rec(g).blocks@[k] as int]
                    == s0.store.blocks()[s0.rec(g).blocks@[k] as int] by {
                    let x = s0.rec(g).blocks@[k];
                    assert(x < s0.bitmap@.len());
                    if ptrs@.contains(x) {
                        let t = choose|t: int| 0 <= t < ptrs@.len() && ptrs@[t] == x;
                        assert(s0.rec(h as int).blocks@[t] != s0.rec(g).blocks@[k]);
                    }
                }
                lemma_content_frame(s1.store.blocks(), s0.store.blocks(), s0.rec(g).size as nat, s0.rec(g).blocks@, s0.bs());
            }
        }
        if res.is_err() {
            assert(self.files().dom() =~= s0.files().dom());
            return res;
        }
        self.inodes.set(h, Some(Inode { size: data.len(), blocks: ptrs }));
        proof {
            assert forall|g: int| #[trigger] self.live(g) implies self.rec_ok(g) by {
                assert(s0.live(g));
                assert(s0.rec_ok(g));
            }
            assert forall|h1: int, h2: int, a: int, b: int|
                #![trigger self.rec(h1).blocks@[a], self.rec(h2).blocks@[b]]
                self.live(h1) && self.live(h2) && 0 <= a < self.rec(h1).blocks@.len() && 0 <= b
                    < self.rec(h2).blocks@.len() && (h1 != h2 || a != b) implies self.rec(h1).blocks@[a]
                    != self.rec(h2).blocks@[b] by {
                assert(s0.rec(h1).blocks@[a] != s0.rec(h2).blocks@[b]);
            }
            lemma_content_written(self.store.blocks(), ptrs@, data@, self.bs());
            assert forall|g: int| #[trigger] self.live(g) && g != h implies self.content(g) == s0.content(g) by {
                assert(s0.live(g));
                assert(s1.content(g) == s0.content(g));
            }
            assert(self.files() =~= s0.files().insert(h as int, data@));
        }
        Ok(())
    }

    /// File `h` becomes `data`, written to newly allocated blocks; its old
    /// blocks are released once every write has succeeded.
    #[verifier::rlimit(40)]
    fn rewrite_fresh(&mut self, h: usize, data: &[u8], n: usize) -> (r: Result<(), FsError>)
        requires
            old(self).wf(),
            old(self).live(h as int),
            n == blocks_needed(data@.len(), old(self).bs()),
            n <= BLOCK_PTRS,
            n <= old(self).free_count(),
        ensures
            final(self).wf(),
            final(self).block_len() == old(self).block_len(),
            final(self).store_ok() == old(self).store_ok(),
            old(self).store_ok() || data@.len() == 0 ==> r is Ok,
            r is Ok ==> forall|k: int|
                0 <= k < final(self).blocks_of(h as int).len() ==> final(self).stored()[#[trigger] final(self).blocks_of(h as int)[k] as int] == chunk(data@, k, old(self).block_len()),
            r is Err ==> r == Err::<(), FsError>(FsError::StorageFailure) && final(self).files()
                == old(self).files() && final(self).free_count() == old(self).free_count()
                && final(self).in_use() == old(self).in_use() && final(self).inodes@ == old(self).inodes@,
            r is Ok ==> final(self).files() == old(self).files().insert(h as int, data@)
                && final(self).free_count() + n == old(self).free_count() + old(self).blocks_of(
                h as int,
            ).len(),
    {
        let ghost s0 = *self;
        proof {
            lemma_empty_needs_none(s0.bs());
        }
        let oldp = self.inodes[h].as_ref().unwrap().copy().blocks;
        let v = match self.bitmap.allocate(n) {
            Ok(v) => v,
            Err(e) => {
                return Err(e);
            },
        };
        self.superblock.free_blocks = self.bitmap.free_blocks();
        let ghost s1 = *self;
        proof {
            assert(s0.live(h as int));
            assert(s0.rec_ok(h as int));
            assert forall|g: int| #[trigger] s1.live(g) implies s1.rec_ok(g) by {
                assert(s0.live(g));
                assert(s0.rec_ok(g));
                assert forall|a: int| 0 <= a < s1.rec(g).blocks@.len() implies #[trigger] s1.rec(g).blocks@[a] < s1.bitmap@.len()
                    && s1.bitmap@[s1.rec(g).blocks@[a] as int] by {
                    assert(s0.bitmap@[s0.rec(g).blocks@[a] as int]);
                }
            }
            s1.lemma_disjoint_kept(&s0);
            assert forall|k: int| 0 <= k < v@.len() implies #[trigger] v@[k] < s1.store.blocks().len() by {}
            assert forall|a: int, b: int| 0 <= a < b < v@.len() implies v@[a] != v@[b] by {}
        }
        let res = self.write_chunks(&v, data);
        let ghost s2 = *self;
        proof {
            // No live file has a block among the fresh ones.
            assert forall|g: int, k: int|
                #![trigger s0.rec(g).blocks@[k]]
                s0.live(g) && 0 <= k < s0.rec(g).blocks@.len() implies !v@.contains(s0.rec(g).blocks@[k]) by {
                assert(s0.rec_ok(g));
                let x = s0.rec(g).blocks@[k];
                assert(s0.bitmap@[x as int]);
                if v@.contains(x) {
                    let t = choose|t: int| 0 <= t < v@.len() && v@[t] == x;
                    assert(!s0.bitmap@[v@[t] as int]);
                }
            }
            assert forall|g: int| #[trigger] s0.live(g) implies s2.content(g) == s0.content(g) by {
                assert(s0.rec_ok(g));
                assert forall|k: int| 0 <= k < s0.rec(g).blocks@.len() implies s2.store.blocks()[#[trigger] s0.rec(g).blocks@[k] as int]
                    == s0.store.blocks()[s0.rec(g).blocks@[k] as int] by {
                    assert(!v@.contains(s0.rec(g).blocks@[k]));
                }
                lemma_content_frame(s2.store.blocks(), s0.store.blocks(), s0.rec(g).size as nat, s0.rec(g).blocks@, s0.bs());
            }
        }
        if res.is_err() {
            self.bitmap.release(&v);
            self.superblock.free_blocks = self.bitmap.free_blocks();
            proof {
                assert forall|a: int, b: int| 0 <= a < b < v@.len() implies v@[a] != v@[b] by {}
                assert(all_claimed(s2.bitmap@, v@));
                assert(self.bitmap@ =~= s0.bitmap@) by {
                    assert forall|j: int| 0 <= j < s0.bitmap@.len() implies self.bitmap@[j] == s0.bitmap@[j] by {
                        if v@.contains(j as usize) {
                            let t = choose|t: int| 0 <= t < v@.len() && v@[t] == j as usize;
                            assert(!s0.bitmap@[v@[t] as int]);
                        }
                    }
                }
                assert forall|g: int| #[trigger] self.live(g) implies self.rec_ok(g) by {
                    assert(s0.live(g));
                    assert(s0.rec_ok(g));
                }
                self.lemma_disjoint_kept(&s0);
                assert(self.files() =~= s0.files()) by {
                    assert forall|g: int| #[trigger] self.live(g) implies self.content(g) == s0.content(g) by {
                        assert(s0.live(g));
                assert(s2.content(g) == s0.content(g));
                    }
                }
            }
            return res;
        }
        proof {
            assert forall|a: int, b: int| 0 <= a < b < oldp@.len() implies oldp@[a] != oldp@[b] by {
                assert(s0.rec(h as int).blocks@[a] != s0.rec(h as int).blocks@[b]);
            }
            assert forall|a: int| 0 <= a < oldp@.len() implies oldp@[a] < s2.bitmap@.len() && s2.bitmap@[oldp@[a] as int] by {
                assert(s0.rec(h as int).blocks@[a] == oldp@[a]);
            }
        }
        self.bitmap.release(&oldp);
        self.superblock.free_blocks = self.bitmap.free_blocks();
        self.inodes.set(h, Some(Inode { size: data.len(), blocks: v }));
        proof {
            assert forall|g: int| #[trigger] self.live(g) implies self.rec_ok(g) by {
                assert(s0.live(g));
                assert(s0.rec_ok(g));
                if g == h {
                    assert forall|a: int| 0 <= a < self.rec(g).blocks@.len() implies #[trigger] self.rec(g).blocks@[a] < self.bitmap@.len()
                        && self.bitmap@[self.rec(g).blocks@[a] as int] by {
                        let x = v@[a];
                        assert(v@.contains(x));
                        if oldp@.contains(x) {
                            let t = choose|t: int| 0 <= t < oldp@.len() && oldp@[t] == x;
                            assert(!v@.contains(s0.rec(h as int).blocks@[t]));
                        }
                    }
                } else {
                    assert forall|a: int| 0 <= a < self.rec(g).blocks@.len() implies #[trigger] self.rec(g).blocks@[a] < self.bitmap@.len()
                        && self.bitmap@[self.rec(g).blocks@[a] as int] by {
                        let x = s0.rec(g).blocks@[a];
                        assert(s0.bitmap@[x as int]);
                        if oldp@.contains(x) {
                            let t = choose|t: int| 0 <= t < oldp@.len() && oldp@[t] == x;
                            assert(s0.rec(h as int).blocks@[t] != s0.rec(g).blocks@[a]);
                        }
                    }
                }
            }
            assert forall|h1: int, h2: int, a: int, b: int|
                #![trigger self.rec(h1).blocks@[a], self.rec(h2).blocks@[b]]
                self.live(h1) && self.live(h2) && 0 <= a < self.rec(h1).blocks@.len() && 0 <= b
                    < self.rec(h2).blocks@.len() && (h1 != h2 || a != b) implies self.rec(h1).blocks@[a]
                    != self.rec(h2).blocks@[b] by {
                if h1 == h && h2 == h {
                } else if h1 == h {
                    assert(!v@.contains(s0.rec(h2).blocks@[b]));
                    assert(v@[a] == self.rec(h1).blocks@[a]);
                } else if h2 == h {
                    assert(!v@.contains(s0.rec(h1).blocks@[a]));
                    assert(v@[b] == self.rec(h2).blocks@[b]);
                } else {
                    assert(s0.rec(h1).blocks@[a] != s0.rec(h2).blocks@[b]);
                }
            }
            lemma_content_written(self.store.blocks(), v@, data@, self.bs());
            assert forall|g: int| #[trigger] self.live(g) && g != h implies self.content(g) == s0.content(g) by {
                assert(s0.live(g));
                assert(s2.content(g) == s0.content(g));
            }
            assert(self.files() =~= s0.files().insert(h as int, data@));
        }
        Ok(())
    }

    /// Replaces the bytes of file `h` with `data`. Whenever enough blocks are
    /// free, the data goes to newly allocated blocks and the old ones are
    /// released only once every write has succeeded, so a storage failure
    /// leaves the file as it was. The fresh blocks are claimed before the old
    /// ones are released: a change of block count needs that many free
    /// blocks. With the count unchanged and too few blocks free, the data is
    /// written over the file's own blocks instead.
    pub fn write_file(&mut self, h: usize, data: &[u8]) -> (r: Result<(), FsError>)
        requires
            old(self).wf(),
        ensures
            final(self).wf(),
            final(self).block_len() == old(self).block_len(),
            final(self).files().dom() == old(self).files().dom(),
            r == Err::<(), FsError>(FsError::NotFound) <==> !old(self).files().contains_key(h as int),
            r == Err::<(), FsError>(FsError::FileTooLarge) <==> old(self).files().contains_key(h as int)
                && blocks_needed(data@.len(), old(self).block_len()) > BLOCK_PTRS,
            r == Err::<(), FsError>(FsError::InsufficientSpace) <==> old(self).files().contains_key(h as int)
                && blocks_needed(data@.len(), old(self).block_len()) <= BLOCK_PTRS
                && blocks_needed(data@.len(), old(self).block_len()) != old(self).blocks_of(h as int).len()
                && blocks_needed(data@.len(), old(self).block_len()) > old(self).free_count(),
            r is Err ==> r == Err::<(), FsError>(FsError::NotFound) || r == Err::<(), FsError>(
                FsError::FileTooLarge,
            ) || r == Err::<(), FsError>(FsError::InsufficientSpace) || r == Err::<(), FsError>(
                FsError::StorageFailure,
            ),
            r is Err && r != Err::<(), FsError>(FsError::StorageFailure) ==> *final(self) == *old(self),
            r == Err::<(), FsError>(FsError::StorageFailure) ==> final(self).free_count()
                == old(self).free_count() && final(self).in_use() == old(self).in_use() && forall|g: int|
                #[trigger] old(self).files().contains_key(g) && g != h ==> final(self).files()[g] == old(self).files()[g],
            r == Err::<(), FsError>(FsError::StorageFailure) ==> forall|g: int|
                #[trigger] final(self).blocks_of(g) == old(self).blocks_of(g),
            r == Err::<(), FsError>(FsError::StorageFailure) && blocks_needed(
                data@.len(),
                old(self).block_len(),
            ) <= old(self).free_count() ==> final(self).files() == old(self).files(),
            old(self).store_ok() ==> r != Err::<(), FsError>(FsError::StorageFailure),
            old(self).files().contains_key(h as int) && data@.len() == 0 ==> r is Ok,
            final(self).store_ok() == old(self).store_ok(),
            r is Ok ==> final(self).files() == old(self).files().insert(h as int, data@)
                && final(self).free_count() + blocks_needed(data@.len(), old(self).block_len())
                == old(self).free_count() + old(self).blocks_of(h as int).len(),
            r is Ok ==> forall|k: int|
                0 <= k < final(self).blocks_of(h as int).len() ==> final(self).stored()[#[trigger] final(self).blocks_of(
                    h as int,
                )[k] as int] == chunk(data@, k, old(self).block_len()),
    {
        if h >= self.inodes.len() || self.inodes[h].is_none() {
            return Err(FsError::NotFound);
        }
        let bs = self.superblock.block_size;
        let n = blocks_for(data.len(), bs);
        if n > BLOCK_PTRS {
            return Err(FsError::FileTooLarge);
        }
        let oldn = self.inodes[h].as_ref().unwrap().blocks.len();
        if n <= self.superblock.free_blocks {
            let ghost s0 = *self;
            let r = self.rewrite_fresh(h, data, n);
            assert(self.files().dom() =~= s0.files().dom());
            r
        } else if n == oldn {
            self.rewrite_in_place(h, data)
        } else {
            Err(FsError::InsufficientSpace)
        }
    }

    /// Copies the first `min(buf.len(), size)` bytes of file `h` into `buf`,
    /// block by block in the file's order, and returns how many it copied.
    pub fn read_file(&self, h: usize, buf: &mut [u8]) -> (r: Result<usize, FsError>)
        requires
            self.wf(),
        ensures
            final(buf)@.len() == old(buf)@.len(),
            r == Err::<usize, FsError>(FsError::NotFound) <==> !self.files().contains_key(h as int),
            r is Err ==> r == Err::<usize, FsError>(FsError::NotFound) || r == Err::<usize, FsError>(
                FsError::StorageFailure,
            ),
            self.store_ok() && self.files().contains_key(h as int) ==> r is Ok,
            self.files().contains_key(h as int) && (old(buf)@.len() == 0 || self.files()[h
                as int].len() == 0) ==> r == Ok::<usize, FsError>(0),
            r is Ok ==> {
                let n = r->Ok_0 as int;
                &&& n == if old(buf)@.len() < self.files()[h as int].len() {
                    old(buf)@.len() as int
                } else {
                    self.files()[h as int].len() as int
                }
                &&& final(buf)@ == self.files()[h as int].take(n) + old(buf)@.skip(n)
            },
    {
        if h >= self.inodes.len() || self.inodes[h].is_none() {
            return Err(FsError::NotFound);
        }
        let ino = self.inodes[h].as_ref().unwrap();
        let bs = self.superblock.block_size;
        let n = min_usize(buf.len(), ino.size);
        let ghost content = self.content(h as int);
        proof {
            assert(self.live(h as int));
            assert(self.rec_ok(h as int));
        }
        let mut tmp: Vec<u8> = Vec::new();
        let mut base: usize = 0;
        let mut k: usize = 0;
        while base < n
            invariant
                self.wf(),
                self.live(h as int),
                self.rec_ok(h as int),
                *ino == self.rec(h as int),
                content == self.content(h as int),
                bs == self.bs(),
                n <= ino.size,
                n <= old(buf)@.len(),
                base <= n,
                base < n ==> base == k * bs,
                buf@.len() == old(buf)@.len(),
                forall|i: int| 0 <= i < base ==> buf@[i] == content[i],
                forall|i: int| base <= i < buf@.len() ==> buf@[i] == old(buf)@[i],
            decreases n - base,
        {
            proof {
                lemma_offset_in_block(k as int, 0, bs as int);
                lemma_byte_position(base as int, ino.size as int, bs as int);
            }
            let b = ino.blocks[k];
            proof {
                assert(b < self.store.blocks().len());
            }
            match self.store.read_block(b, &mut tmp) {
                Ok(()) => {},
                Err(_) => {
                    return Err(FsError::StorageFailure);
                },
            }
            let take = min_usize(bs, n - base);
            let mut j: usize = 0;
            while j < take
                invariant
                    j <= take,
                    take <= bs,
                    base + take <= n,
                    base == k * bs,
                    k < ino.blocks@.len(),
                    b == ino.blocks@[k as int],
                    tmp@ == self.store.blocks()[b as int],
                    tmp@.len() == bs,
                    *ino == self.rec(h as int),
                    content == self.content(h as int),
                    bs == self.bs(),
                    bs > 0,
                    n <= ino.size,
                    buf@.len() == old(buf)@.len(),
                    n <= buf@.len(),
                    forall|i: int| 0 <= i < base + j ==> buf@[i] == content[i],
                    forall|i: int| base + j <= i < buf@.len() ==> buf@[i] == old(buf)@[i],
                decreases take - j,
            {
                proof {
                    lemma_offset_in_block(k as int, j as int, bs as int);
                }
                buf[base + j] = tmp[j];
                j = j + 1;
            }
            base = base + take;
            k = k + 1;
            proof {
                if base < n {
                    assert(take == bs);
                    assert(base == k * bs) by (nonlinear_arith)
                        requires
                            base == (k - 1) * bs + bs,
                    ;
                }
            }
        }
        proof {
            assert(self.files()[h as int] == content);
            assert(buf@ =~= content.take(n as int) + old(buf)@.skip(n as int));
        }
        Ok(n)
    }

    /// Frees file `h`: its blocks go back to the allocator and its record
    /// becomes free.
    pub fn delete_file(&mut self, h: usize) -> (r: Result<(), FsError>)
        requires
            old(self).wf(),
        ensures
            final(self).wf(),
            final(self).block_len() == old(self).block_len(),
            final(self).store_ok() == old(self).store_ok(),
            !old(self).files().contains_key(h as int) <==> r == Err::<(), FsError>(FsError::NotFound),
            r is Ok <==> old(self).files().contains_key(h as int),
            r is Err ==> *final(self) == *old(self),
            r is Ok ==> final(self).files() == old(self).files().remove(h as int)
                && final(self).free_count() == old(self).free_count() + old(self).blocks_of(h as int).len()
                && final(self).in_use() == released(old(self).in_use(), old(self).blocks_of(h as int)),
    {
        if h >= self.inodes.len() || self.inodes[h].is_none() {
            return Err(FsError::NotFound);
        }
        let ghost before = *self;
        let ino = self.inodes[h].as_ref().unwrap().copy();
        proof {
            assert(before.live(h as int));
            assert(before.rec_ok(h as int));
            assert forall|a: int, b: int| 0 <= a < b < ino.blocks@.len() implies ino.blocks@[a] != ino.blocks@[b] by {
                assert(before.rec(h as int).blocks@[a] != before.rec(h as int).blocks@[b]);
            }
        }
        self.bitmap.release(&ino.blocks);
        self.superblock.free_blocks = self.bitmap.free_blocks();
        self.inodes.set(h, None);
        proof {
            self.lemma_disjoint_kept(&before);
            assert forall|g: int| #[trigger] self.live(g) implies self.rec_ok(g) by {
                assert(before.live(g) && g != h);
                assert(before.rec_ok(g));
                assert forall|a: int| 0 <= a < self.rec(g).blocks@.len() implies #[trigger] self.rec(g).blocks@[a] < self.bitmap@.len()
                    && self.bitmap@[self.rec(g).blocks@[a] as int] by {
                    let x = self.rec(g).blocks@[a];
                    assert(before.bitmap@[x as int]);
                    if ino.blocks@.contains(x) {
                        let t = choose|t: int| 0 <= t < ino.blocks@.len() && ino.blocks@[t] == x;
                        assert(before.rec(h as int).blocks@[t] != before.rec(g).blocks@[a]);
                    }
                }
            }
            assert(self.files() =~= before.files().remove(h as int));
        }
        Ok(())
    }
}

} // verus!
