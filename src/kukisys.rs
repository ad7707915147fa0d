use vstd::prelude::*;
use vstd::string::StringSliceAdditionalSpecFns;
use crate::error::FsError;
use crate::filesystem::{
    FileSystem, blocks_needed, blocks_for, chunk, lemma_fits, lemma_empty_needs_none, BLOCK_PTRS,
    RESERVED_BLOCKS,
};
use crate::bitmap::released;
use crate::path::{split_path, segments, views};
use crate::store::BlockStore;
use crate::tree::{
    Directory, DirectoryEntry, Node, at, listing, handle_at, distinct, insert_at, remove_at,
    list_at, lookup, contains_name, lemma_dir_listed, lemma_parent_listed, lemma_find, find,
    lemma_absent, lemma_distinct_push, lemma_distinct_remove,
    NAME_WIDTH, MAX_ENTRIES,
};

verus! {

/// The segments of `path`.
pub open spec fn path_of(path: &str) -> Seq<Seq<u8>> {
    segments(path.spec_bytes())
}

/// Every name of `ns` fits the name field.
pub open spec fn names_fit(ns: Seq<Seq<u8>>) -> bool {
    forall|i: int| 0 <= i < ns.len() ==> (#[trigger] ns[i]).len() <= NAME_WIDTH
}

/// The file engine: files and directories by path over the metadata table
/// and block allocator of a [`FileSystem`].
pub struct KukiSystem<D: BlockStore> {
    fs: FileSystem<D>,
    root: Directory,
}

impl<D: BlockStore> KukiSystem<D> {
    /// Every file, by path, with its bytes.
    pub closed spec fn files(&self) -> Map<Seq<Seq<u8>>, Seq<u8>> {
        Map::new(
            |p: Seq<Seq<u8>>| handle_at(self.root, p) is Some,
            |p: Seq<Seq<u8>>| self.fs.files()[handle_at(self.root, p)->Some_0 as int],
        )
    }

    /// Every directory, by path; the root is the empty path.
    pub closed spec fn dirs(&self) -> Set<Seq<Seq<u8>>> {
        Set::new(|p: Seq<Seq<u8>>| at(self.root, p) == Some(None::<usize>))
    }

    /// The names in directory `p`, in insertion order, if `p` is one.
    pub closed spec fn listing_of(&self, p: Seq<Seq<u8>>) -> Option<Seq<Seq<u8>>> {
        listing(self.root, p)
    }

    /// Number of free blocks.
    pub closed spec fn free_count(&self) -> nat {
        self.fs.free_count()
    }

    /// Block size in bytes.
    pub closed spec fn block_len(&self) -> nat {
        self.fs.block_len()
    }

    /// The block store never reports a transport error.
    pub closed spec fn store_ok(&self) -> bool {
        self.fs.store_ok()
    }

    /// Whether each block is in use.
    pub closed spec fn in_use(&self) -> Seq<bool> {
        self.fs.in_use()
    }

    /// What every block of the store holds.
    pub closed spec fn stored(&self) -> Seq<Seq<u8>> {
        self.fs.stored()
    }

    /// Every file record is in use.
    pub closed spec fn records_full(&self) -> bool {
        self.fs.records_full()
    }

    /// The blocks of the file at `p`.
    pub closed spec fn blocks_at(&self, p: Seq<Seq<u8>>) -> Seq<usize> {
        self.fs.blocks_of(handle_at(self.root, p)->Some_0 as int)
    }

    pub closed spec fn wf(&self) -> bool {
        &&& self.fs.wf()
        &&& forall|p: Seq<Seq<u8>>|
            #[trigger] handle_at(self.root, p) is Some ==> self.fs.files().contains_key(
                handle_at(self.root, p)->Some_0 as int,
            )
        &&& forall|pa: Seq<Seq<u8>>, pb: Seq<Seq<u8>>|
            #![trigger handle_at(self.root, pa), handle_at(self.root, pb)]
            handle_at(self.root, pa) is Some && handle_at(self.root, pa) == handle_at(self.root, pb)
                ==> pa == pb
        &&& forall|p: Seq<Seq<u8>>|
            #[trigger] listing(self.root, p) is Some ==> distinct(listing(self.root, p)->Some_0)
                && names_fit(listing(self.root, p)->Some_0)
    }

    /// `p` names an entry that a directory could hold: it is not the root
    /// and its parent is a directory.
    pub open spec fn has_parent(&self, p: Seq<Seq<u8>>) -> bool {
        p.len() > 0 && self.dirs().contains(p.drop_last())
    }

    /// A new entry may be added at `p`: its parent is a directory with room
    /// and without an entry of that name, and the name fits.
    pub open spec fn can_add(&self, p: Seq<Seq<u8>>) -> bool {
        &&& self.has_parent(p)
        &&& p.last().len() <= NAME_WIDTH
        &&& !self.listing_of(p.drop_last())->Some_0.contains(p.last())
        &&& self.listing_of(p.drop_last())->Some_0.len() < MAX_ENTRIES
    }

    /// An engine over `store` with an empty root directory.
    pub fn new(store: D) -> (r: Self)
        requires
            store.spec_block_size() > 0,
            forall|i: int|
                0 <= i < store.blocks().len() ==> (#[trigger] store.blocks()[i]).len()
                    == store.spec_block_size(),
        ensures
            r.wf(),
            r.files() == Map::<Seq<Seq<u8>>, Seq<u8>>::empty(),
            r.dirs() == Set::<Seq<Seq<u8>>>::empty().insert(Seq::empty()),
            r.listing_of(Seq::empty()) == Some(Seq::<Seq<u8>>::empty()),
            !r.records_full(),
            r.store_ok() == store.infallible(),
            r.free_count() == if store.blocks().len() < RESERVED_BLOCKS {
                0
            } else {
                store.blocks().len() - RESERVED_BLOCKS
            },
            r.block_len() == store.spec_block_size(),
    {
        let fs = FileSystem::new(store);
        let root = Directory::new();
        let r = KukiSystem { fs, root };
        proof {
            assert(!r.fs.files().contains_key(0));
            assert(crate::tree::names(root.entries@) =~= Seq::<Seq<u8>>::empty());
            assert forall|p: Seq<Seq<u8>>| p.len() > 0 implies #[trigger] at(root, p) is None
                && listing(root, p) is None by {}
            assert(r.files() =~= Map::<Seq<Seq<u8>>, Seq<u8>>::empty());
            assert(r.dirs() =~= Set::<Seq<Seq<u8>>>::empty().insert(Seq::empty())) by {
                assert forall|p: Seq<Seq<u8>>| r.dirs().contains(p) implies p == Seq::<Seq<u8>>::empty() by {
                    if p.len() > 0 {
                        assert(at(root, p) is None);
                    } else {
                        assert(p =~= Seq::<Seq<u8>>::empty());
                    }
                }
            }
            assert forall|p: Seq<Seq<u8>>| #[trigger] listing(root, p) is Some implies distinct(
                listing(root, p)->Some_0,
            ) && names_fit(listing(root, p)->Some_0) by {
                if p.len() > 0 {
                    assert(listing(root, p) is None);
                }
            }
        }
        r
    }

    /// Block size in bytes.
    pub fn block_size(&self) -> (r: usize)
        ensures
            r == self.block_len(),
    {
        self.fs.block_size()
    }

    /// Number of free blocks.
    pub fn free_blocks(&self) -> (r: usize)
        ensures
            r == self.free_count(),
    {
        self.fs.free_blocks()
    }

    /// Whether a file record is free.
    pub fn has_free_record(&self) -> (r: bool)
        requires
            self.wf(),
        ensures
            r == !self.records_full(),
    {
        self.fs.has_free_record()
    }

    /// The block store underneath.
    pub fn store(&self) -> (r: &D)
        ensures
            self.wf() ==> r.spec_block_size() == self.block_len(),
    {
        self.fs.store()
    }

    /// The segments of `path` before its last one, and its last one.
    fn split_parent(path: &str) -> (r: Option<(Vec<Vec<u8>>, Vec<u8>)>)
        ensures
            r is None <==> path_of(path).len() == 0,
            r is Some ==> views(r->Some_0.0@) == path_of(path).drop_last() && r->Some_0.1@ == path_of(
                path,
            ).last() && path_of(path) == views(r->Some_0.0@).push(r->Some_0.1@),
    {
        let mut segs = split_path(path);
        if segs.len() == 0 {
            return None;
        }
        let ghost all = views(segs@);
        let name = segs.pop().unwrap();
        proof {
            assert(views(segs@) =~= all.drop_last());
            assert(all =~= views(segs@).push(name@));
        }
        Some((segs, name))
    }

    /// Checks that an entry `name` can be added to directory `parent`.
    fn check_new_entry(&self, parent: &Vec<Vec<u8>>, name: &Vec<u8>) -> (r: Result<(), FsError>)
        requires
            self.wf(),
        ensures
            r == Err::<(), FsError>(FsError::ParentNotFound) <==> !self.dirs().contains(views(parent@)),
            r == Err::<(), FsError>(FsError::NameTooLong) <==> self.dirs().contains(views(parent@))
                && name@.len() > NAME_WIDTH,
            r == Err::<(), FsError>(FsError::DuplicateName) <==> self.dirs().contains(views(parent@))
                && name@.len() <= NAME_WIDTH && self.listing_of(views(parent@))->Some_0.contains(name@),
            r == Err::<(), FsError>(FsError::NoFreeEntrySlot) <==> self.dirs().contains(views(parent@))
                && name@.len() <= NAME_WIDTH && !self.listing_of(views(parent@))->Some_0.contains(name@)
                && self.listing_of(views(parent@))->Some_0.len() >= MAX_ENTRIES,
            r is Ok <==> self.can_add(views(parent@).push(name@)),
            r is Err ==> r == Err::<(), FsError>(FsError::ParentNotFound) || r == Err::<(), FsError>(
                FsError::NameTooLong,
            ) || r == Err::<(), FsError>(FsError::DuplicateName) || r == Err::<(), FsError>(
                FsError::NoFreeEntrySlot,
            ),
    {
        let ghost pp = views(parent@);
        proof {
            assert(pp.skip(0) =~= pp);
            lemma_dir_listed(self.root, pp);
            assert(pp.push(name@).drop_last() =~= pp);
            assert(pp.push(name@).last() == name@);
        }
        let ns = match list_at(&self.root, parent, 0) {
            None => {
                return Err(FsError::ParentNotFound);
            },
            Some(ns) => ns,
        };
        if name.len() > NAME_WIDTH {
            return Err(FsError::NameTooLong);
        }
        if contains_name(&ns, name) {
            return Err(FsError::DuplicateName);
        }
        if ns.len() >= MAX_ENTRIES {
            return Err(FsError::NoFreeEntrySlot);
        }
        Ok(())
    }

    /// Creates file `path` holding `data`. Every check is made before
    /// anything changes; a storage failure while writing undoes the record.
    #[verifier::rlimit(60)]
    pub fn save(&mut self, path: &str, data: &[u8]) -> (r: Result<(), FsError>)
        requires
            old(self).wf(),
        ensures
            final(self).wf(),
            final(self).block_len() == old(self).block_len(),
            final(self).store_ok() == old(self).store_ok(),
            old(self).store_ok() ==> r != Err::<(), FsError>(FsError::StorageFailure),
            old(self).can_add(path_of(path)) && !old(self).records_full() && data@.len() == 0 ==> r is Ok,
            r == Err::<(), FsError>(FsError::ParentNotFound) <==> !old(self).has_parent(path_of(path)),
            r == Err::<(), FsError>(FsError::NameTooLong) <==> old(self).has_parent(path_of(path))
                && path_of(path).last().len() > NAME_WIDTH,
            r == Err::<(), FsError>(FsError::DuplicateName) <==> old(self).has_parent(path_of(path))
                && path_of(path).last().len() <= NAME_WIDTH && old(self).listing_of(
                path_of(path).drop_last(),
            )->Some_0.contains(path_of(path).last()),
            r == Err::<(), FsError>(FsError::NoFreeEntrySlot) <==> old(self).has_parent(path_of(path))
                && path_of(path).last().len() <= NAME_WIDTH && !old(self).listing_of(
                path_of(path).drop_last(),
            )->Some_0.contains(path_of(path).last()) && old(self).listing_of(
                path_of(path).drop_last(),
            )->Some_0.len() >= MAX_ENTRIES,
            r == Err::<(), FsError>(FsError::NoFreeRecords) <==> old(self).can_add(path_of(path))
                && old(self).records_full(),
            r == Err::<(), FsError>(FsError::FileTooLarge) <==> old(self).can_add(path_of(path))
                && !old(self).records_full() && blocks_needed(data@.len(), old(self).block_len())
                > BLOCK_PTRS,
            r == Err::<(), FsError>(FsError::InsufficientSpace) <==> old(self).can_add(path_of(path))
                && !old(self).records_full() && blocks_needed(data@.len(), old(self).block_len())
                <= BLOCK_PTRS && blocks_needed(data@.len(), old(self).block_len()) > old(self).free_count(),
            r is Err && r != Err::<(), FsError>(FsError::StorageFailure) ==> *final(self) == *old(self),
            r == Err::<(), FsError>(FsError::StorageFailure) ==> final(self).files() == old(self).files()
                && final(self).dirs() == old(self).dirs() && final(self).free_count() == old(self).free_count() && forall|q: Seq<Seq<u8>>|
                #[trigger] final(self).listing_of(q) == old(self).listing_of(q),
            r is Ok ==> {
                &&& final(self).files() == old(self).files().insert(path_of(path), data@)
                &&& final(self).dirs() == old(self).dirs()
                &&& final(self).free_count() + blocks_needed(data@.len(), old(self).block_len())
                    == old(self).free_count()
                &&& forall|k: int|
                    0 <= k < final(self).blocks_at(path_of(path)).len() ==> final(self).stored()[#[trigger] final(self).blocks_at(
                        path_of(path),
                    )[k] as int] == chunk(data@, k, old(self).block_len())
                &&& forall|q: Seq<Seq<u8>>|
                    #[trigger] final(self).listing_of(q) == if q == path_of(path).drop_last() {
                        Some(old(self).listing_of(q)->Some_0.push(path_of(path).last()))
                    } else {
                        old(self).listing_of(q)
                    }
            },
    {
        proof {
            self.fs.lemma_block_len();
            lemma_empty_needs_none(self.fs.block_len());
        }
        let ghost p = path_of(path);
        let (parent, name) = match Self::split_parent(path) {
            None => {
                return Err(FsError::ParentNotFound);
            },
            Some(pn) => pn,
        };
        proof {
            assert(p.drop_last() == views(parent@));
        }
        match self.check_new_entry(&parent, &name) {
            Ok(()) => {},
            Err(e) => {
                return Err(e);
            },
        }
        proof {
            assert(views(parent@).push(name@) == p);
            assert(self.dirs().contains(views(parent@)));
            assert(at(self.root, views(parent@)) == Some(None::<usize>));
        }
        if !self.fs.has_free_record() {
            return Err(FsError::NoFreeRecords);
        }
        let needed = blocks_for(data.len(), self.fs.block_size());
        if needed > BLOCK_PTRS {
            return Err(FsError::FileTooLarge);
        }
        if needed > self.fs.free_blocks() {
            return Err(FsError::InsufficientSpace);
        }
        let ghost s0 = *self;
        let ghost ls = listing(s0.root, views(parent@))->Some_0;
        proof {
            lemma_dir_listed(s0.root, views(parent@));
            lemma_absent(s0.root, views(parent@), name@);
        }
        let h = match self.fs.create_file() {
            Ok(h) => h,
            Err(e) => {
                return Err(e);
            },
        };
        let ghost fs1 = self.fs;
        proof {
            fs1.lemma_blocks_of(h as int);
            fs1.lemma_live();
            assert(fs1.files()[h as int].len() == 0);
        }
        match self.fs.write_file(h, data) {
            Ok(()) => {},
            Err(e) => {
                let ghost fs2 = self.fs;
                proof {
                    fs2.lemma_live();
                    assert(fs2.files().contains_key(h as int));
                }
                let _ = self.fs.delete_file(h);
                proof {
                    assert(e == FsError::StorageFailure);
                    assert(fs2.blocks_of(h as int) == fs1.blocks_of(h as int));
                    s0.fs.lemma_live();
                    fs1.lemma_live();
                    assert(fs2.files().dom() == fs1.files().dom());
                    assert(self.fs.files() =~= s0.fs.files()) by {
                        assert forall|g: int| #[trigger] self.fs.files().contains_key(g) implies s0.fs.files().contains_key(g)
                            && self.fs.files()[g] == s0.fs.files()[g] by {
                            assert(fs2.files().contains_key(g) && g != h);
                            assert(fs2.files().dom().contains(g));
                            assert(fs1.files().dom().contains(g));
                            assert(s0.fs.files().contains_key(g));
                        }
                        assert forall|g: int| #[trigger] s0.fs.files().contains_key(g) implies self.fs.files().contains_key(g) by {
                            assert(fs1.files().contains_key(g));
                            assert(g != h);
                        }
                    }
                    assert forall|q: Seq<Seq<u8>>| #[trigger] handle_at(self.root, q) is Some implies self.fs.files().contains_key(
                        handle_at(self.root, q)->Some_0 as int,
                    ) by {
                        assert(s0.fs.files().contains_key(handle_at(s0.root, q)->Some_0 as int));
                    }
                    assert(self.files() =~= s0.files()) by {
                        assert forall|q: Seq<Seq<u8>>| #[trigger] self.files().contains_key(q) implies self.files()[q]
                            == s0.files()[q] by {
                            assert(s0.fs.files().contains_key(handle_at(s0.root, q)->Some_0 as int));
                        }
                    }
                    assert(self.dirs() =~= s0.dirs());
                }
                return Err(e);
            },
        }
        let ghost fs2 = self.fs;
        proof {
            assert(views(parent@).skip(0) =~= views(parent@));
            s0.fs.lemma_live();
            assert(fs2.files().dom() == fs1.files().dom());
        }
        insert_at(&mut self.root, &parent, 0, DirectoryEntry { name, node: Node::File(h) });
        proof {
            let pp = views(parent@);
            assert(pp.skip(0) =~= pp);
            assert(pp.push(name@) == p);
            assert forall|q: Seq<Seq<u8>>| #[trigger] handle_at(self.root, q) == if q == p {
                Some(h)
            } else {
                handle_at(s0.root, q)
            } by {}
            assert forall|q: Seq<Seq<u8>>| #[trigger] handle_at(s0.root, q) is Some implies handle_at(s0.root, q)->Some_0
                != h && fs2.files().contains_key(handle_at(s0.root, q)->Some_0 as int) && fs2.files()[handle_at(
                s0.root,
                q,
            )->Some_0 as int] == s0.fs.files()[handle_at(s0.root, q)->Some_0 as int] by {
                let g = handle_at(s0.root, q)->Some_0 as int;
                assert(s0.fs.files().contains_key(g));
                assert(fs1.files().contains_key(g));
            }
            assert forall|q: Seq<Seq<u8>>| #[trigger] handle_at(self.root, q) is Some implies self.fs.files().contains_key(
                handle_at(self.root, q)->Some_0 as int,
            ) by {
                if q != p {
                    assert(handle_at(s0.root, q) is Some);
                }
                assert(fs2.files().contains_key(handle_at(self.root, q)->Some_0 as int));
            }
            assert forall|pa: Seq<Seq<u8>>, pb: Seq<Seq<u8>>|
                #![trigger handle_at(self.root, pa), handle_at(self.root, pb)]
                handle_at(self.root, pa) is Some && handle_at(self.root, pa) == handle_at(self.root, pb)
                    implies pa == pb by {
                if pa != p && pb != p {
                    assert(handle_at(s0.root, pa) == handle_at(s0.root, pb));
                } else if pa == p && pb != p {
                    assert(handle_at(s0.root, pb) is Some);
                } else if pb == p && pa != p {
                    assert(handle_at(s0.root, pa) is Some);
                }
            }
            assert forall|q: Seq<Seq<u8>>| #[trigger] listing(self.root, q) is Some implies distinct(
                listing(self.root, q)->Some_0,
            ) && names_fit(listing(self.root, q)->Some_0) by {
                if q == pp {
                    lemma_distinct_push(ls, name@);
                    assert(listing(s0.root, q) is Some);
                    assert forall|i: int| 0 <= i < ls.len() + 1 implies (#[trigger] ls.push(name@)[i]).len()
                        <= NAME_WIDTH by {
                        if i < ls.len() {
                            assert(ls.push(name@)[i] == ls[i]);
                        }
                    }
                } else {
                    assert(listing(s0.root, q) is Some);
                }
            }
            assert(self.files() =~= s0.files().insert(p, data@));
            assert(self.dirs() =~= s0.dirs()) by {
                assert(at(s0.root, p) is None);
            }
        }
        Ok(())
    }

    /// Copies the first `min(buf.len(), size)` bytes of file `path` into
    /// `buf` and returns how many it copied.
    pub fn open(&self, path: &str, buf: &mut [u8]) -> (r: Result<usize, FsError>)
        requires
            self.wf(),
        ensures
            final(buf)@.len() == old(buf)@.len(),
            r == Err::<usize, FsError>(FsError::NotFound) <==> !self.files().contains_key(path_of(path)),
            self.store_ok() && self.files().contains_key(path_of(path)) ==> r is Ok,
            self.files().contains_key(path_of(path)) && (old(buf)@.len() == 0
                || self.files()[path_of(path)].len() == 0) ==> r == Ok::<usize, FsError>(0),
            r is Err ==> r == Err::<usize, FsError>(FsError::NotFound) || r == Err::<usize, FsError>(
                FsError::StorageFailure,
            ),
            r is Ok ==> {
                let n = r->Ok_0 as int;
                let f = self.files()[path_of(path)];
                &&& n == if old(buf)@.len() < f.len() {
                    old(buf)@.len() as int
                } else {
                    f.len() as int
                }
                &&& final(buf)@ == f.take(n) + old(buf)@.skip(n)
            },
    {
        let segs = split_path(path);
        proof {
            assert(views(segs@).skip(0) =~= views(segs@));
        }
        match lookup(&self.root, &segs, 0) {
            Some(Some(h)) => {
                proof {
                    assert(handle_at(self.root, views(segs@)) == Some(h));
                    assert(self.fs.files().contains_key(h as int));
                    self.fs.lemma_live();
                }
                self.fs.read_file(h, buf)
            },
            _ => Err(FsError::NotFound),
        }
    }

    /// Replaces the bytes of file `path` with `data`. The new blocks are
    /// claimed before the old ones are released, so a change of block count
    /// needs that many free blocks, and when they are there a storage
    /// failure leaves the file as it was.
    pub fn write(&mut self, path: &str, data: &[u8]) -> (r: Result<(), FsError>)
        requires
            old(self).wf(),
        ensures
            final(self).wf(),
            final(self).dirs() == old(self).dirs(),
            final(self).files().dom() == old(self).files().dom(),
            final(self).block_len() == old(self).block_len(),
            final(self).store_ok() == old(self).store_ok(),
            old(self).store_ok() ==> r != Err::<(), FsError>(FsError::StorageFailure),
            old(self).files().contains_key(path_of(path)) && data@.len() == 0 ==> r is Ok,
            r == Err::<(), FsError>(FsError::NotFound) <==> !old(self).files().contains_key(path_of(path)),
            r == Err::<(), FsError>(FsError::FileTooLarge) <==> old(self).files().contains_key(
                path_of(path),
            ) && blocks_needed(data@.len(), old(self).block_len()) > BLOCK_PTRS,
            r == Err::<(), FsError>(FsError::InsufficientSpace) <==> old(self).files().contains_key(
                path_of(path),
            ) && blocks_needed(data@.len(), old(self).block_len()) <= BLOCK_PTRS && blocks_needed(
                data@.len(),
                old(self).block_len(),
            ) != blocks_needed(old(self).files()[path_of(path)].len(), old(self).block_len())
                && blocks_needed(data@.len(), old(self).block_len()) > old(self).free_count(),
            r is Err ==> r == Err::<(), FsError>(FsError::NotFound) || r == Err::<(), FsError>(
                FsError::FileTooLarge,
            ) || r == Err::<(), FsError>(FsError::InsufficientSpace) || r == Err::<(), FsError>(
                FsError::StorageFailure,
            ),
            r is Err && r != Err::<(), FsError>(FsError::StorageFailure) ==> *final(self) == *old(self),
            r == Err::<(), FsError>(FsError::StorageFailure) ==> final(self).free_count() == old(self).free_count() && forall|q: Seq<Seq<u8>>|
                #[trigger] old(self).files().contains_key(q) && q != path_of(path) ==> final(self).files()[q] == old(self).files()[q],
            r == Err::<(), FsError>(FsError::StorageFailure) && blocks_needed(
                data@.len(),
                old(self).block_len(),
            ) <= old(self).free_count() ==> final(self).files() == old(self).files(),
            r is Ok ==> final(self).files() == old(self).files().insert(path_of(path), data@)
                && final(self).free_count() + blocks_needed(data@.len(), old(self).block_len())
                == old(self).free_count() + blocks_needed(
                old(self).files()[path_of(path)].len(),
                old(self).block_len(),
            ),
            r is Ok ==> forall|k: int|
                0 <= k < final(self).blocks_at(path_of(path)).len() ==> final(self).stored()[#[trigger] final(self).blocks_at(
                    path_of(path),
                )[k] as int] == chunk(data@, k, old(self).block_len()),
    {
        let segs = split_path(path);
        let ghost p = views(segs@);
        proof {
            assert(p.skip(0) =~= p);
        }
        let h = match lookup(&self.root, &segs, 0) {
            Some(Some(h)) => h,
            _ => {
                return Err(FsError::NotFound);
            },
        };
        let ghost s0 = *self;
        proof {
            assert(handle_at(s0.root, p) == Some(h));
            assert(s0.fs.files().contains_key(h as int));
            s0.fs.lemma_blocks_of(h as int);
            s0.fs.lemma_live();
        }
        let r = self.fs.write_file(h, data);
        proof {
            assert forall|q: Seq<Seq<u8>>| #[trigger] handle_at(self.root, q) is Some && q != p implies handle_at(
                self.root,
                q,
            )->Some_0 != h by {
                assert(handle_at(s0.root, q) != handle_at(s0.root, p));
            }
            assert forall|q: Seq<Seq<u8>>| #[trigger] handle_at(self.root, q) is Some implies self.fs.files().contains_key(
                handle_at(self.root, q)->Some_0 as int,
            ) by {
                assert(s0.fs.files().contains_key(handle_at(s0.root, q)->Some_0 as int));
            }
            assert(self.files().dom() =~= s0.files().dom());
            assert(self.dirs() =~= s0.dirs());
            if r is Ok {
                assert forall|q: Seq<Seq<u8>>| #[trigger] self.files().contains_key(q) && q != p implies self.files()[q]
                    == s0.files()[q] by {
                    assert(s0.fs.files().contains_key(handle_at(s0.root, q)->Some_0 as int));
                }
                assert(self.files() =~= s0.files().insert(p, data@));
            }
            if r == Err::<(), FsError>(FsError::StorageFailure) {
                assert forall|q: Seq<Seq<u8>>| #[trigger] s0.files().contains_key(q) && q != p implies self.files()[q]
                    == s0.files()[q] by {
                    assert(s0.fs.files().contains_key(handle_at(s0.root, q)->Some_0 as int));
                }
            }
        }
        r
    }

    /// Removes file `path`: its entry leaves its directory, its blocks go back
    /// to the allocator and its record becomes free. Directories are not
    /// removed.
    pub fn delete(&mut self, path: &str) -> (r: Result<(), FsError>)
        requires
            old(self).wf(),
        ensures
            final(self).wf(),
            r == Err::<(), FsError>(FsError::NotFound) <==> !old(self).files().contains_key(path_of(path)),
            r is Err ==> r == Err::<(), FsError>(FsError::NotFound) && *final(self) == *old(self),
            final(self).block_len() == old(self).block_len(),
            final(self).store_ok() == old(self).store_ok(),
            r is Ok ==> {
                &&& final(self).files() == old(self).files().remove(path_of(path))
                &&& final(self).dirs() == old(self).dirs()
                &&& !final(self).records_full()
                &&& final(self).in_use() == released(old(self).in_use(), old(self).blocks_at(path_of(path)))
                &&& final(self).free_count() == old(self).free_count() + blocks_needed(
                    old(self).files()[path_of(path)].len(),
                    old(self).block_len(),
                )
                &&& forall|q: Seq<Seq<u8>>|
                    #[trigger] final(self).listing_of(q) == if q == path_of(path).drop_last() {
                        Some(
                            old(self).listing_of(q)->Some_0.remove(
                                find(old(self).listing_of(q)->Some_0, path_of(path).last()),
                            ),
                        )
                    } else {
                        old(self).listing_of(q)
                    }
            },
    {
        let ghost p = path_of(path);
        let (parent, name) = match Self::split_parent(path) {
            None => {
                proof {
                    assert(p =~= Seq::<Seq<u8>>::empty());
                }
                return Err(FsError::NotFound);
            },
            Some(pn) => pn,
        };
        let mut full = crate::path::clone_segments(&parent);
        let ghost pp = views(parent@);
        full.push(crate::store::copy_bytes(&name));
        proof {
            assert(views(full@) =~= pp.push(name@));
            assert(views(full@).skip(0) =~= views(full@));
            assert(pp.skip(0) =~= pp);
        }
        let h = match lookup(&self.root, &full, 0) {
            Some(Some(h)) => h,
            _ => {
                return Err(FsError::NotFound);
            },
        };
        let ghost s0 = *self;
        proof {
            assert(handle_at(s0.root, p) == Some(h));
            lemma_parent_listed(s0.root, pp, name@);
            assert(s0.fs.files().contains_key(h as int));
            s0.fs.lemma_blocks_of(h as int);
            s0.fs.lemma_live();
        }
        let h2 = remove_at(&mut self.root, &parent, 0, &name);
        let _ = self.fs.delete_file(h2);
        proof {
            assert(h2 == h);
            assert(s0.files()[p] == s0.fs.files()[h as int]);
            assert(self.fs.free_count() == s0.fs.free_count() + s0.fs.blocks_of(h as int).len());
            assert forall|q: Seq<Seq<u8>>| #[trigger] handle_at(self.root, q) == if q == p {
                None
            } else {
                handle_at(s0.root, q)
            } by {}
            assert forall|q: Seq<Seq<u8>>| #[trigger] handle_at(self.root, q) is Some implies handle_at(
                self.root,
                q,
            )->Some_0 != h && self.fs.files().contains_key(handle_at(self.root, q)->Some_0 as int) by {
                assert(handle_at(s0.root, q) != handle_at(s0.root, p));
                assert(s0.fs.files().contains_key(handle_at(s0.root, q)->Some_0 as int));
            }
            assert forall|pa: Seq<Seq<u8>>, pb: Seq<Seq<u8>>|
                #![trigger handle_at(self.root, pa), handle_at(self.root, pb)]
                handle_at(self.root, pa) is Some && handle_at(self.root, pa) == handle_at(self.root, pb)
                    implies pa == pb by {
                assert(handle_at(s0.root, pa) == handle_at(s0.root, pb));
            }
            assert forall|q: Seq<Seq<u8>>| #[trigger] listing(self.root, q) is Some implies distinct(
                listing(self.root, q)->Some_0,
            ) && names_fit(listing(self.root, q)->Some_0) by {
                assert(listing(s0.root, q) is Some);
                if q == pp {
                    let ls = listing(s0.root, pp)->Some_0;
                    lemma_find(ls, name@);
                    assert(at(s0.root, pp.push(name@)) is Some);
                    if find(ls, name@) < 0 {
                        lemma_absent(s0.root, pp, name@);
                    }
                    let k = find(ls, name@);
                    lemma_distinct_remove(ls, k);
                    assert forall|i: int| 0 <= i < ls.remove(k).len() implies (#[trigger] ls.remove(k)[i]).len()
                        <= NAME_WIDTH by {
                        if i < k {
                            assert(ls.remove(k)[i] == ls[i]);
                        } else {
                            assert(ls.remove(k)[i] == ls[i + 1]);
                        }
                    }
                }
            }
            assert forall|q: Seq<Seq<u8>>| #[trigger] self.files().contains_key(q) implies self.files()[q]
                == s0.files()[q] by {
                assert(handle_at(s0.root, q) != handle_at(s0.root, p));
            }
            assert(self.files() =~= s0.files().remove(p));
            assert(self.dirs() =~= s0.dirs());
            s0.fs.lemma_live();
            assert(s0.fs.files().contains_key(h as int));
            assert(0 <= h < crate::filesystem::MAX_FILES);
            assert(!self.fs.files().contains_key(h as int));
            assert(!self.fs.records_full());
        }
        Ok(())
    }

    /// Creates an empty directory at `path`.
    pub fn make_dir(&mut self, path: &str) -> (r: Result<(), FsError>)
        requires
            old(self).wf(),
        ensures
            final(self).wf(),
            r == Err::<(), FsError>(FsError::ParentNotFound) <==> !old(self).has_parent(path_of(path)),
            r == Err::<(), FsError>(FsError::NameTooLong) <==> old(self).has_parent(path_of(path))
                && path_of(path).last().len() > NAME_WIDTH,
            r == Err::<(), FsError>(FsError::DuplicateName) <==> old(self).has_parent(path_of(path))
                && path_of(path).last().len() <= NAME_WIDTH && old(self).listing_of(
                path_of(path).drop_last(),
            )->Some_0.contains(path_of(path).last()),
            r == Err::<(), FsError>(FsError::NoFreeEntrySlot) <==> old(self).has_parent(path_of(path))
                && path_of(path).last().len() <= NAME_WIDTH && !old(self).listing_of(
                path_of(path).drop_last(),
            )->Some_0.contains(path_of(path).last()) && old(self).listing_of(
                path_of(path).drop_last(),
            )->Some_0.len() >= MAX_ENTRIES,
            r is Ok <==> old(self).can_add(path_of(path)),
            r is Err ==> *final(self) == *old(self),
            final(self).block_len() == old(self).block_len(),
            final(self).store_ok() == old(self).store_ok(),
            r is Ok ==> {
                &&& final(self).dirs() == old(self).dirs().insert(path_of(path))
                &&& final(self).files() == old(self).files()
                &&& final(self).free_count() == old(self).free_count()
                &&& forall|q: Seq<Seq<u8>>|
                    #[trigger] final(self).listing_of(q) == if q == path_of(path).drop_last() {
                        Some(old(self).listing_of(q)->Some_0.push(path_of(path).last()))
                    } else if q == path_of(path) {
                        Some(Seq::<Seq<u8>>::empty())
                    } else {
                        old(self).listing_of(q)
                    }
            },
    {
        let ghost p = path_of(path);
        let (parent, name) = match Self::split_parent(path) {
            None => {
                return Err(FsError::ParentNotFound);
            },
            Some(pn) => pn,
        };
        match self.check_new_entry(&parent, &name) {
            Ok(()) => {},
            Err(e) => {
                return Err(e);
            },
        }
        proof {
            assert(views(parent@).push(name@) == p);
            assert(self.dirs().contains(views(parent@)));
            assert(at(self.root, views(parent@)) == Some(None::<usize>));
        }
        let ghost s0 = *self;
        let ghost pp = views(parent@);
        let ghost ls = listing(s0.root, pp)->Some_0;
        proof {
            lemma_dir_listed(s0.root, pp);
            lemma_absent(s0.root, pp, name@);
        }
        proof {
            assert(pp.skip(0) =~= pp);
        }
        insert_at(&mut self.root, &parent, 0, DirectoryEntry { name, node: Node::Dir(Directory::new()) });
        proof {
            assert(pp.skip(0) =~= pp);
            assert(pp.push(name@) == p);
            assert forall|q: Seq<Seq<u8>>| #[trigger] handle_at(self.root, q) == handle_at(s0.root, q) by {}
            assert forall|q: Seq<Seq<u8>>| #[trigger] listing(self.root, q) is Some implies distinct(
                listing(self.root, q)->Some_0,
            ) && names_fit(listing(self.root, q)->Some_0) by {
                if q == pp {
                    lemma_distinct_push(ls, name@);
                    assert forall|i: int| 0 <= i < ls.len() + 1 implies (#[trigger] ls.push(name@)[i]).len()
                        <= NAME_WIDTH by {
                        if i < ls.len() {
                            assert(ls.push(name@)[i] == ls[i]);
                        }
                    }
                } else if q != p {
                    assert(listing(s0.root, q) is Some);
                }
            }
            assert forall|pa: Seq<Seq<u8>>, pb: Seq<Seq<u8>>|
                #![trigger handle_at(self.root, pa), handle_at(self.root, pb)]
                handle_at(self.root, pa) is Some && handle_at(self.root, pa) == handle_at(self.root, pb)
                    implies pa == pb by {
                assert(handle_at(s0.root, pa) == handle_at(s0.root, pb));
            }
            assert(self.files() =~= s0.files());
            assert(self.dirs() =~= s0.dirs().insert(p));
        }
        Ok(())
    }

    /// No block is referenced by two files, nor twice by one, and every
    /// block a file references is marked in use.
    pub proof fn lemma_no_double_allocation(&self)
        requires
            self.wf(),
        ensures
            forall|pa: Seq<Seq<u8>>, pb: Seq<Seq<u8>>, a: int, b: int|
                #![trigger self.blocks_at(pa)[a], self.blocks_at(pb)[b]]
                self.files().contains_key(pa) && self.files().contains_key(pb) && 0 <= a
                    < self.blocks_at(pa).len() && 0 <= b < self.blocks_at(pb).len() && (pa != pb || a
                    != b) ==> self.blocks_at(pa)[a] != self.blocks_at(pb)[b],
            forall|p: Seq<Seq<u8>>, a: int|
                #![trigger self.blocks_at(p)[a]]
                self.files().contains_key(p) && 0 <= a < self.blocks_at(p).len() ==> self.blocks_at(p)[a]
                    >= RESERVED_BLOCKS && self.in_use()[self.blocks_at(p)[a] as int],
            forall|i: int| 0 <= i < RESERVED_BLOCKS && i < self.in_use().len() ==> self.in_use()[i],
    {
        self.fs.lemma_no_shared_blocks();
        self.fs.lemma_live();
        assert forall|pa: Seq<Seq<u8>>, pb: Seq<Seq<u8>>, a: int, b: int|
            #![trigger self.blocks_at(pa)[a], self.blocks_at(pb)[b]]
            self.files().contains_key(pa) && self.files().contains_key(pb) && 0 <= a
                < self.blocks_at(pa).len() && 0 <= b < self.blocks_at(pb).len() && (pa != pb || a != b)
                implies self.blocks_at(pa)[a] != self.blocks_at(pb)[b] by {
            let h1 = handle_at(self.root, pa)->Some_0 as int;
            let h2 = handle_at(self.root, pb)->Some_0 as int;
            assert(self.fs.files().contains_key(h1));
            assert(self.fs.files().contains_key(h2));
            if pa != pb {
                assert(handle_at(self.root, pa) != handle_at(self.root, pb));
            }
            assert(self.fs.blocks_of(h1)[a] != self.fs.blocks_of(h2)[b]);
        }
        assert forall|p: Seq<Seq<u8>>, a: int|
            #![trigger self.blocks_at(p)[a]]
            self.files().contains_key(p) && 0 <= a < self.blocks_at(p).len() implies self.blocks_at(p)[a]
                >= RESERVED_BLOCKS && self.in_use()[self.blocks_at(p)[a] as int] by {
            let h = handle_at(self.root, p)->Some_0 as int;
            assert(self.fs.files().contains_key(h));
            assert(self.fs.blocks_of(h)[a] >= RESERVED_BLOCKS);
        }
    }

    /// Every file sits in a directory: its path is not the root and the
    /// path without its last segment names a directory.
    pub proof fn lemma_file_in_dir(&self, p: Seq<Seq<u8>>)
        requires
            self.files().contains_key(p),
        ensures
            p.len() > 0,
            self.dirs().contains(p.drop_last()),
            self.listing_of(p.drop_last())->Some_0.contains(p.last()),
    {
        assert(p.len() > 0);
        let q = p.drop_last();
        assert(q.push(p.last()) =~= p);
        lemma_parent_listed(self.root, q, p.last());
        lemma_dir_listed(self.root, q);
        if !listing(self.root, q)->Some_0.contains(p.last()) {
            lemma_absent(self.root, q, p.last());
        }
    }

    /// Names are unique within every directory, and each fits the name
    /// field.
    pub proof fn lemma_unique_names(&self, p: Seq<Seq<u8>>)
        requires
            self.wf(),
            self.dirs().contains(p),
        ensures
            self.listing_of(p) is Some,
            distinct(self.listing_of(p)->Some_0),
            names_fit(self.listing_of(p)->Some_0),
    {
        lemma_dir_listed(self.root, p);
    }

    /// Data of at most `BLOCK_PTRS * block size` bytes is never too large
    /// for a file, and once it is stored at `p` a read of `p` into a buffer at
    /// least as long copies back exactly that data.
    pub proof fn lemma_round_trip(
        before: &Self,
        after: &Self,
        p: Seq<Seq<u8>>,
        data: Seq<u8>,
        buf_len: nat,
    )
        requires
            before.wf(),
            data.len() <= BLOCK_PTRS * before.block_len(),
            after.files() == before.files().insert(p, data),
            buf_len >= data.len(),
        ensures
            blocks_needed(data.len(), before.block_len()) <= BLOCK_PTRS,
            after.files().contains_key(p),
            (if buf_len < after.files()[p].len() {
                buf_len
            } else {
                after.files()[p].len()
            }) == data.len(),
            after.files()[p].take(data.len() as int) == data,
    {
        before.fs.lemma_block_len();
        lemma_fits(data.len(), before.block_len(), BLOCK_PTRS as nat);
        assert(after.files()[p].take(data.len() as int) =~= data);
    }

    /// The names directly under directory `path`, in insertion order.
    pub fn list(&self, path: &str) -> (r: Result<Vec<Vec<u8>>, FsError>)
        requires
            self.wf(),
        ensures
            r is Ok <==> self.dirs().contains(path_of(path)),
            r is Err ==> r == Err::<Vec<Vec<u8>>, FsError>(FsError::NotFound),
            r is Ok ==> views(r->Ok_0@) == self.listing_of(path_of(path))->Some_0,
    {
        let segs = split_path(path);
        proof {
            assert(views(segs@).skip(0) =~= views(segs@));
            lemma_dir_listed(self.root, views(segs@));
        }
        match list_at(&self.root, &segs, 0) {
            Some(v) => Ok(v),
            None => Err(FsError::NotFound),
        }
    }
}

} // verus!
