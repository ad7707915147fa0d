use vstd::prelude::*;

verus! {

/// Every way an operation of the engine can fail.
#[derive(Debug, Clone, Copy, PartialEq, Eq, Structural)]
pub enum FsError {
    /// The path or entry does not exist.
    NotFound,
    /// The directory that should hold a new entry does not exist.
    ParentNotFound,
    /// The directory already holds an entry with that name.
    DuplicateName,
    /// The name is longer than the fixed name field.
    NameTooLong,
    /// Every file record is in use.
    NoFreeRecords,
    /// The directory has no room for another entry.
    NoFreeEntrySlot,
    /// The data needs more blocks than one record can point to.
    FileTooLarge,
    /// The allocator has fewer free blocks than the operation needs.
    InsufficientSpace,
    /// The block store reported a transport error.
    StorageFailure,
}

} // verus!
