//! A small block-based file storage engine: a bitmap block allocator, a
//! fixed-capacity table of file records over a block store, and a directory
//! tree that resolves `/`-separated paths to files. A toy x86 assembler
//! rides along for the console that sits on top.

mod assembler;
mod bitmap;
mod error;
mod filesystem;
mod kukisys;
mod path;
mod store;
mod tree;

pub use assembler::{Assembler, Instruction, Operand, Register};
pub use bitmap::BlockBitmap;
pub use error::FsError;
pub use filesystem::{FileSystem, Inode, SuperBlock, BLOCK_PTRS, MAGIC, MAX_FILES, RESERVED_BLOCKS};
pub use kukisys::KukiSystem;
pub use path::{split_path, SEP};
pub use store::{BlockStore, MemDisk};
pub use tree::{Directory, DirectoryEntry, Node, MAX_ENTRIES, NAME_WIDTH};
