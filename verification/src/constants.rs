//! Sizes and codes of the on-disk file system.
use vstd::prelude::*;

verus! {

/// Bytes in one device block.
pub const BLOCK_SIZE: usize = 512;

/// Pages an on-disk inode reaches through its indirect block, after its
/// first page.
pub const LIST_SIZE: usize = 16;

/// Bytes in one on-disk inode record.
pub const INODE_SIZE: usize = 32;

/// The type code of a directory.
pub const DIR_TYPE: u64 = 2;

/// The type code of a regular file.
pub const FILE_TYPE: u64 = 1;

/// Open for reading only.
pub const O_RDONLY: u32 = 1;

/// Open for writing only.
pub const O_WRONLY: u32 = 2;

/// Open for reading and writing.
pub const O_RDWR: u32 = 4;

/// Open without blocking.
pub const O_NONBLOCK: u32 = 8;

/// Writes go to the end of the file.
pub const O_APPEND: u32 = 16;

/// Create the file if it does not exist.
pub const O_CREAT: u32 = 32;

/// Bytes in one directory entry: an 8-byte inode number, then the name.
pub const DIR_ENTRY_SIZE: usize = 128;

/// Bytes of a directory entry that hold the name.
pub const NAME_SIZE: usize = 120;

} // verus!
