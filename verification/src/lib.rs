//! A small block file system: bitmaps, paged inodes, on-disk records and
//! the byte layouts that tie them to a block device.
pub mod bench;
pub mod bitmap;
pub mod constants;
pub mod context;
pub mod device;
pub mod directory;
pub mod disk_inode;
pub mod env;
pub mod file;
pub mod fs;
pub mod inode;
pub mod layout;
pub mod ops;
pub mod spdk;
pub mod utils;
