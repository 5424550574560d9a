//! A small block-based file system: on-disk layout, allocation bitmaps,
//! directory blocks, inode tables, a write-ahead journal, a write-back block
//! cache, the operations of a mounted image and the consistency rules of the
//! file system checker, each with its contract, and the laws that tie the
//! operations together.

pub mod bytes;
pub mod layout;
pub mod bitmap;
pub mod dir;
pub mod dir_laws;
pub mod journal;
pub mod cache;
pub mod inode;
pub mod fs;
pub mod fsck;
pub mod format;
pub mod ops;
pub mod ops_laws;
pub mod fsck_walk;
