//! In-memory filesystems.
pub mod inodes;
pub mod ramfs;
