//! The Minix3 filesystem driver.
pub mod driver;
pub mod structures;
pub mod inodes;
