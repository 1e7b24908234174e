//! The dev filesystem, mounted at /dev/, which gives access to the devices,
//! and the teletype line discipline.
pub mod devices;
pub mod fs;
pub mod tty;
