//! Errors of the filesystems.
use vstd::prelude::*;

use super::structures::InodePointer;
use crate::types::DeviceIdentifier;

verus! {

/// Filesystem Error
#[derive(Clone, Copy, Debug, PartialEq, Eq, Structural)]
pub enum FileSystemError {
    MissingRootMount,
    UnableToFindDevice(DeviceIdentifier),
    UnmountedDevice,
    BadInode(InodePointer),
    InodeIsADirectory(InodePointer),
    BadPath,
    UninitializedFilesystem,
    BadFilesystemFormat,
    OutOfSpace,
    PermissionDenied,
}

} // verus!
