//! The filesystem of devices: a root directory holding the display device.
use vstd::prelude::*;

use crate::fs::generic::FileSystemError;
use crate::fs::structures::{DirectoryEntry, DirectoryEntryType, InodePointer};

verus! {

/// Filesystem which gives access to various devices
pub struct DevFilesystem {
    mount_id: Option<usize>,
}

impl DevFilesystem {
    /// The identifier the filesystem is mounted under.
    pub closed spec fn spec_mount_id(&self) -> Option<usize> {
        self.mount_id
    }

    /// Create a new dev filesystem
    pub fn new() -> (r: Self)
        ensures
            r.spec_mount_id() is None,
    {
        Self { mount_id: None }
    }

    /// No initialization is needed.
    pub fn init(&mut self) -> (r: Result<(), FileSystemError>)
        ensures
            r is Ok,
            final(self).spec_mount_id() == old(self).spec_mount_id(),
    {
        Ok(())
    }

    /// Nothing to sync.
    pub fn sync(&mut self) -> (r: Result<(), FileSystemError>)
        ensures
            r is Ok,
            final(self).spec_mount_id() == old(self).spec_mount_id(),
    {
        Ok(())
    }

    /// Set the mount_id of the filesystem
    pub fn set_mount_id(&mut self, mount_id: usize)
        ensures
            final(self).spec_mount_id() == Some(mount_id),
    {
        self.mount_id = Some(mount_id);
    }

    /// Get the index of the root directory of the filesystem
    pub fn get_root_index(&self) -> (r: Result<InodePointer, FileSystemError>)
        ensures
            match self.spec_mount_id() {
                Some(id) => r == Ok::<_, FileSystemError>(InodePointer { device_id: id, index: 1 }),
                None => r == Err::<InodePointer, _>(FileSystemError::UninitializedFilesystem),
            },
    {
        match self.mount_id {
            Some(id) => Ok(InodePointer { device_id: id, index: 1 }),
            None => Err(FileSystemError::UninitializedFilesystem),
        }
    }

    /// Get the directory entries of the given inode: the root (inode 1)
    /// holds itself as "." and "..", and the display device "disp" (inode
    /// 2).
    pub fn get_dir_entries(&self, inode: InodePointer) -> (r: Result<Vec<DirectoryEntry>, FileSystemError>)
        ensures
            if self.spec_mount_id() == Some(inode.device_id) {
                let at = |i: usize| InodePointer { device_id: inode.device_id, index: i };
                if inode.index == 1 {
                    &&& r is Ok
                    &&& r->Ok_0@.len() == 3
                    &&& r->Ok_0@[0].index == at(1) && r->Ok_0@[0].name@ == "."@
                        && r->Ok_0@[0].entry_type == DirectoryEntryType::Directory
                    &&& r->Ok_0@[1].index == at(1) && r->Ok_0@[1].name@ == ".."@
                        && r->Ok_0@[1].entry_type == DirectoryEntryType::Directory
                    &&& r->Ok_0@[2].index == at(2) && r->Ok_0@[2].name@ == "disp"@
                        && r->Ok_0@[2].entry_type == DirectoryEntryType::CharDevice
                } else if inode.index == 2 {
                    r == Err::<Vec<DirectoryEntry>, _>(FileSystemError::InodeIsADirectory(inode))
                } else {
                    r == Err::<Vec<DirectoryEntry>, _>(FileSystemError::BadInode(inode))
                }
            } else {
                r == Err::<Vec<DirectoryEntry>, _>(FileSystemError::UnmountedDevice)
            },
    {
        if self.mount_id != Some(inode.device_id) {
            return Err(FileSystemError::UnmountedDevice);
        }
        if inode.index == 1 {
            let root = InodePointer { device_id: inode.device_id, index: 1 };
            let mut result: Vec<DirectoryEntry> = Vec::new();
            // Construct the loop back and parent entries
            result.push(
                DirectoryEntry { index: root, name: String::from_str("."), entry_type: DirectoryEntryType::Directory },
            );
            result.push(
                DirectoryEntry { index: root, name: String::from_str(".."), entry_type: DirectoryEntryType::Directory },
            );
            // Construct the entry for the display
            result.push(
                DirectoryEntry {
                    index: InodePointer { device_id: inode.device_id, index: 2 },
                    name: String::from_str("disp"),
                    entry_type: DirectoryEntryType::CharDevice,
                },
            );
            Ok(result)
        } else if inode.index == 2 {
            Err(FileSystemError::InodeIsADirectory(inode))
        } else {
            Err(FileSystemError::BadInode(inode))
        }
    }

    /// Read the data of an inode: the root and the display hold none.
    pub fn read_inode(&self, inode: InodePointer) -> (r: Result<Vec<u8>, FileSystemError>)
        ensures
            if self.spec_mount_id() == Some(inode.device_id) {
                if inode.index < 3 {
                    r is Ok && r->Ok_0@.len() == 0
                } else {
                    r == Err::<Vec<u8>, _>(FileSystemError::BadInode(inode))
                }
            } else {
                r == Err::<Vec<u8>, _>(FileSystemError::UnmountedDevice)
            },
    {
        if self.mount_id != Some(inode.device_id) {
            return Err(FileSystemError::UnmountedDevice);
        }
        if inode.index < 3 {
            Ok(Vec::new())
        } else {
            Err(FileSystemError::BadInode(inode))
        }
    }

    /// Write to an inode: the data is dropped.
    pub fn write_inode(&mut self, inode: InodePointer, _data: &[u8]) -> (r: Result<(), FileSystemError>)
        ensures
            final(self).spec_mount_id() == old(self).spec_mount_id(),
            if old(self).spec_mount_id() == Some(inode.device_id) {
                r is Ok
            } else {
                r == Err::<(), _>(FileSystemError::UnmountedDevice)
            },
    {
        if self.mount_id != Some(inode.device_id) {
            return Err(FileSystemError::UnmountedDevice);
        }
        Ok(())
    }
}

} // verus!
