//! RamFS: a filesystem kept in memory as a map from inode numbers to inodes.
use vstd::prelude::*;

use std::collections::BTreeMap;

use crate::fs::generic::FileSystemError;
use crate::fs::structures::{
    DirectoryEntry, DirectoryEntryType, FileMode, FileStat, InodePointer, Permissions, mode_bits,
};
use crate::types::{DeviceIdentifier, TimeRepr};

verus! {

broadcast use vstd::laws_cmp::group_laws_cmp;

/// The contents of a RamFS inode: a file's bytes or a directory's entries.
pub enum RamFSFileData {
    FileData(Vec<u8>),
    DirectoryData(Vec<(String, usize)>),
}

/// A RamFS inode: its stat record and its contents.
pub struct RamFSInode {
    pub filestat: FileStat,
    pub file_data: RamFSFileData,
}

/// What a RamFS inode holds: its stat record, whether it is a directory,
/// its bytes and its entries (names and inode numbers).
pub type RamFSInodeView = (FileStat, bool, Seq<u8>, Seq<(Seq<char>, usize)>);

impl View for RamFSInode {
    type V = RamFSInodeView;

    open spec fn view(&self) -> RamFSInodeView {
        match &self.file_data {
            RamFSFileData::FileData(d) => (self.filestat, false, d@, Seq::empty()),
            RamFSFileData::DirectoryData(e) => (
                self.filestat,
                true,
                Seq::empty(),
                Seq::new(e@.len(), |i: int| (e@[i].0@, e@[i].1)),
            ),
        }
    }
}

/// An in-memory filesystem.
pub struct RamFS {
    mount_id: Option<usize>,
    inodes: BTreeMap<usize, RamFSInode>,
    mounted_inodes: Vec<(InodePointer, InodePointer, String)>,
}

/// The stat record RamFS gives its inodes: owned by user and group 1000,
/// one link, empty, in one 4096-byte block, at time 0.
pub open spec fn ramfs_stat(s: FileStat, index: InodePointer, t: DirectoryEntryType) -> bool {
    &&& s.index == index
    &&& s.mode@ == mode_bits(t.spec_bits(), 7, 7, 7)
    &&& s.links == 1
    &&& s.uid == 1000
    &&& s.gid == 1000
    &&& s.special_dev_id == 0
    &&& s.size == 0
    &&& s.blk_size == 4096
    &&& s.blocks_allocated == 1
    &&& s.atime == TimeRepr(0)
    &&& s.mtime == TimeRepr(0)
    &&& s.ctime == TimeRepr(0)
}

impl RamFS {
    /// The inodes by number.
    pub closed spec fn spec_inodes(&self) -> Map<usize, RamFSInodeView> {
        self.inodes@.map_values(|n: RamFSInode| n@)
    }

    /// The identifier the filesystem is mounted under.
    pub closed spec fn spec_mount_id(&self) -> Option<usize> {
        self.mount_id
    }

    /// The filesystems mounted on directories of this one.
    pub closed spec fn mounts(&self) -> Seq<(InodePointer, InodePointer, String)> {
        self.mounted_inodes@
    }

    /// Create a new RamFS Instance
    pub fn new() -> (r: Self)
        ensures
            r.spec_mount_id() is None,
            r.spec_inodes() == Map::<usize, RamFSInodeView>::empty(),
            r.mounts().len() == 0,
    {
        let r = Self { mount_id: None, inodes: BTreeMap::new(), mounted_inodes: Vec::new() };
        assert(r.spec_inodes() =~= Map::<usize, RamFSInodeView>::empty());
        r
    }

    /// Construct an inode within the current device
    pub fn inode(&self, inode: usize) -> (r: Result<InodePointer, FileSystemError>)
        ensures
            match self.spec_mount_id() {
                Some(id) => r == Ok::<_, FileSystemError>(InodePointer { device_id: id, index: inode }),
                None => r == Err::<InodePointer, _>(FileSystemError::UnmountedDevice),
            },
    {
        match self.mount_id {
            Some(mount_id) => Ok(InodePointer { device_id: mount_id, index: inode }),
            None => Err(FileSystemError::UnmountedDevice),
        }
    }

    /// Initialize the filesystem
    pub fn init(&mut self) -> (r: Result<(), FileSystemError>)
        ensures
            r is Ok,
            final(self).spec_mount_id() == old(self).spec_mount_id(),
            final(self).spec_inodes() == old(self).spec_inodes(),
            final(self).mounts() == old(self).mounts(),
    {
        Ok(())
    }

    /// Sync the filesystem
    pub fn sync(&mut self) -> (r: Result<(), FileSystemError>)
        ensures
            r is Ok,
            final(self).spec_mount_id() == old(self).spec_mount_id(),
            final(self).spec_inodes() == old(self).spec_inodes(),
            final(self).mounts() == old(self).mounts(),
    {
        Ok(())
    }

    /// A stat record for inode `index` of type `t`.
    fn stat_for(&self, index: usize, t: DirectoryEntryType) -> (r: Result<FileStat, FileSystemError>)
        ensures
            match self.spec_mount_id() {
                Some(id) => r is Ok && ramfs_stat(r->Ok_0, InodePointer { device_id: id, index }, t),
                None => r == Err::<FileStat, _>(FileSystemError::UnmountedDevice),
            },
    {
        let at = match self.inode(index) {
            Ok(p) => p,
            Err(e) => return Err(e),
        };
        let rwx = Permissions::read_write_execute();
        Ok(
            FileStat {
                index: at,
                mode: FileMode::from_components(t, rwx, rwx, rwx),
                links: 1,
                uid: 1000,
                gid: 1000,
                special_dev_id: 0,
                size: 0,
                blk_size: 4096,
                blocks_allocated: 1,
                atime: TimeRepr(0),
                mtime: TimeRepr(0),
                ctime: TimeRepr(0),
            },
        )
    }

    /// Set the mount_id of the filesystem, and fill it: a root directory
    /// (inode 1) holding the files "hello" (inode 2) and "world" (inode 3).
    pub fn set_mount_id(&mut self, mount_id: DeviceIdentifier) -> (r: Result<(), FileSystemError>)
        ensures
            r is Ok,
            final(self).spec_mount_id() == Some(mount_id),
            final(self).mounts() == old(self).mounts(),
            final(self).spec_inodes().dom() == old(self).spec_inodes().dom().insert(1).insert(2).insert(3),
            forall|k: usize| #[trigger]
                final(self).spec_inodes().contains_key(k) && k != 1 && k != 2 && k != 3 ==> final(self).spec_inodes()[k]
                    == old(self).spec_inodes()[k],
            ({
                let at = |k: usize| InodePointer { device_id: mount_id, index: k };
                let i = final(self).spec_inodes();
                &&& ramfs_stat(i[2].0, at(2), DirectoryEntryType::RegularFile)
                &&& !i[2].1 && i[2].2 == seq![72u8, 101, 108, 108, 111] && i[2].3.len() == 0
                &&& ramfs_stat(i[3].0, at(3), DirectoryEntryType::RegularFile)
                &&& !i[3].1 && i[3].2 == seq![87u8, 111, 114, 108, 100] && i[3].3.len() == 0
                &&& ramfs_stat(i[1].0, at(1), DirectoryEntryType::Directory)
                &&& i[1].1 && i[1].2.len() == 0 && i[1].3 == seq![("hello"@, 2usize), ("world"@, 3usize)]
            }),
    {
        self.mount_id = Some(mount_id);

        let hello = match self.stat_for(2, DirectoryEntryType::RegularFile) {
            Ok(s) => s,
            Err(e) => return Err(e),
        };
        let world = match self.stat_for(3, DirectoryEntryType::RegularFile) {
            Ok(s) => s,
            Err(e) => return Err(e),
        };

        self.inodes.insert(2, RamFSInode { filestat: hello, file_data: RamFSFileData::FileData(vec![72u8, 101, 108, 108, 111]) });
        self.inodes.insert(3, RamFSInode { filestat: world, file_data: RamFSFileData::FileData(vec![87u8, 111, 114, 108, 100]) });

        let directory = match self.stat_for(1, DirectoryEntryType::Directory) {
            Ok(s) => s,
            Err(e) => return Err(e),
        };
        let entries = vec![(String::from_str("hello"), 2usize), (String::from_str("world"), 3usize)];
        let ghost ev = entries@;
        self.inodes.insert(1, RamFSInode { filestat: directory, file_data: RamFSFileData::DirectoryData(entries) });
        proof {
            let i = self.spec_inodes();
            assert(Seq::new(ev.len(), |j: int| (ev[j].0@, ev[j].1)) =~= seq![("hello"@, 2usize), ("world"@, 3usize)]);
            assert(i.dom() =~= old(self).spec_inodes().dom().insert(1).insert(2).insert(3));
        }
        Ok(())
    }

    /// Get the root inode of the filesystem
    pub fn get_root_inode(&self) -> (r: Result<InodePointer, FileSystemError>)
        ensures
            match self.spec_mount_id() {
                Some(id) => r == Ok::<_, FileSystemError>(InodePointer { device_id: id, index: 1 }),
                None => r == Err::<InodePointer, _>(FileSystemError::UnmountedDevice),
            },
    {
        self.inode(1)
    }

    /// Stat the given inode
    pub fn stat_inode(&self, inode: InodePointer) -> (r: Result<FileStat, FileSystemError>)
        ensures
            if self.spec_mount_id() == Some(inode.device_id) {
                if self.spec_inodes().contains_key(inode.index) {
                    r == Ok::<_, FileSystemError>(self.spec_inodes()[inode.index].0)
                } else {
                    r == Err::<FileStat, _>(FileSystemError::BadInode(inode))
                }
            } else {
                r == Err::<FileStat, _>(FileSystemError::UnmountedDevice)
            },
    {
        if self.mount_id == Some(inode.device_id) {
            match self.inodes.get(&inode.index) {
                Some(f) => Ok(f.filestat),
                None => Err(FileSystemError::BadInode(inode)),
            }
        } else {
            Err(FileSystemError::UnmountedDevice)
        }
    }

    /// Mount a filesystem at the given inode
    pub fn mount_fs_at(&mut self, inode: InodePointer, root: InodePointer, name: String) -> (r: Result<(), FileSystemError>)
        ensures
            r is Ok,
            final(self).mounts() == old(self).mounts().push((inode, root, name)),
            final(self).spec_inodes() == old(self).spec_inodes(),
            final(self).spec_mount_id() == old(self).spec_mount_id(),
    {
        self.mounted_inodes.push((inode, root, name));
        Ok(())
    }
}

/// `e` is the entry for child `c` of a directory on device `dev`, typed as
/// the child's stat record says.
pub open spec fn child_entry(e: DirectoryEntry, c: (Seq<char>, usize), dev: DeviceIdentifier, inodes: Map<usize, RamFSInodeView>) -> bool {
    &&& e.index == InodePointer { device_id: dev, index: c.1 }
    &&& e.name@ == c.0
    &&& e.entry_type == inodes[c.1].0.mode.spec_entry_type()
}

impl RamFS {
    /// Get the directory entries from the given inode: one for each entry
    /// of the directory, typed as its inode says.
    pub fn dir_entries(&self, inode: InodePointer) -> (r: Result<Vec<DirectoryEntry>, FileSystemError>)
        ensures
            if self.spec_mount_id() == Some(inode.device_id) {
                if !self.spec_inodes().contains_key(inode.index) {
                    r == Err::<Vec<DirectoryEntry>, _>(FileSystemError::BadInode(inode))
                } else if !self.spec_inodes()[inode.index].1 {
                    r == Err::<Vec<DirectoryEntry>, _>(FileSystemError::InodeIsADirectory(inode))
                } else {
                    let children = self.spec_inodes()[inode.index].3;
                    match r {
                        Ok(v) => {
                            &&& v@.len() == children.len()
                            &&& forall|i: int| 0 <= i < children.len() ==> self.spec_inodes().contains_key(#[trigger] children[i].1)
                            &&& forall|i: int|
                                0 <= i < children.len() ==> child_entry(#[trigger] v@[i], children[i], inode.device_id, self.spec_inodes())
                        },
                        Err(e) => exists|k: int|
                            0 <= k < children.len() && !self.spec_inodes().contains_key(#[trigger] children[k].1) && (forall|
                                i: int,
                            | 0 <= i < k ==> self.spec_inodes().contains_key(#[trigger] children[i].1)) && e
                                == FileSystemError::BadInode(InodePointer { device_id: inode.device_id, index: children[k].1 }),
                    }
                }
            } else {
                r == Err::<Vec<DirectoryEntry>, _>(FileSystemError::UnmountedDevice)
            },
    {
        if self.mount_id != Some(inode.device_id) {
            return Err(FileSystemError::UnmountedDevice);
        }
        match self.inodes.get(&inode.index) {
            None => Err(FileSystemError::BadInode(inode)),
            Some(f) => match &f.file_data {
                RamFSFileData::FileData(_) => Err(FileSystemError::InodeIsADirectory(inode)),
                RamFSFileData::DirectoryData(entries) => {
                    let ghost children = self.spec_inodes()[inode.index].3;
                    let mut result: Vec<DirectoryEntry> = Vec::new();
                    let mut i: usize = 0;
                    while i < entries.len()
                        invariant
                            self.spec_mount_id() == Some(inode.device_id),
                            self.spec_inodes().contains_key(inode.index),
                            self.spec_inodes()[inode.index].1,
                            children == self.spec_inodes()[inode.index].3,
                            children == Seq::new(entries@.len(), |j: int| (entries@[j].0@, entries@[j].1)),
                            i <= entries@.len(),
                            result@.len() == i,
                            forall|j: int| 0 <= j < i ==> self.spec_inodes().contains_key(#[trigger] children[j].1),
                            forall|j: int|
                                0 <= j < i ==> child_entry(#[trigger] result@[j], children[j], inode.device_id, self.spec_inodes()),
                        decreases entries@.len() - i,
                    {
                        let index = entries[i].1;
                        let at = match self.inode(index) {
                            Ok(p) => p,
                            Err(e) => return Err(e),
                        };
                        let s = match self.stat_inode(at) {
                            Ok(s) => s,
                            Err(e) => {
                                proof {
                                    let k = i as int;
                                    assert(children[k].1 == index);
                                    assert(!self.spec_inodes().contains_key(children[k].1));
                                    assert(e == FileSystemError::BadInode(InodePointer { device_id: inode.device_id, index: children[k].1 }));
                                    assert(0 <= k < children.len() && !self.spec_inodes().contains_key(children[k].1) && (forall|
                                        j: int,
                                    | 0 <= j < k ==> self.spec_inodes().contains_key(#[trigger] children[j].1)));
                                }
                                return Err(e);
                            },
                        };
                        let name = entries[i].0.clone();
                        let entry = DirectoryEntry { index: at, name, entry_type: s.mode.entry_type() };
                        let ghost before = result@;
                        result.push(entry);
                        proof {
                            assert(children[i as int] == (entries@[i as int].0@, index));
                            assert forall|j: int| 0 <= j < i + 1 implies child_entry(#[trigger] result@[j], children[j], inode.device_id, self.spec_inodes()) by {
                                if j < i {
                                    assert(result@[j] == before[j]);
                                }
                            }
                        }
                        i = i + 1;
                    }
                    Ok(result)
                },
            },
        }
    }
}

} // verus!
