//! The /proc filesystem: a directory for each process, holding the
//! process's command line and memory statistics.
use vstd::prelude::*;

use crate::bytes::push_char;
use crate::fs::generic::FileSystemError;
use crate::fs::structures::{DirectoryEntry, DirectoryEntryType, InodePointer};

verus! {

/// Inode flag of a process directory (the low 16 bits hold the PID).
pub const PROC_INODE_FLAG_PID: usize = 0x10000;
/// Inode flag of a process's command line file.
pub const PROC_INODE_FLAG_PID_CMDLINE: usize = 0x20000;
/// Inode flag of a process's memory statistics file.
pub const PROC_INODE_FLAG_PID_STATM: usize = 0x40000;

/// What the filesystem shows of a process: its PID, its command line and
/// its memory statistics, as text.
pub struct ProcessInfo {
    pub pid: u16,
    pub command_line: Vec<u8>,
    pub mem_stats: Vec<u8>,
}

/// /proc Filesystem Handler
pub struct ProcFilesystem {
    mount_id: Option<usize>,
}

/// The decimal digits of `n`.
pub open spec fn decimal(n: nat) -> Seq<char>
    decreases n,
{
    if n < 10 {
        seq![((48 + n) as u8) as char]
    } else {
        decimal(n / 10).push(((48 + n % 10) as u8) as char)
    }
}

/// Append the decimal digits of `n` to `s`.
fn push_decimal(s: &mut String, n: u16)
    ensures
        final(s)@ == old(s)@ + decimal(n as nat),
    decreases n,
{
    if n >= 10 {
        push_decimal(s, n / 10);
    }
    let d = (48 + n % 10) as u8;
    push_char(s, d as char);
    assert(final(s)@ =~= old(s)@ + decimal(n as nat)) by {
        if n >= 10 {
            assert(decimal(n as nat) == decimal((n / 10) as nat).push(((48 + n % 10) as u8) as char));
        }
    }
}

/// Process `k` of `ps` is the first with PID `pid`.
pub open spec fn first_process(ps: Seq<ProcessInfo>, pid: int, k: int) -> bool {
    &&& 0 <= k < ps.len()
    &&& ps[k].pid == pid
    &&& forall|j: int| 0 <= j < k ==> #[trigger] ps[j].pid != pid
}

/// The position of the first process of `ps` with PID `pid`, if any.
fn find_process(ps: &Vec<ProcessInfo>, pid: u16) -> (r: Option<usize>)
    ensures
        match r {
            Some(k) => first_process(ps@, pid as int, k as int),
            None => forall|j: int| 0 <= j < ps@.len() ==> #[trigger] ps@[j].pid != pid,
        },
{
    let mut k: usize = 0;
    while k < ps.len()
        invariant
            k <= ps@.len(),
            forall|j: int| 0 <= j < k ==> #[trigger] ps@[j].pid != pid,
        decreases ps@.len() - k,
    {
        if ps[k].pid == pid {
            return Some(k);
        }
        k = k + 1;
    }
    None
}

/// `e` is the directory entry with these fields.
pub open spec fn entry_is(e: DirectoryEntry, index: InodePointer, name: Seq<char>, t: DirectoryEntryType) -> bool {
    e.index == index && e.name@ == name && e.entry_type == t
}

/// Inode `i` is a directory of the filesystem: the root or a process's.
pub open spec fn proc_dir(i: usize) -> bool {
    i == 1 || i & PROC_INODE_FLAG_PID > 0
}

impl ProcFilesystem {
    /// The identifier the filesystem is mounted under.
    pub closed spec fn spec_mount_id(&self) -> Option<usize> {
        self.mount_id
    }

    /// Create a new proc filesystem
    pub fn new() -> (r: Self)
        ensures
            r.spec_mount_id() is None,
    {
        Self { mount_id: None }
    }

    /// Initialize the filesystem: nothing needs to be done.
    pub fn init(&mut self) -> (r: Result<(), FileSystemError>)
        ensures
            r is Ok,
            final(self).spec_mount_id() == old(self).spec_mount_id(),
    {
        Ok(())
    }

    /// Sync the filesystem: nothing to sync.
    pub fn sync(&mut self) -> (r: Result<(), FileSystemError>)
        ensures
            r is Ok,
            final(self).spec_mount_id() == old(self).spec_mount_id(),
    {
        Ok(())
    }

    /// Set the mount_id of the filesystem
    pub fn set_mount_id(&mut self, mount_id: usize)
        ensures
            final(self).spec_mount_id() == Some(mount_id),
    {
        self.mount_id = Some(mount_id);
    }

    /// Get the index of the root directory of the filesystem
    pub fn get_root_index(&self) -> (r: Result<InodePointer, FileSystemError>)
        ensures
            match self.spec_mount_id() {
                Some(id) => r == Ok::<_, FileSystemError>(InodePointer { device_id: id, index: 1 }),
                None => r == Err::<InodePointer, _>(FileSystemError::UninitializedFilesystem),
            },
    {
        match self.mount_id {
            Some(id) => Ok(InodePointer { device_id: id, index: 1 }),
            None => Err(FileSystemError::UninitializedFilesystem),
        }
    }

    /// Get the directory entries of a directory: "." and "..", then one
    /// directory for each process (in the root), or the command line and
    /// memory statistics files (in a process's directory, where the process
    /// exists). `processes` is the process list, where there is a process
    /// manager.
    pub fn get_dir_entries(&self, inode: InodePointer, processes: Option<&Vec<ProcessInfo>>) -> (r: Result<Vec<DirectoryEntry>, FileSystemError>)
        ensures
            if self.spec_mount_id() == Some(inode.device_id) {
                if proc_dir(inode.index) {
                    let at = |i: usize| InodePointer { device_id: inode.device_id, index: i };
                    &&& r is Ok
                    &&& r->Ok_0@.len() >= 2
                    &&& entry_is(r->Ok_0@[0], at(1), "."@, DirectoryEntryType::Directory)
                    &&& entry_is(r->Ok_0@[1], at(inode.index), ".."@, DirectoryEntryType::Directory)
                    &&& if inode.index == 1 {
                        match processes {
                            Some(ps) => r->Ok_0@.len() == 2 + ps@.len() && forall|k: int|
                                0 <= k < ps@.len() ==> entry_is(
                                    #[trigger] r->Ok_0@[2 + k],
                                    at(PROC_INODE_FLAG_PID | (ps@[k].pid as usize)),
                                    decimal(ps@[k].pid as nat),
                                    DirectoryEntryType::Directory,
                                ),
                            None => r->Ok_0@.len() == 2,
                        }
                    } else {
                        let pid = inode.index & 0xFFFF;
                        match processes {
                            Some(ps) => if exists|k: int| first_process(ps@, pid as int, k) {
                                &&& r->Ok_0@.len() == 4
                                &&& entry_is(r->Ok_0@[2], at(PROC_INODE_FLAG_PID_CMDLINE | pid), "cmdline"@, DirectoryEntryType::RegularFile)
                                &&& entry_is(r->Ok_0@[3], at(PROC_INODE_FLAG_PID_STATM | pid), "statm"@, DirectoryEntryType::RegularFile)
                            } else {
                                r->Ok_0@.len() == 2
                            },
                            None => r->Ok_0@.len() == 2,
                        }
                    }
                } else if inode.index & !0xFFFFusize > 0 {
                    r == Err::<Vec<DirectoryEntry>, _>(FileSystemError::InodeIsADirectory(inode))
                } else {
                    r == Err::<Vec<DirectoryEntry>, _>(FileSystemError::BadInode(inode))
                }
            } else {
                r == Err::<Vec<DirectoryEntry>, _>(FileSystemError::UnmountedDevice)
            },
    {
        if self.mount_id != Some(inode.device_id) {
            return Err(FileSystemError::UnmountedDevice);
        }
        let mount_id = inode.device_id;
        if inode.index == 1 || inode.index & PROC_INODE_FLAG_PID > 0 {
            let mut result: Vec<DirectoryEntry> = Vec::new();

            // Construct the loop back and parent entries
            result.push(
                DirectoryEntry {
                    index: InodePointer { device_id: mount_id, index: 1 },
                    name: String::from_str("."),
                    entry_type: DirectoryEntryType::Directory,
                },
            );
            result.push(
                DirectoryEntry {
                    index: InodePointer { device_id: mount_id, index: inode.index },
                    name: String::from_str(".."),
                    entry_type: DirectoryEntryType::Directory,
                },
            );

            if inode.index == 1 {
                match processes {
                    Some(ps) => {
                        let mut k: usize = 0;
                        while k < ps.len()
                            invariant
                                k <= ps@.len(),
                                result@.len() == 2 + k,
                                entry_is(result@[0], InodePointer { device_id: mount_id, index: 1 }, "."@, DirectoryEntryType::Directory),
                                entry_is(result@[1], InodePointer { device_id: mount_id, index: inode.index }, ".."@, DirectoryEntryType::Directory),
                                forall|j: int|
                                    0 <= j < k ==> entry_is(
                                        #[trigger] result@[2 + j],
                                        InodePointer { device_id: mount_id, index: PROC_INODE_FLAG_PID | (ps@[j].pid as usize) },
                                        decimal(ps@[j].pid as nat),
                                        DirectoryEntryType::Directory,
                                    ),
                            decreases ps@.len() - k,
                        {
                            let pid = ps[k].pid;
                            let mut name = String::new();
                            push_decimal(&mut name, pid);
                            let ghost before = result@;
                            result.push(
                                DirectoryEntry {
                                    index: InodePointer { device_id: mount_id, index: PROC_INODE_FLAG_PID | (pid as usize) },
                                    name,
                                    entry_type: DirectoryEntryType::Directory,
                                },
                            );
                            proof {
                                assert forall|j: int| 0 <= j < k + 1 implies entry_is(
                                    #[trigger] result@[2 + j],
                                    InodePointer { device_id: mount_id, index: PROC_INODE_FLAG_PID | (ps@[j].pid as usize) },
                                    decimal(ps@[j].pid as nat),
                                    DirectoryEntryType::Directory,
                                ) by {
                                    if j < k {
                                        assert(result@[2 + j] == before[2 + j]);
                                    }
                                }
                            }
                            k = k + 1;
                        }
                    },
                    None => {},
                }
            } else {
                let index = inode.index;
                let pid = index & 0xFFFF;
                proof {
                    lemma_low_half(index);
                }
                match processes {
                    Some(ps) => {
                        match find_process(ps, pid as u16) {
                            Some(k) => {
                                proof {
                                    assert(first_process(ps@, pid as int, k as int));
                                }
                                result.push(
                                    DirectoryEntry {
                                        index: InodePointer { device_id: mount_id, index: PROC_INODE_FLAG_PID_CMDLINE | pid },
                                        name: String::from_str("cmdline"),
                                        entry_type: DirectoryEntryType::RegularFile,
                                    },
                                );
                                result.push(
                                    DirectoryEntry {
                                        index: InodePointer { device_id: mount_id, index: PROC_INODE_FLAG_PID_STATM | pid },
                                        name: String::from_str("statm"),
                                        entry_type: DirectoryEntryType::RegularFile,
                                    },
                                );
                            },
                            None => {
                                proof {
                                    assert forall|k: int| !first_process(ps@, pid as int, k) by {
                                        if 0 <= k < ps@.len() {
                                            assert(ps@[k].pid != (pid as u16));
                                        }
                                    }
                                }
                            },
                        }
                    },
                    None => {},
                }
            }
            Ok(result)
        } else if inode.index & !0xFFFF > 0 {
            Err(FileSystemError::InodeIsADirectory(inode))
        } else {
            Err(FileSystemError::BadInode(inode))
        }
    }
}

/// A copy of the bytes of `v`.
fn copy_bytes(v: &Vec<u8>) -> (r: Vec<u8>)
    ensures
        r@ == v@,
{
    let mut r: Vec<u8> = Vec::new();
    let mut i: usize = 0;
    while i < v.len()
        invariant
            i <= v@.len(),
            r@ == v@.take(i as int),
        decreases v@.len() - i,
    {
        r.push(v[i]);
        i = i + 1;
        assert(r@ =~= v@.take(i as int));
    }
    assert(v@.take(v@.len() as int) =~= v@);
    r
}

impl ProcFilesystem {
    /// Read a file: a process's command line or memory statistics, where the
    /// process exists; nothing for other inodes or without a process
    /// manager.
    pub fn read_inode(&self, inode: InodePointer, processes: Option<&Vec<ProcessInfo>>) -> (r: Result<Vec<u8>, FileSystemError>)
        ensures
            if self.spec_mount_id() == Some(inode.device_id) {
                let pid = inode.index & 0xFFFF;
                let cmdline = inode.index & PROC_INODE_FLAG_PID_CMDLINE > 0;
                let statm = inode.index & PROC_INODE_FLAG_PID_STATM > 0;
                if cmdline || statm {
                    match processes {
                        Some(ps) => if exists|k: int| first_process(ps@, pid as int, k) {
                            let k = choose|k: int| first_process(ps@, pid as int, k);
                            r is Ok && r->Ok_0@ == if cmdline { ps@[k].command_line@ } else { ps@[k].mem_stats@ }
                        } else {
                            r == Err::<Vec<u8>, _>(FileSystemError::BadInode(inode))
                        },
                        None => r is Ok && r->Ok_0@.len() == 0,
                    }
                } else {
                    r is Ok && r->Ok_0@.len() == 0
                }
            } else {
                r == Err::<Vec<u8>, _>(FileSystemError::UnmountedDevice)
            },
    {
        if self.mount_id != Some(inode.device_id) {
            return Err(FileSystemError::UnmountedDevice);
        }
        let index = inode.index;
        let pid = index & 0xFFFF;
        proof {
            lemma_low_half(index);
        }
        let cmdline = index & PROC_INODE_FLAG_PID_CMDLINE > 0;
        let statm = index & PROC_INODE_FLAG_PID_STATM > 0;
        if cmdline || statm {
            match processes {
                Some(ps) => match find_process(ps, pid as u16) {
                    Some(k) => {
                        proof {
                            assert forall|c: int| first_process(ps@, pid as int, c) implies c == k by {
                                if c < k {
                                    assert(ps@[c].pid != pid as u16);
                                } else if c > k {
                                    assert(ps@[k as int].pid != pid as u16);
                                }
                            }
                        }
                        if cmdline {
                            Ok(copy_bytes(&ps[k].command_line))
                        } else {
                            Ok(copy_bytes(&ps[k].mem_stats))
                        }
                    },
                    None => {
                        proof {
                            assert forall|c: int| !first_process(ps@, pid as int, c) by {
                                if 0 <= c < ps@.len() {
                                    assert(ps@[c].pid != (pid as u16));
                                }
                            }
                        }
                        Err(FileSystemError::BadInode(inode))
                    },
                },
                None => Ok(Vec::new()),
            }
        } else {
            Ok(Vec::new())
        }
    }

    /// Write to a file: the data is dropped.
    pub fn write_inode(&mut self, inode: InodePointer, _data: &[u8]) -> (r: Result<(), FileSystemError>)
        ensures
            final(self).spec_mount_id() == old(self).spec_mount_id(),
            if old(self).spec_mount_id() == Some(inode.device_id) {
                r is Ok
            } else {
                r == Err::<(), _>(FileSystemError::UnmountedDevice)
            },
    {
        if self.mount_id == Some(inode.device_id) {
            Ok(())
        } else {
            Err(FileSystemError::UnmountedDevice)
        }
    }

    /// Files cannot be created here.
    pub fn create_file(&mut self, _inode: InodePointer, _name: String) -> (r: Result<InodePointer, FileSystemError>)
        ensures
            r == Err::<InodePointer, _>(FileSystemError::PermissionDenied),
            final(self).spec_mount_id() == old(self).spec_mount_id(),
    {
        Err(FileSystemError::PermissionDenied)
    }

    /// Directories cannot be created here.
    pub fn create_directory(&mut self, _inode: InodePointer, _name: String) -> (r: Result<InodePointer, FileSystemError>)
        ensures
            r == Err::<InodePointer, _>(FileSystemError::PermissionDenied),
            final(self).spec_mount_id() == old(self).spec_mount_id(),
    {
        Err(FileSystemError::PermissionDenied)
    }

    /// Inodes cannot be removed here.
    pub fn remove_inode(&mut self, _inode: InodePointer) -> (r: Result<(), FileSystemError>)
        ensures
            r == Err::<(), _>(FileSystemError::PermissionDenied),
            final(self).spec_mount_id() == old(self).spec_mount_id(),
    {
        Err(FileSystemError::PermissionDenied)
    }

    /// Directory entries cannot be removed here.
    pub fn remove_dir_entry(&mut self, _directory_index: InodePointer, _name: String) -> (r: Result<(), FileSystemError>)
        ensures
            r == Err::<(), _>(FileSystemError::PermissionDenied),
            final(self).spec_mount_id() == old(self).spec_mount_id(),
    {
        Err(FileSystemError::PermissionDenied)
    }
}

/// The low sixteen bits of an index are under `0x10000`.
proof fn lemma_low_half(index: usize)
    by (bit_vector)
    ensures
        index & 0xFFFF < 0x10000,
{
}

} // verus!
