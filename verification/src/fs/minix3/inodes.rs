//! Inode-level operations of the Minix3 driver: looking inodes up on the
//! mounted device, their stat records, link counts and typed directory
//! listings.
use vstd::prelude::*;

use crate::bytes::{le32, read_u32, splice};
use crate::fs::generic::FileSystemError;
use crate::fs::structures::{entry_type_of, DirectoryEntry, DirectoryEntryType, FileMode, FileStat, InodePointer};
use crate::types::TimeRepr;
use super::driver::{edited, file_contents, inode_block, inode_offset, lemma_edited_reads_back, zones_data, Minix3Filesystem};
use super::structures::{inode_bytes, inode_of, lemma_inode_roundtrip, Minix3DirEntry, Minix3Inode};

verus! {

/// The inode `index` of the filesystem as its blocks hold it.
pub open spec fn inode_on(fs: Minix3Filesystem, index: int) -> Minix3Inode {
    inode_of(fs.block(inode_block(fs.spec_superblock()->Some_0, index)), inode_offset(index))
}

/// The contents of the file whose inode is `n`.
pub open spec fn contents_of(fs: Minix3Filesystem, n: Minix3Inode) -> Seq<u8> {
    file_contents(zones_data(fs.disk_view(), n.zones@, 10), n.size as int)
}

/// `e` is directory entry `i` of the directory data `data`.
pub open spec fn dir_entry_at(data: Seq<u8>, i: int, e: Minix3DirEntry) -> bool {
    &&& e.inode == le32(data, 64 * i)
    &&& e.name@ == data.subrange(64 * i + 4, 64 * i + 64)
}

/// The characters of the nonzero bytes of `b`, in order.
pub open spec fn nonzero_chars(b: Seq<u8>) -> Seq<char>
    decreases b.len(),
{
    if b.len() == 0 {
        Seq::empty()
    } else if b[0] == 0 {
        nonzero_chars(b.drop_first())
    } else {
        seq![b[0] as char] + nonzero_chars(b.drop_first())
    }
}

/// `n` with its link count set to `links`.
pub open spec fn with_links(n: Minix3Inode, links: u16) -> Minix3Inode {
    Minix3Inode { nlinks: links, ..n }
}

/// Every entry of the directory data `data` names an inode (inodes count
/// from 1).
pub open spec fn entries_name_inodes(data: Seq<u8>) -> bool {
    forall|i: int| 0 <= i < data.len() / 64 ==> #[trigger] le32(data, 64 * i) >= 1
}

/// The typed listing `r` of the directory data `data`: entry `i` names the
/// inode and carries the name of entry `i` of the data, typed by that
/// inode's mode.
pub open spec fn typed_listing(fs: Minix3Filesystem, dev: usize, data: Seq<u8>, r: Seq<DirectoryEntry>) -> bool {
    &&& r.len() == data.len() / 64
    &&& forall|i: int|
        0 <= i < r.len() ==> {
            let idx = le32(data, 64 * i);
            &&& (#[trigger] r[i]).index == InodePointer { device_id: dev, index: idx as usize }
            &&& r[i].name@ == nonzero_chars(data.subrange(64 * i + 4, 64 * i + 64))
            &&& r[i].entry_type == entry_type_of((inode_on(fs, idx) .mode >> 13u16) & 7)
        }
}

/// The name of entry `e`: the characters of its nonzero bytes.
fn entry_name(e: &Minix3DirEntry) -> (r: String)
    ensures
        r@ == nonzero_chars(e.name@),
{
    let mut s = String::new();
    let mut k: usize = 0;
    proof {
        assert(e.name@.skip(0) =~= e.name@);
        assert(s@ + nonzero_chars(e.name@) =~= nonzero_chars(e.name@));
    }
    while k < 60
        invariant
            k <= 60,
            nonzero_chars(e.name@) == s@ + nonzero_chars(e.name@.skip(k as int)),
        decreases 60 - k,
    {
        let b = e.name[k];
        proof {
            let rest = e.name@.skip(k as int);
            assert(rest[0] == b);
            assert(rest.drop_first() =~= e.name@.skip(k + 1));
        }
        if b != 0 {
            crate::bytes::push_char(&mut s, b as char);
            proof {
                assert(s@ + nonzero_chars(e.name@.skip(k + 1)) =~= (s@.drop_last() + seq![b as char]) + nonzero_chars(
                    e.name@.skip(k + 1),
                ));
            }
        }
        k = k + 1;
    }
    proof {
        assert(e.name@.skip(60) =~= Seq::<u8>::empty());
        assert(s@ + Seq::<char>::empty() =~= s@);
    }
    s
}

/// The directory entries held by the directory data `data`.
fn parse_dir_entries(data: &Vec<u8>) -> (r: Vec<Minix3DirEntry>)
    ensures
        r@.len() == data@.len() / 64,
        forall|i: int| 0 <= i < r@.len() ==> dir_entry_at(data@, i, #[trigger] r@[i]),
{
    let len = data.len();
    let count = len / 64;
    let mut r: Vec<Minix3DirEntry> = Vec::new();
    let mut i: usize = 0;
    while i < count
        invariant
            len == data@.len(),
            len <= usize::MAX,
            count == data@.len() / 64,
            i <= count,
            r@.len() == i,
            forall|j: int| 0 <= j < i ==> dir_entry_at(data@, j, #[trigger] r@[j]),
        decreases count - i,
    {
        assert(64 * i + 64 <= data@.len()) by (nonlinear_arith)
            requires
                i < count,
                count == data@.len() / 64,
        ;
        let o = 64 * i;
        let inode = read_u32(data.as_slice(), o);
        let mut name = [0u8; 60];
        let mut k: usize = 0;
        while k < 60
            invariant
                k <= 60,
                o + 64 <= data@.len(),
                data@.len() <= usize::MAX,
                forall|m: int| 0 <= m < k ==> name@[m] == data@[o + 4 + m],
            decreases 60 - k,
        {
            name[k] = data[o + 4 + k];
            k = k + 1;
        }
        let e = Minix3DirEntry { inode, name };
        assert(e.name@ =~= data@.subrange(64 * i + 4, 64 * i + 64));
        r.push(e);
        i = i + 1;
    }
    r
}

impl Minix3Filesystem {
    /// Whether the filesystem is mounted under `dev`.
    fn mounted_under(&self, dev: usize) -> (r: bool)
        ensures
            r == (self.spec_mount_id() == Some(dev)),
    {
        match self.inode(1) {
            Ok(p) => p.device_id == dev,
            Err(_) => false,
        }
    }

    /// Get the inode at the given pointer, returning errors if it is not
    /// stored on this device
    pub fn inode_at(&mut self, inode: InodePointer) -> (r: Result<Minix3Inode, FileSystemError>)
        requires
            old(self).wf(),
            old(self).spec_mount_id() == Some(inode.device_id) && old(self).spec_superblock() is Some ==> inode.index >= 1,
        ensures
            final(self).wf(),
            final(self).same_contents(old(self)),
            if old(self).spec_mount_id() == Some(inode.device_id) {
                match old(self).spec_superblock() {
                    Some(sb) => r == Ok::<_, FileSystemError>(inode_on(*old(self), inode.index as int)),
                    None => r == Err::<Minix3Inode, _>(FileSystemError::UninitializedFilesystem),
                }
            } else {
                r == Err::<Minix3Inode, _>(FileSystemError::UnmountedDevice)
            },
    {
        if self.mounted_under(inode.device_id) {
            self.get_inode(inode.index)
        } else {
            Err(FileSystemError::UnmountedDevice)
        }
    }

    /// Stat the given inode: its mode, link count, owner, size and times
    /// as the inode holds them, with 1024-byte blocks.
    pub fn stat_inode(&mut self, inode_ptr: InodePointer) -> (r: Result<FileStat, FileSystemError>)
        requires
            old(self).wf(),
            old(self).spec_mount_id() == Some(inode_ptr.device_id) && old(self).spec_superblock() is Some ==> inode_ptr.index
                >= 1,
        ensures
            final(self).wf(),
            final(self).same_contents(old(self)),
            if old(self).spec_mount_id() == Some(inode_ptr.device_id) {
                match old(self).spec_superblock() {
                    Some(sb) => {
                        let n = inode_on(*old(self), inode_ptr.index as int);
                        &&& r is Ok
                        &&& r->Ok_0.index == inode_ptr
                        &&& r->Ok_0.mode@ == n.mode
                        &&& r->Ok_0.links == n.nlinks
                        &&& r->Ok_0.uid == n.uid
                        &&& r->Ok_0.gid == n.gid
                        &&& r->Ok_0.special_dev_id == 0
                        &&& r->Ok_0.size == n.size as usize
                        &&& r->Ok_0.blk_size == 1024
                        &&& r->Ok_0.blocks_allocated == 0
                        &&& r->Ok_0.atime == TimeRepr(n.atime as usize)
                        &&& r->Ok_0.mtime == TimeRepr(n.mtime as usize)
                        &&& r->Ok_0.ctime == TimeRepr(n.ctime as usize)
                    },
                    None => r == Err::<FileStat, _>(FileSystemError::UninitializedFilesystem),
                }
            } else {
                r == Err::<FileStat, _>(FileSystemError::UnmountedDevice)
            },
    {
        let inode = match self.inode_at(inode_ptr) {
            Ok(n) => n,
            Err(e) => return Err(e),
        };
        Ok(
            FileStat {
                index: inode_ptr,
                mode: FileMode::from_bits(inode.mode),
                links: inode.nlinks,
                uid: inode.uid,
                gid: inode.gid,
                special_dev_id: 0,
                size: inode.size as usize,
                blk_size: 1024,
                blocks_allocated: 0,
                atime: TimeRepr(inode.atime as usize),
                mtime: TimeRepr(inode.mtime as usize),
                ctime: TimeRepr(inode.ctime as usize),
            },
        )
    }

    /// Get the directory entries in minix3 format for the given inode: one
    /// for each whole 64 bytes of its contents.
    pub fn minix3_dir_ents(&mut self, inode: InodePointer) -> (r: Result<Vec<Minix3DirEntry>, FileSystemError>)
        requires
            old(self).wf(),
            old(self).spec_mount_id() == Some(inode.device_id) && old(self).spec_superblock() is Some ==> inode.index >= 1,
        ensures
            final(self).wf(),
            final(self).same_contents(old(self)),
            if old(self).spec_mount_id() == Some(inode.device_id) {
                match old(self).spec_superblock() {
                    Some(sb) => {
                        let data = contents_of(*old(self), inode_on(*old(self), inode.index as int));
                        &&& r is Ok
                        &&& r->Ok_0@.len() == data.len() / 64
                        &&& forall|i: int| 0 <= i < r->Ok_0@.len() ==> dir_entry_at(data, i, #[trigger] r->Ok_0@[i])
                    },
                    None => r == Err::<Vec<Minix3DirEntry>, _>(FileSystemError::UninitializedFilesystem),
                }
            } else {
                r == Err::<Vec<Minix3DirEntry>, _>(FileSystemError::UnmountedDevice)
            },
    {
        let n = match self.inode_at(inode) {
            Ok(n) => n,
            Err(e) => return Err(e),
        };
        let data = self.read_from_inode(n);
        Ok(parse_dir_entries(&data))
    }

    /// Get the directory entries from the given inode, each typed by the
    /// mode of the inode it names.
    pub fn dir_entries(&mut self, inode_ptr: InodePointer) -> (r: Result<Vec<DirectoryEntry>, FileSystemError>)
        requires
            old(self).wf(),
            old(self).spec_mount_id() == Some(inode_ptr.device_id) && old(self).spec_superblock() is Some ==> {
                &&& inode_ptr.index >= 1
                &&& entries_name_inodes(contents_of(*old(self), inode_on(*old(self), inode_ptr.index as int)))
            },
        ensures
            final(self).wf(),
            final(self).same_contents(old(self)),
            if old(self).spec_mount_id() == Some(inode_ptr.device_id) {
                match old(self).spec_superblock() {
                    Some(sb) => {
                        let n = inode_on(*old(self), inode_ptr.index as int);
                        if entry_type_of((n.mode >> 13u16) & 7) != DirectoryEntryType::Directory {
                            r == Err::<Vec<DirectoryEntry>, _>(FileSystemError::InodeIsADirectory(inode_ptr))
                        } else {
                            r is Ok && typed_listing(*old(self), inode_ptr.device_id, contents_of(*old(self), n), r->Ok_0@)
                        }
                    },
                    None => r == Err::<Vec<DirectoryEntry>, _>(FileSystemError::UninitializedFilesystem),
                }
            } else {
                r == Err::<Vec<DirectoryEntry>, _>(FileSystemError::UnmountedDevice)
            },
    {
        let ghost a = *self;
        let n = match self.inode_at(inode_ptr) {
            Ok(n) => n,
            Err(e) => return Err(e),
        };
        if FileMode::from_bits(n.mode).entry_type() != DirectoryEntryType::Directory {
            return Err(FileSystemError::InodeIsADirectory(inode_ptr));
        }
        let ents = match self.minix3_dir_ents(inode_ptr) {
            Ok(v) => v,
            Err(e) => return Err(e),
        };
        let ghost data = contents_of(a, n);
        let mut result: Vec<DirectoryEntry> = Vec::new();
        let mut i: usize = 0;
        while i < ents.len()
            invariant
                self.wf(),
                self.same_contents(&a),
                a.spec_mount_id() == Some(inode_ptr.device_id),
                a.spec_superblock() is Some,
                ents@.len() == data.len() / 64,
                forall|j: int| 0 <= j < ents@.len() ==> dir_entry_at(data, j, #[trigger] ents@[j]),
                entries_name_inodes(data),
                i <= ents@.len(),
                result@.len() == i,
                forall|j: int|
                    0 <= j < i ==> {
                        let idx = le32(data, 64 * j);
                        &&& (#[trigger] result@[j]).index == InodePointer { device_id: inode_ptr.device_id, index: idx as usize }
                        &&& result@[j].name@ == nonzero_chars(data.subrange(64 * j + 4, 64 * j + 64))
                        &&& result@[j].entry_type == entry_type_of((inode_on(a, idx).mode >> 13u16) & 7)
                    },
            decreases ents@.len() - i,
        {
            let e = ents[i];
            proof {
                assert(dir_entry_at(data, i as int, ents@[i as int]));
                assert(le32(data, 64 * i) >= 1);
            }
            let this_ptr = InodePointer { device_id: inode_ptr.device_id, index: e.inode as usize };
            let this_inode = match self.inode_at(this_ptr) {
                Ok(m) => m,
                Err(err) => return Err(err),
            };
            let name = entry_name(&e);
            let ghost before = result@;
            result.push(DirectoryEntry { index: this_ptr, name, entry_type: FileMode::from_bits(this_inode.mode).entry_type() });
            proof {
                assert forall|j: int| 0 <= j < i + 1 implies {
                    let idx = le32(data, 64 * j);
                    &&& (#[trigger] result@[j]).index == InodePointer { device_id: inode_ptr.device_id, index: idx as usize }
                    &&& result@[j].name@ == nonzero_chars(data.subrange(64 * j + 4, 64 * j + 64))
                    &&& result@[j].entry_type == entry_type_of((inode_on(a, idx).mode >> 13u16) & 7)
                } by {
                    if j < i {
                        assert(result@[j] == before[j]);
                    }
                }
            }
            i = i + 1;
        }
        Ok(result)
    }

    /// Change the link count of an inode by `up` (one more) or not (one
    /// fewer), and read it back.
    fn change_links(&mut self, inode: InodePointer, up: bool) -> (r: Result<usize, FileSystemError>)
        requires
            old(self).wf(),
            old(self).spec_mount_id() == Some(inode.device_id) && old(self).spec_superblock() is Some ==> {
                &&& inode.index >= 1
                &&& up ==> inode_on(*old(self), inode.index as int).nlinks < u16::MAX
                &&& !up ==> inode_on(*old(self), inode.index as int).nlinks > 0
            },
        ensures
            final(self).wf(),
            if old(self).spec_mount_id() == Some(inode.device_id) {
                match old(self).spec_superblock() {
                    Some(sb) => {
                        let ib = inode_block(sb, inode.index as int);
                        let n = inode_on(*old(self), inode.index as int);
                        let links = if up { (n.nlinks + 1) as u16 } else { (n.nlinks - 1) as u16 };
                        &&& edited(*old(self), *final(self), ib, splice(old(self).block(ib), inode_offset(inode.index as int), inode_bytes(with_links(n, links))))
                        &&& r == Ok::<usize, FileSystemError>(links as usize)
                    },
                    None => r == Err::<usize, _>(FileSystemError::UninitializedFilesystem) && final(self).same_contents(old(self)),
                }
            } else {
                r == Err::<usize, _>(FileSystemError::UnmountedDevice) && final(self).same_contents(old(self))
            },
    {
        let ghost a = *self;
        let mut n = match self.inode_at(inode) {
            Ok(n) => n,
            Err(e) => return Err(e),
        };
        let ghost n0 = n;
        if up {
            n.nlinks = n.nlinks + 1;
        } else {
            n.nlinks = n.nlinks - 1;
        }
        let ghost mid = *self;
        let _ = self.set_inode(inode.index, n);
        proof {
            let sb = a.spec_superblock()->Some_0;
            let ib = inode_block(sb, inode.index as int);
            let off = inode_offset(inode.index as int);
            assert(n == with_links(n0, n.nlinks));
            assert(mid.block(ib) == a.block(ib));
            lemma_edited_reads_back(mid, *self, ib, splice(a.block(ib), off, inode_bytes(n)));
            assert(a.block(ib).len() == 1024) by {
                crate::fs::minix3::driver::lemma_block_len(a, ib);
            }
            assert(0 <= off && off + 64 <= 1024);
            lemma_inode_roundtrip(a.block(ib), off, n);
            assert(inode_on(*self, inode.index as int) == n);
        }
        let m = match self.inode_at(inode) {
            Ok(m) => m,
            Err(e) => return Err(e),
        };
        Ok(m.nlinks as usize)
    }

    /// Increment the number of hard links to an inode
    pub fn increment_links(&mut self, inode: InodePointer) -> (r: Result<usize, FileSystemError>)
        requires
            old(self).wf(),
            old(self).spec_mount_id() == Some(inode.device_id) && old(self).spec_superblock() is Some ==> {
                &&& inode.index >= 1
                &&& inode_on(*old(self), inode.index as int).nlinks < u16::MAX
            },
        ensures
            final(self).wf(),
            if old(self).spec_mount_id() == Some(inode.device_id) {
                match old(self).spec_superblock() {
                    Some(sb) => {
                        let ib = inode_block(sb, inode.index as int);
                        let n = inode_on(*old(self), inode.index as int);
                        &&& edited(*old(self), *final(self), ib, splice(old(self).block(ib), inode_offset(inode.index as int), inode_bytes(with_links(n, (n.nlinks + 1) as u16))))
                        &&& r == Ok::<usize, FileSystemError>((n.nlinks + 1) as usize)
                    },
                    None => r == Err::<usize, _>(FileSystemError::UninitializedFilesystem) && final(self).same_contents(old(self)),
                }
            } else {
                r == Err::<usize, _>(FileSystemError::UnmountedDevice) && final(self).same_contents(old(self))
            },
    {
        self.change_links(inode, true)
    }

    /// Decrement the number of hard links to an inode
    pub fn decrement_links(&mut self, inode: InodePointer) -> (r: Result<usize, FileSystemError>)
        requires
            old(self).wf(),
            old(self).spec_mount_id() == Some(inode.device_id) && old(self).spec_superblock() is Some ==> {
                &&& inode.index >= 1
                &&& inode_on(*old(self), inode.index as int).nlinks > 0
            },
        ensures
            final(self).wf(),
            if old(self).spec_mount_id() == Some(inode.device_id) {
                match old(self).spec_superblock() {
                    Some(sb) => {
                        let ib = inode_block(sb, inode.index as int);
                        let n = inode_on(*old(self), inode.index as int);
                        &&& edited(*old(self), *final(self), ib, splice(old(self).block(ib), inode_offset(inode.index as int), inode_bytes(with_links(n, (n.nlinks - 1) as u16))))
                        &&& r == Ok::<usize, FileSystemError>((n.nlinks - 1) as usize)
                    },
                    None => r == Err::<usize, _>(FileSystemError::UninitializedFilesystem) && final(self).same_contents(old(self)),
                }
            } else {
                r == Err::<usize, _>(FileSystemError::UnmountedDevice) && final(self).same_contents(old(self))
            },
    {
        self.change_links(inode, false)
    }
}

} // verus!
