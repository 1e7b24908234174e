//! The Minix3 filesystem driver: blocks read through a cache, edits kept in
//! memory, inodes, the inode and zone bitmaps, files and directories.
use vstd::prelude::*;

use crate::bytes::{le32, push_char, splice};
use super::structures::{
    dir_entry_bytes, inode_bytes, inode_of, lemma_inode_roundtrip, superblock_of, Minix3DirEntry, Minix3Inode,
    Minix3Superblock, MINIX3_MAGIC,
};
use crate::fs::generic::FileSystemError;
use crate::fs::structures::{DirectoryEntry, DirectoryEntryType, InodePointer};
use crate::types::DeviceIdentifier;

verus! {

/// Size of a block.
pub const BLOCK_SIZE: usize = 1024;

/// A block number with the contents of the block.
pub type BlockEntry = (usize, [u8; 1024]);

/// Position `k` of `entries` is the first entry for block `index`.
pub open spec fn first_match(entries: Seq<BlockEntry>, index: int, k: int) -> bool {
    &&& 0 <= k < entries.len()
    &&& entries[k].0 == index
    &&& forall|j: int| 0 <= j < k ==> #[trigger] entries[j].0 != index
}

/// The contents that `entries` holds for block `index`, if any: those of its
/// first entry for the block.
pub open spec fn lookup(entries: Seq<BlockEntry>, index: int) -> Option<Seq<u8>> {
    if exists|k: int| first_match(entries, index, k) {
        Some(entries[choose|k: int| first_match(entries, index, k)].1@)
    } else {
        None
    }
}

/// There is at most one first entry for a block.
proof fn lemma_first_match_unique(entries: Seq<BlockEntry>, index: int, k: int)
    requires
        first_match(entries, index, k),
    ensures
        lookup(entries, index) == Some(entries[k].1@),
{
    let c = choose|c: int| first_match(entries, index, c);
    if c < k {
        assert(entries[c].0 != index);
    } else if c > k {
        assert(entries[k].0 != index);
    }
}

/// Without an entry for `index`, nothing is first.
proof fn lemma_no_match(entries: Seq<BlockEntry>, index: int)
    requires
        forall|j: int| 0 <= j < entries.len() ==> #[trigger] entries[j].0 != index,
    ensures
        lookup(entries, index) is None,
{
}

/// Replacing the contents of the first entry for `index` changes what the
/// entries hold for `index` only.
proof fn lemma_lookup_update(entries: Seq<BlockEntry>, index: int, k: int, data: [u8; 1024])
    requires
        first_match(entries, index, k),
    ensures
        forall|j: int|
            #[trigger] lookup(entries.update(k, (entries[k].0, data)), j) == if j == index {
                Some(data@)
            } else {
                lookup(entries, j)
            },
{
    let e2 = entries.update(k, (entries[k].0, data));
    assert forall|m: int| 0 <= m < entries.len() implies #[trigger] e2[m].0 == entries[m].0 by {}
    assert forall|j: int| #[trigger] lookup(e2, j) == if j == index {
        Some(data@)
    } else {
        lookup(entries, j)
    } by {
        if j == index {
            assert(first_match(e2, j, k));
            lemma_first_match_unique(e2, j, k);
        } else {
            if exists|c: int| first_match(entries, j, c) {
                let c = choose|c: int| first_match(entries, j, c);
                assert(c != k);
                assert(first_match(e2, j, c));
                lemma_first_match_unique(e2, j, c);
            } else {
                assert forall|c: int| !first_match(e2, j, c) by {
                    if first_match(e2, j, c) {
                        assert forall|m: int| 0 <= m < c implies #[trigger] entries[m].0 != j by {
                            assert(e2[m].0 == entries[m].0);
                        }
                        assert(e2[c].0 == entries[c].0);
                        assert(first_match(entries, j, c));
                    }
                }
            }
        }
    }
}

/// Whatever the new contents of the first entry for `index`, what the
/// entries hold changes for `index` only.
proof fn lemma_lookup_update_any(entries: Seq<BlockEntry>, index: int, k: int)
    requires
        first_match(entries, index, k),
    ensures
        forall|data: [u8; 1024], j: int|
            #[trigger] lookup(entries.update(k, (entries[k].0, data)), j) == if j == index {
                Some(data@)
            } else {
                lookup(entries, j)
            },
{
    assert forall|data: [u8; 1024], j: int|
        #[trigger] lookup(entries.update(k, (entries[k].0, data)), j) == if j == index {
            Some(data@)
        } else {
            lookup(entries, j)
        } by {
        lemma_lookup_update(entries, index, k, data);
    }
}

/// Adding an entry for a block without one changes what the entries hold
/// for that block only.
proof fn lemma_lookup_push(entries: Seq<BlockEntry>, index: int, data: [u8; 1024])
    requires
        0 <= index <= usize::MAX,
        forall|c: int| 0 <= c < entries.len() ==> #[trigger] entries[c].0 != index,
    ensures
        forall|j: int|
            #[trigger] lookup(entries.push((index as usize, data)), j) == if j == index {
                Some(data@)
            } else {
                lookup(entries, j)
            },
{
    let e2 = entries.push((index as usize, data));
    assert forall|m: int| 0 <= m < entries.len() implies #[trigger] e2[m] == entries[m] by {}
    assert forall|j: int| #[trigger] lookup(e2, j) == if j == index {
        Some(data@)
    } else {
        lookup(entries, j)
    } by {
        if j == index {
            assert(first_match(e2, j, entries.len() as int));
            lemma_first_match_unique(e2, j, entries.len() as int);
        } else {
            if exists|c: int| first_match(entries, j, c) {
                let c = choose|c: int| first_match(entries, j, c);
                assert(first_match(e2, j, c));
                lemma_first_match_unique(e2, j, c);
            } else {
                assert forall|c: int| !first_match(e2, j, c) by {
                    if first_match(e2, j, c) {
                        assert forall|m: int| 0 <= m < c implies #[trigger] entries[m].0 != j by {
                            assert(e2[m].0 == entries[m].0);
                        }
                        assert(e2[c].0 == entries[c].0);
                        assert(first_match(entries, j, c));
                    }
                }
            }
        }
    }
}

/// The edits made to the blocks and the blocks of the device.
pub type DiskView = (Seq<BlockEntry>, Seq<[u8; 1024]>);

/// Block `index` of the device `device`; a block past its end reads as
/// zeros.
pub open spec fn device_block_of(device: Seq<[u8; 1024]>, index: int) -> Seq<u8> {
    if 0 <= index < device.len() {
        device[index]@
    } else {
        Seq::new(1024, |i: int| 0u8)
    }
}

/// Block `index` as `v` shows it: its edited contents where it was edited,
/// else the device's.
pub open spec fn view_block(v: DiskView, index: int) -> Seq<u8> {
    match lookup(v.0, index) {
        Some(d) => d,
        None => device_block_of(v.1, index),
    }
}

/// Minix3 Filesystem Driver: the blocks of the device, the blocks read so
/// far, the blocks edited (which are what the filesystem holds from then on)
/// and the filesystems mounted on its directories.
pub struct Minix3Filesystem {
    device: Vec<[u8; 1024]>,
    mount_id: Option<DeviceIdentifier>,
    superblock: Option<Minix3Superblock>,
    cache: Vec<BlockEntry>,
    rewritten: Vec<BlockEntry>,
    mount_inodes: Vec<(InodePointer, InodePointer, String)>,
}

impl Minix3Filesystem {
    /// The blocks of the device.
    pub closed spec fn device_blocks(&self) -> Seq<[u8; 1024]> {
        self.device@
    }

    /// The edited blocks, in the order they were first edited.
    pub closed spec fn edits(&self) -> Seq<BlockEntry> {
        self.rewritten@
    }

    /// The identifier the filesystem is mounted under.
    pub closed spec fn spec_mount_id(&self) -> Option<DeviceIdentifier> {
        self.mount_id
    }

    /// The superblock read at initialization.
    pub closed spec fn spec_superblock(&self) -> Option<Minix3Superblock> {
        self.superblock
    }

    /// The filesystems mounted on directories of this one.
    pub closed spec fn mounts(&self) -> Seq<(InodePointer, InodePointer, String)> {
        self.mount_inodes@
    }

    /// The contents of block `index` on the device; a block past its end
    /// reads as zeros.
    pub open spec fn device_block(&self, index: int) -> Seq<u8> {
        device_block_of(self.device_blocks(), index)
    }

    /// What the filesystem's blocks hold: the edits and the device.
    pub open spec fn disk_view(&self) -> DiskView {
        (self.edits(), self.device_blocks())
    }

    /// The contents of block `index` as the filesystem sees it: the edited
    /// contents where it was edited, else the device's.
    pub open spec fn block(&self, index: int) -> Seq<u8> {
        view_block(self.disk_view(), index)
    }

    /// The cached blocks hold what the device holds.
    pub closed spec fn wf(&self) -> bool {
        &&& forall|k: int|
            0 <= k < self.cache@.len() ==> #[trigger] self.cache@[k].1@ == self.device_block(
                self.cache@[k].0 as int,
            )
    }

    /// Everything but the cache is as in `other`.
    pub open spec fn same_contents(&self, other: &Self) -> bool {
        &&& self.device_blocks() == other.device_blocks()
        &&& self.edits() == other.edits()
        &&& self.spec_mount_id() == other.spec_mount_id()
        &&& self.spec_superblock() == other.spec_superblock()
        &&& self.mounts() == other.mounts()
    }

    /// Construct a Minix3 Filesystem driver over the blocks of a device.
    pub fn new(device: Vec<[u8; 1024]>) -> (r: Self)
        ensures
            r.wf(),
            r.device_blocks() == device@,
            r.edits().len() == 0,
            r.spec_mount_id() is None,
            r.spec_superblock() is None,
            r.mounts().len() == 0,
    {
        Self {
            device,
            mount_id: None,
            superblock: None,
            cache: Vec::new(),
            rewritten: Vec::new(),
            mount_inodes: Vec::new(),
        }
    }

    /// Read a block as a buffer
    pub fn read_block_to_buffer(&mut self, index: usize) -> (r: [u8; 1024])
        requires
            old(self).wf(),
        ensures
            final(self).wf(),
            final(self).same_contents(old(self)),
            r@ == old(self).block(index as int),
    {
        let mut k: usize = 0;
        while k < self.rewritten.len()
            invariant
                *self == *old(self),
                self.wf(),
                k <= self.rewritten@.len(),
                forall|j: int| 0 <= j < k ==> #[trigger] self.rewritten@[j].0 != index,
            decreases self.rewritten@.len() - k,
        {
            if self.rewritten[k].0 == index {
                proof {
                    assert(first_match(self.rewritten@, index as int, k as int));
                    lemma_first_match_unique(self.rewritten@, index as int, k as int);
                }
                return self.rewritten[k].1;
            }
            k = k + 1;
        }
        proof {
            lemma_no_match(self.rewritten@, index as int);
        }

        let mut c: usize = 0;
        while c < self.cache.len()
            invariant
                *self == *old(self),
                self.wf(),
                lookup(self.rewritten@, index as int) is None,
                c <= self.cache@.len(),
            decreases self.cache@.len() - c,
        {
            if self.cache[c].0 == index {
                return self.cache[c].1;
            }
            c = c + 1;
        }

        let buffer = if index < self.device.len() {
            self.device[index]
        } else {
            let zeros = [0u8; 1024];
            assert(zeros@ =~= Seq::new(1024, |i: int| 0u8));
            zeros
        };
        self.cache.push((index, buffer));
        buffer
    }

    /// Edit the contents of a block
    pub fn edit_block(&mut self, index: usize, new_data: [u8; 1024]) -> (r: Result<(), FileSystemError>)
        requires
            old(self).wf(),
        ensures
            final(self).wf(),
            r is Ok,
            final(self).device_blocks() == old(self).device_blocks(),
            final(self).spec_superblock() == old(self).spec_superblock(),
            final(self).spec_mount_id() == old(self).spec_mount_id(),
            final(self).mounts() == old(self).mounts(),
            forall|j: int| #[trigger] lookup(final(self).edits(), j) == if j == index {
                Some(new_data@)
            } else {
                lookup(old(self).edits(), j)
            },
    {
        let mut k: usize = 0;
        while k < self.rewritten.len()
            invariant
                self.wf(),
                *self == *old(self),
                k <= self.rewritten@.len(),
                forall|j: int| 0 <= j < k ==> #[trigger] self.rewritten@[j].0 != index,
            decreases self.rewritten@.len() - k,
        {
            if self.rewritten[k].0 == index {
                proof {
                    assert(first_match(self.rewritten@, index as int, k as int));
                    lemma_lookup_update(self.rewritten@, index as int, k as int, new_data);
                }
                self.rewritten.set(k, (index, new_data));
                return Ok(());
            }
            k = k + 1;
        }
        proof {
            lemma_no_match(self.rewritten@, index as int);
            lemma_lookup_push(self.rewritten@, index as int, new_data);
        }
        self.rewritten.push((index, new_data));
        Ok(())
    }
}

impl Minix3Filesystem {
    /// Get a mutable buffer into editable memory: the edited copy of the
    /// block, made from its contents where it was not edited yet.
    pub fn get_mut_buffer(&mut self, block: usize) -> (r: Result<&mut [u8; 1024], FileSystemError>)
        requires
            old(self).wf(),
        ensures
            match r {
                Ok(buf) => buf@ == old(self).block(block as int),
                Err(_) => false,
            },
            match r {
                Ok(buf) => final(self).wf(),
                Err(_) => false,
            },
            match r {
                Ok(buf) => final(self).device_blocks() == old(self).device_blocks()
                    && final(self).spec_superblock() == old(self).spec_superblock()
                    && final(self).spec_mount_id() == old(self).spec_mount_id()
                    && final(self).mounts() == old(self).mounts(),
                Err(_) => false,
            },
            match r {
                Ok(buf) => forall|j: int| #[trigger] lookup(final(self).edits(), j) == if j == block {
                        Some(final(buf)@)
                    } else {
                        lookup(old(self).edits(), j)
                    },
                Err(_) => false,
            },
    {
        let mut k: usize = 0;
        while k < self.rewritten.len()
            invariant
                self.wf(),
                *self == *old(self),
                k <= self.rewritten@.len(),
                forall|j: int| 0 <= j < k ==> #[trigger] self.rewritten@[j].0 != block,
            ensures
                k == self.rewritten@.len() || self.rewritten@[k as int].0 == block,
            decreases self.rewritten@.len() - k,
        {
            if self.rewritten[k].0 == block {
                break;
            }
            k = k + 1;
        }
        if k == self.rewritten.len() {
            proof {
                lemma_no_match(self.rewritten@, block as int);
            }
            let buffer = self.read_block_to_buffer(block);
            proof {
                lemma_lookup_push(self.rewritten@, block as int, buffer);
            }
            self.rewritten.push((block, buffer));
        }
        proof {
            assert(first_match(self.rewritten@, block as int, k as int));
            lemma_first_match_unique(self.rewritten@, block as int, k as int);
            lemma_lookup_update_any(self.rewritten@, block as int, k as int);
        }
        Ok(&mut self.rewritten[k].1)
    }
}

/// `new` is `old` with block `b` holding `data` from now on: the device,
/// superblock, mount identifier and mounts are kept, and no other block
/// changes.
pub open spec fn edited(old: Minix3Filesystem, new: Minix3Filesystem, b: int, data: Seq<u8>) -> bool {
    &&& new.wf()
    &&& new.device_blocks() == old.device_blocks()
    &&& new.spec_superblock() == old.spec_superblock()
    &&& new.spec_mount_id() == old.spec_mount_id()
    &&& new.mounts() == old.mounts()
    &&& forall|j: int| #[trigger] lookup(new.edits(), j) == if j == b {
        Some(data)
    } else {
        lookup(old.edits(), j)
    }
}

/// Every block the filesystem shows holds 1024 bytes.
pub(crate) proof fn lemma_block_len(fs: Minix3Filesystem, b: int)
    ensures
        fs.block(b).len() == 1024,
{
    let es = fs.edits();
    if exists|k: int| first_match(es, b, k) {
        let k = choose|k: int| first_match(es, b, k);
        assert(es[k].1@.len() == 1024);
    }
}

/// A block read after an edit gives back what the edit wrote, and every
/// other block reads as before.
pub proof fn lemma_edited_reads_back(old: Minix3Filesystem, new: Minix3Filesystem, b: int, data: Seq<u8>)
    requires
        edited(old, new, b, data),
    ensures
        new.block(b) == data,
        forall|j: int| j != b ==> #[trigger] new.block(j) == old.block(j),
{
    assert(lookup(new.edits(), b) == Some(data));
    assert forall|j: int| j != b implies #[trigger] new.block(j) == old.block(j) by {
        assert(lookup(new.edits(), j) == lookup(old.edits(), j));
    }
}

/// The mask of bit `bit` of a bitmap byte, the most significant bit first.
pub open spec fn bit_mask(bit: int) -> u8 {
    (0x80u8 >> (bit as u8)) as u8
}

/// Bit `p` of the bitmap that starts at block `first` is clear.
pub open spec fn map_bit_clear(fs: Minix3Filesystem, first: int, p: int) -> bool {
    fs.block(first + p / 8192)[(p / 8) % 1024] & bit_mask(p % 8) == 0
}

/// The masks of the bits of a byte: each is non-zero, the next is the
/// shift of the previous, none is left after eight shifts, and a full byte
/// has every bit set.
proof fn lemma_bit_masks()
    by (bit_vector)
    ensures
        forall|w: u8| w < 8 ==> #[trigger] (0x80u8 >> w) != 0,
        forall|w: u8| w < 8 ==> ((0x80u8 >> w) >> 1u8) == #[trigger] (0x80u8 >> ((w + 1) as u8)),
        (0x80u8 >> 8u8) == 0,
        (0x80u8 >> 0u8) == 0x80,
        forall|w: u8| w < 8 ==> #[trigger] (0xFFu8 & (0x80u8 >> w)) != 0,
{
}

impl Minix3Filesystem {
    /// The position of the first clear bit of the bitmap of `nblocks` blocks
    /// from block `first` on, if any.
    fn first_clear_bit(&mut self, first: usize, nblocks: usize) -> (r: Option<usize>)
        requires
            old(self).wf(),
            first + nblocks <= usize::MAX,
            nblocks * 8192 <= usize::MAX,
        ensures
            final(self).wf(),
            final(self).same_contents(old(self)),
            match r {
                Some(p) => p < nblocks * 8192 && map_bit_clear(*old(self), first as int, p as int) && forall|q: int|
                    0 <= q < p ==> !#[trigger] map_bit_clear(*old(self), first as int, q),
                None => forall|q: int|
                    0 <= q < nblocks * 8192 ==> !#[trigger] map_bit_clear(*old(self), first as int, q),
            },
    {
        proof {
            lemma_bit_masks();
        }
        let ghost fs0 = *self;
        let mut i: usize = 0;
        let mut b: usize = 0;
        while b < nblocks
            invariant
                self.wf(),
                self.same_contents(&fs0),
                fs0 == *old(self),
                first + nblocks <= usize::MAX,
                nblocks * 8192 <= usize::MAX,
                b <= nblocks,
                i == b * 8192,
                forall|q: int| 0 <= q < i ==> !#[trigger] map_bit_clear(fs0, first as int, q),
            decreases nblocks - b,
        {
            let buffer = self.read_block_to_buffer(first + b);
            let mut byte: usize = 0;
            while byte < 1024
                invariant
                    self.wf(),
                    self.same_contents(&fs0),
                    fs0 == *old(self),
                    first + nblocks <= usize::MAX,
                    nblocks * 8192 <= usize::MAX,
                    b < nblocks,
                    buffer@ == fs0.block(first + b),
                    byte <= 1024,
                    i == b * 8192 + byte * 8,
                    forall|q: int| 0 <= q < i ==> !#[trigger] map_bit_clear(fs0, first as int, q),
                decreases 1024 - byte,
            {
                let v = buffer[byte];
                proof {
                    lemma_bit_masks();
                }
                if v == 0xFF {
                    assert forall|q: int| 0 <= q < i + 8 implies !#[trigger] map_bit_clear(fs0, first as int, q) by {
                        if q >= i {
                            assert(q / 8192 == b as int && (q / 8) % 1024 == byte as int);
                            let x = (q % 8) as u8;
                            assert(x < 8);
                            assert((0xFFu8 & (0x80u8 >> x)) != 0);
                        }
                    }
                    i = i + 8;
                    byte = byte + 1;
                    continue;
                }
                let mut walker: u8 = 0x80;
                let mut w: u8 = 0;
                while walker > 0
                    invariant
                        self.wf(),
                        self.same_contents(&fs0),
                        fs0 == *old(self),
                        w <= 8,
                        walker == (0x80u8 >> w),
                        b < nblocks,
                        byte < 1024,
                        v == buffer@[byte as int],
                        buffer@ == fs0.block(first + b),
                        nblocks * 8192 <= usize::MAX,
                        i == b * 8192 + byte * 8 + w,
                        forall|q: int| 0 <= q < i ==> !#[trigger] map_bit_clear(fs0, first as int, q),
                        forall|x: u8| x < w ==> #[trigger] (v & (0x80u8 >> x)) != 0,
                        forall|w: u8| w < 8 ==> #[trigger] (0x80u8 >> w) != 0,
                        forall|w: u8| w < 8 ==> ((0x80u8 >> w) >> 1u8) == #[trigger] (0x80u8 >> ((w + 1) as u8)),
                        (0x80u8 >> 8u8) == 0,
                        (0x80u8 >> 0u8) == 0x80,
                    decreases 8 - w,
                {
                    assert(i as int / 8192 == b as int && (i as int / 8) % 1024 == byte as int && i as int % 8 == w as int);
                    if v & walker == 0 {
                        return Some(i);
                    }
                    i = i + 1;
                    w = w + 1;
                    walker = walker >> 1;
                }
                byte = byte + 1;
            }
            b = b + 1;
        }
        None
    }
}

/// The outcome of looking for a free entry in the bitmap of `nblocks`
/// blocks from block `first` on, where entry `n` is bit `n - offset`: the
/// first clear bit, or an error where every bit is set.
pub open spec fn free_entry(fs: Minix3Filesystem, first: int, nblocks: int, offset: int, r: Result<usize, FileSystemError>) -> bool {
    match r {
        Ok(n) => {
            &&& 0 <= n - offset < nblocks * 8192
            &&& map_bit_clear(fs, first, n - offset)
            &&& forall|q: int| 0 <= q < n - offset ==> !#[trigger] map_bit_clear(fs, first, q)
        },
        Err(e) => e == FileSystemError::OutOfSpace && forall|q: int|
            0 <= q < nblocks * 8192 ==> !#[trigger] map_bit_clear(fs, first, q),
    }
}

/// The block of the bitmap from block `first` on that holds bit `p`, and
/// the block's contents with that bit set (`set`) or cleared.
pub open spec fn with_map_bit(fs: Minix3Filesystem, first: int, p: int, set: bool) -> Seq<u8> {
    let b = fs.block(first + p / 8192);
    let byte = (p / 8) % 1024;
    b.update(byte, if set { b[byte] | bit_mask(p % 8) } else { b[byte] & !bit_mask(p % 8) })
}

impl Minix3Filesystem {
    /// Get the next available free inode: the number of the first inode
    /// whose bit is clear in the inode bitmap (inodes count from 1).
    pub fn next_free_inode(&mut self) -> (r: Result<usize, FileSystemError>)
        requires
            old(self).wf(),
        ensures
            final(self).wf(),
            final(self).same_contents(old(self)),
            match old(self).spec_superblock() {
                None => r == Err::<usize, _>(FileSystemError::UninitializedFilesystem),
                Some(sb) => free_entry(*old(self), 2, sb.imap_blocks as int, 1, r),
            },
    {
        match self.superblock {
            Some(superblock) => {
                let num_blocks = superblock.imap_blocks as usize;
                match self.first_clear_bit(2, num_blocks) {
                    Some(p) => Ok(p + 1),
                    None => Err(FileSystemError::OutOfSpace),
                }
            },
            None => Err(FileSystemError::UninitializedFilesystem),
        }
    }

    /// Get the next available free zone: the number of the first zone whose
    /// bit is clear in the zone bitmap.
    pub fn next_free_zone(&mut self) -> (r: Result<usize, FileSystemError>)
        requires
            old(self).wf(),
        ensures
            final(self).wf(),
            final(self).same_contents(old(self)),
            match old(self).spec_superblock() {
                None => r == Err::<usize, _>(FileSystemError::UninitializedFilesystem),
                Some(sb) => free_entry(*old(self), 2 + sb.imap_blocks, sb.zmap_blocks as int, 0, r),
            },
    {
        match self.superblock {
            Some(superblock) => {
                let num_blocks = superblock.zmap_blocks as usize;
                match self.first_clear_bit(2 + superblock.imap_blocks as usize, num_blocks) {
                    Some(p) => Ok(p),
                    None => Err(FileSystemError::OutOfSpace),
                }
            },
            None => Err(FileSystemError::UninitializedFilesystem),
        }
    }

    /// Set or clear bit `p` of the bitmap from block `first` on.
    fn mark_map_bit(&mut self, first: usize, p: usize, set: bool)
        requires
            old(self).wf(),
            first + p / 8192 <= usize::MAX,
        ensures
            edited(*old(self), *final(self), first + p / 8192, with_map_bit(*old(self), first as int, p as int, set)),
    {
        let block = first + p / (8 * 1024);
        let byte = (p / 8) % 1024;
        let bit = p % 8;
        let mask: u8 = 0x80u8 >> (bit as u8);
        match self.get_mut_buffer(block) {
            Ok(buffer) => {
                if set {
                    buffer[byte] = buffer[byte] | mask;
                } else {
                    buffer[byte] = buffer[byte] & !mask;
                }
            },
            Err(_) => {},
        }
    }

    /// Claim an inode
    pub fn claim_inode(&mut self, inode: usize) -> (r: Result<(), FileSystemError>)
        requires
            old(self).wf(),
            inode >= 1,
        ensures
            r is Ok,
            edited(*old(self), *final(self), 2 + (inode - 1) / 8192, with_map_bit(*old(self), 2, inode - 1, true)),
    {
        self.mark_map_bit(2, inode - 1, true);
        Ok(())
    }

    /// Free an inode
    pub fn free_inode(&mut self, inode: usize) -> (r: Result<(), FileSystemError>)
        requires
            old(self).wf(),
            inode >= 1,
        ensures
            r is Ok,
            edited(*old(self), *final(self), 2 + (inode - 1) / 8192, with_map_bit(*old(self), 2, inode - 1, false)),
    {
        self.mark_map_bit(2, inode - 1, false);
        Ok(())
    }

    /// Claim a zone
    pub fn claim_zone(&mut self, zone: usize) -> (r: Result<(), FileSystemError>)
        requires
            old(self).wf(),
        ensures
            match old(self).spec_superblock() {
                None => r == Err::<(), _>(FileSystemError::UninitializedFilesystem) && *final(self) == *old(self),
                Some(sb) => r is Ok && edited(
                    *old(self),
                    *final(self),
                    2 + sb.imap_blocks + zone / 8192,
                    with_map_bit(*old(self), 2 + sb.imap_blocks, zone as int, true),
                ),
            },
    {
        match self.superblock {
            Some(superblock) => {
                self.mark_map_bit(2 + superblock.imap_blocks as usize, zone, true);
                Ok(())
            },
            None => Err(FileSystemError::UninitializedFilesystem),
        }
    }

    /// Free a zone
    pub fn free_zone(&mut self, zone: usize) -> (r: Result<(), FileSystemError>)
        requires
            old(self).wf(),
        ensures
            match old(self).spec_superblock() {
                None => r == Err::<(), _>(FileSystemError::UninitializedFilesystem) && *final(self) == *old(self),
                Some(sb) => r is Ok && edited(
                    *old(self),
                    *final(self),
                    2 + sb.imap_blocks + zone / 8192,
                    with_map_bit(*old(self), 2 + sb.imap_blocks, zone as int, false),
                ),
            },
    {
        match self.superblock {
            Some(superblock) => {
                self.mark_map_bit(2 + superblock.imap_blocks as usize, zone, false);
                Ok(())
            },
            None => Err(FileSystemError::UninitializedFilesystem),
        }
    }
}

/// The block that holds inode `n` (inodes count from 1, sixteen a block,
/// after the boot block, the superblock and the two bitmaps).
pub open spec fn inode_block(sb: Minix3Superblock, n: int) -> int {
    (n - 1) / 16 + 2 + sb.imap_blocks + sb.zmap_blocks
}

/// Where inode `n` lies in its block.
pub open spec fn inode_offset(n: int) -> int {
    ((n - 1) % 16) * 64
}

impl Minix3Filesystem {
    /// Construct an inode within the current device
    pub fn inode(&self, inode: usize) -> (r: Result<InodePointer, FileSystemError>)
        ensures
            match self.spec_mount_id() {
                Some(id) => r == Ok::<_, FileSystemError>(InodePointer { device_id: id, index: inode }),
                None => r == Err::<InodePointer, _>(FileSystemError::UnmountedDevice),
            },
    {
        match self.mount_id {
            Some(mount_id) => Ok(InodePointer { device_id: mount_id, index: inode }),
            None => Err(FileSystemError::UnmountedDevice),
        }
    }

    /// Get a reference to the super block or return an error that the
    /// filesystem was not initialized
    pub fn superblock_ref(&self) -> (r: Result<Minix3Superblock, FileSystemError>)
        ensures
            match self.spec_superblock() {
                Some(sb) => r == Ok::<_, FileSystemError>(sb),
                None => r == Err::<Minix3Superblock, _>(FileSystemError::UninitializedFilesystem),
            },
    {
        match self.superblock {
            Some(sb) => Ok(sb),
            None => Err(FileSystemError::UninitializedFilesystem),
        }
    }

    /// Set the mount_id of the filesystem
    pub fn set_mount_id(&mut self, mount_id: DeviceIdentifier)
        requires
            old(self).wf(),
        ensures
            final(self).wf(),
            final(self).spec_mount_id() == Some(mount_id),
            final(self).device_blocks() == old(self).device_blocks(),
            final(self).edits() == old(self).edits(),
            final(self).spec_superblock() == old(self).spec_superblock(),
            final(self).mounts() == old(self).mounts(),
    {
        self.mount_id = Some(mount_id);
    }

    /// Get the index of the root directory of the filesystem
    pub fn get_root_inode(&self) -> (r: Result<InodePointer, FileSystemError>)
        ensures
            match self.spec_mount_id() {
                Some(id) => r == Ok::<_, FileSystemError>(InodePointer { device_id: id, index: 1 }),
                None => r == Err::<InodePointer, _>(FileSystemError::UnmountedDevice),
            },
    {
        self.inode(1)
    }

    /// Mount a filesystem at the given inode
    pub fn mount_fs_at(&mut self, inode: InodePointer, root: InodePointer, name: String) -> (r: Result<(), FileSystemError>)
        requires
            old(self).wf(),
        ensures
            r is Ok,
            final(self).wf(),
            final(self).mounts() == old(self).mounts().push((inode, root, name)),
            final(self).device_blocks() == old(self).device_blocks(),
            final(self).edits() == old(self).edits(),
            final(self).spec_superblock() == old(self).spec_superblock(),
            final(self).spec_mount_id() == old(self).spec_mount_id(),
    {
        self.mount_inodes.push((inode, root, name));
        Ok(())
    }

    /// Initialize the filesystem: read the superblock from block 1 and
    /// check its magic number.
    pub fn init(&mut self) -> (r: Result<(), FileSystemError>)
        requires
            old(self).wf(),
        ensures
            final(self).wf(),
            final(self).device_blocks() == old(self).device_blocks(),
            final(self).edits() == old(self).edits(),
            final(self).spec_mount_id() == old(self).spec_mount_id(),
            final(self).mounts() == old(self).mounts(),
            ({
                let sb = superblock_of(old(self).block(1));
                if sb.magic == MINIX3_MAGIC {
                    r is Ok && final(self).spec_superblock() == Some(sb)
                } else {
                    r == Err::<(), _>(FileSystemError::BadFilesystemFormat) && final(self).spec_superblock()
                        == old(self).spec_superblock()
                }
            }),
    {
        let raw = self.read_block_to_buffer(1);
        let superblock = Minix3Superblock::parse(raw.as_slice());

        // Make sure the magic is correct
        if superblock.magic != MINIX3_MAGIC {
            return Err(FileSystemError::BadFilesystemFormat);
        }
        self.superblock = Some(superblock);
        Ok(())
    }

    /// Read an inode
    pub fn get_inode(&mut self, inode_number: usize) -> (r: Result<Minix3Inode, FileSystemError>)
        requires
            old(self).wf(),
            old(self).spec_superblock() is Some ==> inode_number >= 1,
        ensures
            final(self).wf(),
            final(self).same_contents(old(self)),
            match old(self).spec_superblock() {
                Some(sb) => r == Ok::<_, FileSystemError>(
                    inode_of(old(self).block(inode_block(sb, inode_number as int)), inode_offset(inode_number as int)),
                ),
                None => r == Err::<Minix3Inode, _>(FileSystemError::UninitializedFilesystem),
            },
    {
        match self.superblock {
            Some(superblock) => {
                // Convert the inode number to a block index
                let block_index = (inode_number - 1) / 16 + 2 + superblock.imap_blocks as usize
                    + superblock.zmap_blocks as usize;

                // Read the block into a buffer
                let buffer = self.read_block_to_buffer(block_index);

                // Read the inode out of the buffer
                let inode = Minix3Inode::parse(buffer.as_slice(), ((inode_number - 1) % 16) * 64);
                Ok(inode)
            },
            None => Err(FileSystemError::UninitializedFilesystem),
        }
    }

    /// Write inode `inode_number`.
    pub(crate) fn set_inode(&mut self, inode_number: usize, inode: Minix3Inode) -> (r: Result<(), FileSystemError>)
        requires
            old(self).wf(),
            old(self).spec_superblock() is Some ==> inode_number >= 1,
        ensures
            match old(self).spec_superblock() {
                Some(sb) => r is Ok && edited(
                    *old(self),
                    *final(self),
                    inode_block(sb, inode_number as int),
                    splice(
                        old(self).block(inode_block(sb, inode_number as int)),
                        inode_offset(inode_number as int),
                        inode_bytes(inode),
                    ),
                ),
                None => r == Err::<(), _>(FileSystemError::UninitializedFilesystem) && *final(self) == *old(self),
            },
    {
        match self.superblock {
            Some(superblock) => {
                let block_index = (inode_number - 1) / 16 + 2 + superblock.imap_blocks as usize
                    + superblock.zmap_blocks as usize;
                let ghost before = self.block(block_index as int);
                let ghost mut d: Seq<u8> = Seq::empty();
                match self.get_mut_buffer(block_index) {
                    Ok(buffer) => {
                        let ghost start = buffer@;
                        inode.write_to(buffer, ((inode_number - 1) % 16) * 64);
                        proof {
                            d = buffer@;
                            assert(start == before);
                        }
                    },
                    Err(_) => {},
                }
                proof {
                    assert(edited(*old(self), *self, block_index as int, d));
                    assert(((inode_number - 1) % 16) * 64 == inode_offset(inode_number as int));
                    assert(inode_block(superblock, inode_number as int) == block_index);
                }
                Ok(())
            },
            None => Err(FileSystemError::UninitializedFilesystem),
        }
    }
}

/// The bytes of `data` that fit in a block from `start` on.
pub open spec fn region_len(start: int, data: Seq<u8>) -> int {
    if start >= 1024 {
        0
    } else if data.len() < 1024 - start {
        data.len() as int
    } else {
        1024 - start
    }
}

/// Block `b` with the bytes of `data` that fit written from `start` on.
pub open spec fn with_region(b: Seq<u8>, start: int, data: Seq<u8>) -> Seq<u8> {
    Seq::new(
        b.len(),
        |j: int| if start <= j < start + region_len(start, data) { data[j - start] } else { b[j] },
    )
}

/// Write the bytes of `new_data` into `data` from `start` on, up to the end
/// of the block.
fn write_region(data: &mut [u8; 1024], start: usize, new_data: &[u8])
    requires
        new_data@.len() > 0 ==> start < 1024,
    ensures
        final(data)@ == with_region(old(data)@, start as int, new_data@),
{
    let mut j: usize = 0;
    while j < new_data.len()
        invariant_except_break
            j > 0 ==> start + j < 1024,
        invariant
            new_data@.len() > 0 ==> start < 1024,
            j <= new_data@.len(),
            j > 0 ==> start + j <= 1024,
            data@.len() == 1024,
            forall|x: int|
                0 <= x < 1024 ==> #[trigger] data@[x] == if start <= x < start + j {
                    new_data@[x - start]
                } else {
                    old(data)@[x]
                },
        ensures
            j == region_len(start as int, new_data@),
            forall|x: int|
                0 <= x < 1024 ==> #[trigger] data@[x] == if start <= x < start + j {
                    new_data@[x - start]
                } else {
                    old(data)@[x]
                },
        decreases new_data@.len() - j,
    {
        data[start + j] = new_data[j];
        j = j + 1;
        if start + j == 1024 {
            break;
        }
    }
    assert(data@ =~= with_region(old(data)@, start as int, new_data@));
}

impl Minix3Filesystem {
    /// Edit the contents at a specific region in the block: the bytes of
    /// `new_data` that fit from `start` on replace those of the block.
    /// Returns the position of the block among the edited blocks.
    pub fn edit_block_region(&mut self, index: usize, start: usize, new_data: &[u8]) -> (r: Result<usize, FileSystemError>)
        requires
            old(self).wf(),
            new_data@.len() > 0 ==> start < 1024,
        ensures
            edited(*old(self), *final(self), index as int, with_region(old(self).block(index as int), start as int, new_data@)),
            match r {
                Ok(k) => first_match(final(self).edits(), index as int, k as int),
                Err(_) => false,
            },
    {
        let mut k: usize = 0;
        while k < self.rewritten.len()
            invariant
                self.wf(),
                *self == *old(self),
                new_data@.len() > 0 ==> start < 1024,
                k <= self.rewritten@.len(),
                forall|j: int| 0 <= j < k ==> #[trigger] self.rewritten@[j].0 != index,
            decreases self.rewritten@.len() - k,
        {
            if self.rewritten[k].0 == index {
                let mut data = self.rewritten[k].1;
                proof {
                    assert(first_match(self.rewritten@, index as int, k as int));
                    lemma_first_match_unique(self.rewritten@, index as int, k as int);
                }
                write_region(&mut data, start, new_data);
                proof {
                    lemma_lookup_update(self.rewritten@, index as int, k as int, data);
                }
                self.rewritten.set(k, (index, data));
                proof {
                    assert(first_match(self.rewritten@, index as int, k as int));
                }
                return Ok(k);
            }
            k = k + 1;
        }
        proof {
            lemma_no_match(self.rewritten@, index as int);
        }
        let mut prev_data = self.read_block_to_buffer(index);
        write_region(&mut prev_data, start, new_data);
        proof {
            lemma_lookup_push(self.rewritten@, index as int, prev_data);
        }
        self.rewritten.push((index, prev_data));
        proof {
            assert(first_match(self.rewritten@, index as int, self.rewritten@.len() - 1));
        }
        Ok(self.rewritten.len() - 1)
    }
}

/// The pointer at slot `k` of an indirect block.
pub open spec fn zone_ptr(b: Seq<u8>, k: int) -> int {
    le32(b, 4 * (k as int))
}

/// The data of the zone tree of depth `level` at `zone`: the block itself
/// at depth 0, else the data of the trees its non-zero pointers lead to,
/// in order.
pub open spec fn zone_data(v: DiskView, zone: int, level: nat) -> Seq<u8>
    decreases level, 0int, 0int,
{
    if level == 0 {
        view_block(v, zone)
    } else {
        children_data(v, view_block(v, zone), 256, (level - 1) as nat)
    }
}

/// The data of the trees of depth `level` that the first `k` pointers of
/// the indirect block `b` lead to.
pub open spec fn children_data(v: DiskView, b: Seq<u8>, k: nat, level: nat) -> Seq<u8>
    decreases level, 1int, k,
{
    if k == 0 {
        Seq::empty()
    } else {
        let p = zone_ptr(b, k - 1);
        children_data(v, b, (k - 1) as nat, level) + if p == 0 {
            Seq::<u8>::empty()
        } else {
            zone_data(v, p, level)
        }
    }
}

/// The data of the first `k` children starts the data of the first `m`.
proof fn lemma_children_prefix(v: DiskView, b: Seq<u8>, k: nat, m: nat, level: nat)
    requires
        k <= m,
    ensures
        exists|t: Seq<u8>| children_data(v, b, m, level) == children_data(v, b, k, level) + t,
    decreases m - k,
{
    if k == m {
        assert(children_data(v, b, m, level) == children_data(v, b, k, level) + Seq::<u8>::empty());
    } else {
        lemma_children_prefix(v, b, k, (m - 1) as nat, level);
        let t = choose|t: Seq<u8>| children_data(v, b, (m - 1) as nat, level) == children_data(v, b, k, level) + t;
        let p = zone_ptr(b, m - 1);
        let x = if p == 0 { Seq::<u8>::empty() } else { zone_data(v, p, level) };
        assert(children_data(v, b, m, level) == children_data(v, b, k, level) + (t + x));
    }
}


/// The state of a read (buffer, next index, bytes still wanted, bytes
/// still to skip) after the bytes `s` go by: while bytes are wanted, the
/// first `offset` are skipped and the next are written.
pub open spec fn consume(st: (Seq<u8>, int, int, int), s: Seq<u8>) -> (Seq<u8>, int, int, int) {
    let (buf, index, remaining, offset) = st;
    if remaining <= 0 {
        st
    } else {
        let skip = if offset < s.len() { offset } else { s.len() as int };
        let n = if remaining < s.len() - skip { remaining } else { s.len() - skip };
        (splice(buf, index, s.subrange(skip, skip + n)), index + n, remaining - n, offset - skip)
    }
}

/// Letting two runs of bytes go by is letting them go by together.
proof fn lemma_consume_compose(st: (Seq<u8>, int, int, int), s1: Seq<u8>, s2: Seq<u8>)
    requires
        st.3 >= 0,
        st.1 >= 0,
        st.1 + st.2 <= st.0.len(),
    ensures
        consume(consume(st, s1), s2) == consume(st, s1 + s2),
{
    let (buf, index, remaining, offset) = st;
    let s = s1 + s2;
    if remaining > 0 {
        let m = consume(st, s1);
        let skip1 = if offset < s1.len() { offset } else { s1.len() as int };
        let n1 = if remaining < s1.len() - skip1 { remaining } else { s1.len() - skip1 };
        if m.2 > 0 {
            // all of s1 went by
            assert(skip1 + n1 == s1.len());
            let skip2 = if m.3 < s2.len() { m.3 } else { s2.len() as int };
            let n2 = if m.2 < s2.len() - skip2 { m.2 } else { s2.len() - skip2 };
            let skip = if offset < s.len() { offset } else { s.len() as int };
            let n = if remaining < s.len() - skip { remaining } else { s.len() - skip };
            assert(skip == skip1 + skip2);
            assert(n == n1 + n2);
            assert(s.subrange(skip, skip + n) =~= s1.subrange(skip1, skip1 + n1) + s2.subrange(skip2, skip2 + n2));
            assert(splice(m.0, index + n1, s2.subrange(skip2, skip2 + n2)) =~= splice(buf, index, s.subrange(skip, skip + n)));
        } else {
            let skip = if offset < s.len() { offset } else { s.len() as int };
            let n = if remaining < s.len() - skip { remaining } else { s.len() - skip };
            assert(skip == skip1 && n == n1);
            assert(s.subrange(skip, skip + n) =~= s1.subrange(skip1, skip1 + n1));
        }
    }
}

/// Once no more bytes are wanted, bytes going by change nothing.
proof fn lemma_consume_done(st: (Seq<u8>, int, int, int), s1: Seq<u8>, s2: Seq<u8>)
    requires
        st.3 >= 0,
        st.1 >= 0,
        st.1 + st.2 <= st.0.len(),
        consume(st, s1).2 <= 0,
    ensures
        consume(st, s1 + s2) == consume(st, s1),
{
    lemma_consume_compose(st, s1, s2);
}

/// Letting no bytes go by changes nothing.
proof fn lemma_consume_empty(st: (Seq<u8>, int, int, int))
    requires
        st.3 >= 0,
    ensures
        consume(st, Seq::empty()) == st,
{
    let (buf, index, remaining, offset) = st;
    if remaining > 0 {
        assert(splice(buf, index, Seq::<u8>::empty().subrange(0, 0)) =~= buf);
    }
}

/// The read state `(buffer, index, remaining, offset)`.
pub open spec fn read_state(buffer: Seq<u8>, index: usize, remaining: usize, offset: usize) -> (Seq<u8>, int, int, int) {
    (buffer, index as int, remaining as int, offset as int)
}

impl Minix3Filesystem {
    /// Read from a possibly nested zone: the data of the zone tree goes by
    /// the read state, which skips `offset` bytes and then writes into
    /// `buffer` from `index` on until `remaining` bytes have been read.
    fn read_zone(
        &mut self,
        zone: usize,
        level: usize,
        buffer: &mut Vec<u8>,
        index: &mut usize,
        remaining: &mut usize,
        offset: &mut usize,
    )
        requires
            old(self).wf(),
            *old(index) + *old(remaining) <= old(buffer)@.len(),
            old(buffer)@.len() <= usize::MAX,
        ensures
            final(self).wf(),
            final(self).same_contents(old(self)),
            final(buffer)@.len() == old(buffer)@.len(),
            *final(index) + *final(remaining) <= final(buffer)@.len(),
            read_state(final(buffer)@, *final(index), *final(remaining), *final(offset)) == consume(
                read_state(old(buffer)@, *old(index), *old(remaining), *old(offset)),
                zone_data(old(self).disk_view(), zone as int, level as nat),
            ),
        decreases level,
    {
        let ghost v = self.disk_view();
        let ghost st0 = read_state(buffer@, *index, *remaining, *offset);
        // If no bytes are left to be read, terminate
        if *remaining == 0 {
            return;
        }
        if level == 0 {
            // Read the block to a buffer
            let data = self.read_block_to_buffer(zone);
            proof {
                lemma_consume_empty(st0);
                assert(data@.take(0) =~= Seq::<u8>::empty());
            }
            // Read byte by byte
            let mut j: usize = 0;
            while j < 1024
                invariant_except_break
                    *remaining > 0,
                invariant
                    self.wf(),
                    self.same_contents(old(self)),
                    data@ == zone_data(v, zone as int, 0),
                    v == old(self).disk_view(),
                    st0 == read_state(old(buffer)@, *old(index), *old(remaining), *old(offset)),
                    st0.2 > 0,
                    st0.1 + st0.2 <= st0.0.len(),
                    st0.3 >= 0,
                    j <= 1024,
                    old(buffer)@.len() <= usize::MAX,
                    buffer@.len() == old(buffer)@.len(),
                    *index + *remaining <= buffer@.len(),
                    read_state(buffer@, *index, *remaining, *offset) == consume(st0, data@.take(j as int)),
                ensures
                    read_state(buffer@, *index, *remaining, *offset) == consume(st0, data@),
                    self.wf(),
                    self.same_contents(old(self)),
                    buffer@.len() == old(buffer)@.len(),
                    *index + *remaining <= buffer@.len(),
                decreases 1024 - j,
            {
                let b = data[j];
                proof {
                    assert(data@.take(j + 1) =~= data@.take(j as int) + seq![b]);
                    lemma_consume_compose(st0, data@.take(j as int), seq![b]);
                }
                if *offset > 0 {
                    *offset = *offset - 1;
                    j = j + 1;
                    continue;
                }
                let ghost before = buffer@;
                buffer.set(*index, b);
                proof {
                    assert(buffer@ =~= splice(before, *index as int, seq![b].subrange(0, 1)));
                }
                *index = *index + 1;
                *remaining = *remaining - 1;
                j = j + 1;
                if *remaining == 0 {
                    proof {
                        assert(data@ =~= data@.take(j as int) + data@.skip(j as int));
                        lemma_consume_done(st0, data@.take(j as int), data@.skip(j as int));
                    }
                    break;
                }
            }
            proof {
                assert(data@.take(1024) =~= data@);
            }
        } else {
            // Read the block to a buffer
            let data = self.read_block_to_buffer(zone);
            let ghost lvl = (level - 1) as nat;
            proof {
                lemma_consume_empty(st0);
            }
            let mut k: usize = 0;
            while k < 256
                invariant_except_break
                    *remaining > 0,
                invariant
                    self.wf(),
                    self.same_contents(old(self)),
                    v == old(self).disk_view(),
                    data@ == view_block(v, zone as int),
                    level > 0,
                    lvl == level - 1,
                    st0 == read_state(old(buffer)@, *old(index), *old(remaining), *old(offset)),
                    st0.2 > 0,
                    st0.1 + st0.2 <= st0.0.len(),
                    st0.3 >= 0,
                    k <= 256,
                    old(buffer)@.len() <= usize::MAX,
                    buffer@.len() == old(buffer)@.len(),
                    *index + *remaining <= buffer@.len(),
                    read_state(buffer@, *index, *remaining, *offset) == consume(st0, children_data(v, data@, k as nat, lvl)),
                ensures
                    read_state(buffer@, *index, *remaining, *offset) == consume(st0, children_data(v, data@, 256, lvl)),
                    self.wf(),
                    self.same_contents(old(self)),
                    buffer@.len() == old(buffer)@.len(),
                    *index + *remaining <= buffer@.len(),
                decreases 256 - k,
            {
                let p = crate::bytes::read_u32(data.as_slice(), 4 * k);
                let ghost prefix = children_data(v, data@, k as nat, lvl);
                // Skip entries which contain zero
                if p == 0 {
                    proof {
                        assert(children_data(v, data@, (k + 1) as nat, lvl) =~= prefix + Seq::<u8>::empty());
                        lemma_consume_compose(st0, prefix, Seq::<u8>::empty());
                        lemma_consume_empty(consume(st0, prefix));
                    }
                    k = k + 1;
                    continue;
                }
                // Otherwise, use it as the zone to go to the next level down
                self.read_zone(p as usize, level - 1, buffer, index, remaining, offset);
                proof {
                    assert(children_data(v, data@, (k + 1) as nat, lvl) == prefix + zone_data(v, p as int, lvl));
                    lemma_consume_compose(st0, prefix, zone_data(v, p as int, lvl));
                }
                k = k + 1;

                // If we are done reading the file, break
                if *remaining == 0 {
                    proof {
                        lemma_children_prefix(v, data@, k as nat, 256, lvl);
                        let t = choose|t: Seq<u8>| children_data(v, data@, 256, lvl) == children_data(v, data@, k as nat, lvl) + t;
                        lemma_consume_done(st0, children_data(v, data@, k as nat, lvl), t);
                    }
                    break;
                }
            }
        }
    }
}

/// The depth of the zone tree of zone slot `i` of an inode: the first seven
/// are direct, then one, two and three levels of indirection.
pub open spec fn zone_level(i: int) -> nat {
    if i < 6 {
        0
    } else {
        (i - 6) as nat
    }
}

/// The data of the non-zero zones among the first `i` zone slots.
pub open spec fn zones_data(v: DiskView, zones: Seq<u32>, i: nat) -> Seq<u8>
    decreases i,
{
    if i == 0 {
        Seq::empty()
    } else {
        let z = zones[i - 1];
        zones_data(v, zones, (i - 1) as nat) + if z == 0 {
            Seq::<u8>::empty()
        } else {
            zone_data(v, z as int, zone_level(i - 1))
        }
    }
}

/// The data of zone slot `z` read at indirection depth `level`: nothing
/// for an empty slot.
pub open spec fn slot_data(v: DiskView, z: u32, level: nat) -> Seq<u8> {
    if z == 0 {
        Seq::empty()
    } else {
        zone_data(v, z as int, level)
    }
}

/// The Minix3 layout of the zones of an inode: the first seven slots are
/// blocks of data, read as they are, the eighth a single indirect block,
/// the ninth a double and the tenth a triple indirect block; the data of
/// the file is theirs in slot order.
pub proof fn lemma_zone_layout(v: DiskView, zones: Seq<u32>)
    requires
        zones.len() == 10,
    ensures
        forall|i: int|
            0 <= i < 7 ==> #[trigger] zones_data(v, zones, (i + 1) as nat) == zones_data(v, zones, i as nat) + (
            if zones[i] == 0 {
                Seq::<u8>::empty()
            } else {
                view_block(v, zones[i] as int)
            }),
        zones_data(v, zones, 10) == zones_data(v, zones, 7) + slot_data(v, zones[7], 1) + slot_data(v, zones[8], 2)
            + slot_data(v, zones[9], 3),
        forall|z: int| #[trigger] zone_data(v, z, 0) == view_block(v, z),
{
    assert forall|i: int|
        0 <= i < 7 implies #[trigger] zones_data(v, zones, (i + 1) as nat) == zones_data(v, zones, i as nat) + (
        if zones[i] == 0 {
            Seq::<u8>::empty()
        } else {
            view_block(v, zones[i] as int)
        }) by {
        assert(zone_level(i) == 0);
    }
    assert(zone_level(7) == 1 && zone_level(8) == 2 && zone_level(9) == 3);
    assert(zones_data(v, zones, 8) == zones_data(v, zones, 7) + slot_data(v, zones[7], 1));
    assert(zones_data(v, zones, 9) == zones_data(v, zones, 8) + slot_data(v, zones[8], 2));
    assert(zones_data(v, zones, 10) == zones_data(v, zones, 9) + slot_data(v, zones[9], 3));
    assert(zones_data(v, zones, 7) + slot_data(v, zones[7], 1) + slot_data(v, zones[8], 2) + slot_data(v, zones[9], 3)
        =~= zones_data(v, zones, 7) + slot_data(v, zones[7], 1) + slot_data(v, zones[8], 2) + slot_data(v, zones[9], 3));
}

/// An indirect block of depth `level + 1` holds 256 little-endian 32-bit
/// zone numbers; its data is that of the trees of depth `level` its
/// non-zero numbers lead to, in order.
pub proof fn lemma_indirect_blocks(v: DiskView, z: int, level: nat, b: Seq<u8>, k: nat)
    requires
        k < 256,
    ensures
        zone_data(v, z, level + 1) == children_data(v, view_block(v, z), 256, level),
        children_data(v, b, k + 1, level) == children_data(v, b, k, level) + (if le32(b, 4 * (k as int)) == 0 {
            Seq::<u8>::empty()
        } else {
            zone_data(v, le32(b, 4 * (k as int)), level)
        }),
        children_data(v, b, 0, level) == Seq::<u8>::empty(),
{
    assert(((level + 1) as nat - 1) as nat == level);
}

/// The contents of a file of `size` bytes whose zones hold `data`: its
/// first bytes, and zeros past the end of the data.
pub open spec fn file_contents(data: Seq<u8>, size: int) -> Seq<u8> {
    Seq::new(size as nat, |j: int| if j < data.len() { data[j] } else { 0u8 })
}

impl Minix3Filesystem {
    /// Read the data from an inode: the bytes of its zones, in order, up to
    /// its size.
    pub fn read_from_inode(&mut self, inode: Minix3Inode) -> (r: Vec<u8>)
        requires
            old(self).wf(),
        ensures
            final(self).wf(),
            final(self).same_contents(old(self)),
            r@ == file_contents(zones_data(old(self).disk_view(), inode.zones@, 10), inode.size as int),
    {
        let ghost v = self.disk_view();
        let mut remaining = inode.size as usize;
        let mut buffer: Vec<u8> = Vec::new();
        let mut z: usize = 0;
        while z < remaining
            invariant
                z <= remaining,
                buffer@ == Seq::new(z as nat, |j: int| 0u8),
            decreases remaining - z,
        {
            buffer.push(0);
            z = z + 1;
            assert(buffer@ =~= Seq::new(z as nat, |j: int| 0u8));
        }
        let mut index: usize = 0;
        let mut offset: usize = 0;
        let ghost st0 = read_state(buffer@, index, remaining, offset);
        proof {
            lemma_consume_empty(st0);
        }
        let mut i: usize = 0;
        while i < 10
            invariant
                self.wf(),
                self.same_contents(old(self)),
                v == old(self).disk_view(),
                st0 == read_state(Seq::new(inode.size as nat, |j: int| 0u8), 0, inode.size as usize, 0),
                i <= 10,
                buffer@.len() == inode.size,
                buffer@.len() <= usize::MAX,
                index + remaining <= buffer@.len(),
                read_state(buffer@, index, remaining, offset) == consume(st0, zones_data(v, inode.zones@, i as nat)),
            decreases 10 - i,
        {
            let zone = inode.zones[i];
            let ghost prefix = zones_data(v, inode.zones@, i as nat);
            if zone != 0 {
                let level = if i < 6 { 0 } else { i - 6 };
                self.read_zone(zone as usize, level, &mut buffer, &mut index, &mut remaining, &mut offset);
                proof {
                    lemma_consume_compose(st0, prefix, zone_data(v, zone as int, zone_level(i as int)));
                }
            } else {
                proof {
                    assert(zones_data(v, inode.zones@, (i + 1) as nat) =~= prefix);
                }
            }
            i = i + 1;
        }
        proof {
            let data = zones_data(v, inode.zones@, 10);
            let n = if inode.size < data.len() { inode.size as int } else { data.len() as int };
            assert(buffer@ =~= file_contents(data, inode.size as int));
        }
        buffer
    }
}

/// The bytes of the characters of `s`, each cut to its low byte.
pub open spec fn char_bytes(s: Seq<char>) -> Seq<u8> {
    Seq::new(s.len(), |i: int| s[i] as u8)
}

/// The inode given to a new file of `len` bytes in zone `zone`.
pub open spec fn new_file_inode(mode: u16, len: int, zone: int) -> Minix3Inode {
    Minix3Inode {
        mode,
        nlinks: 1,
        uid: 0,
        gid: 0,
        size: len as u32,
        atime: 0,
        mtime: 0,
        ctime: 0,
        zones: [zone as u32, 0, 0, 0, 0, 0, 0, 0, 0, 0],
    }
}

/// Allocating a file with contents `chars` (of `len` bytes) and mode
/// `mode` took the filesystem from `a` to `e` through `s1` (inode claimed),
/// `s2` (zone claimed) and `s3` (inode written), and gave `r`: the first
/// free inode and the first free zone are claimed, the inode is written
/// and the characters go to the start of the zone; where no inode or no
/// zone is free, the error is given and what was claimed stays claimed.
pub open spec fn file_allocated(
    a: Minix3Filesystem,
    s1: Minix3Filesystem,
    s2: Minix3Filesystem,
    s3: Minix3Filesystem,
    e: Minix3Filesystem,
    sb: Minix3Superblock,
    chars: Seq<char>,
    len: int,
    mode: u16,
    r: Result<usize, FileSystemError>,
) -> bool {
    let icount = sb.imap_blocks as int;
    let inode_r = choose|x: Result<usize, FileSystemError>| free_entry(a, 2, icount, 1, x);
    match inode_r {
        Err(err) => r == Err::<usize, _>(err) && e.same_contents(&a),
        Ok(n) => {
            &&& edited(a, s1, 2 + (n - 1) / 8192, with_map_bit(a, 2, n - 1, true))
            &&& {
                let zfirst = 2 + sb.imap_blocks;
                let zcount = sb.zmap_blocks as int;
                let zone_r = choose|x: Result<usize, FileSystemError>| free_entry(s1, zfirst, zcount, 0, x);
                match zone_r {
                    Err(err) => r == Err::<usize, _>(err) && e.same_contents(&s1),
                    Ok(z) => {
                        &&& edited(s1, s2, 2 + sb.imap_blocks + z / 8192, with_map_bit(s1, 2 + sb.imap_blocks, z as int, true))
                        &&& edited(
                            s2,
                            s3,
                            inode_block(sb, n as int),
                            splice(s2.block(inode_block(sb, n as int)), inode_offset(n as int), inode_bytes(new_file_inode(mode, len, z as int))),
                        )
                        &&& edited(s3, e, z as int, splice(s3.block(z as int), 0, char_bytes(chars)))
                        &&& r == Ok::<usize, FileSystemError>(n)
                    },
                }
            }
        },
    }
}

/// The outcome of looking for a free entry is determined.
proof fn lemma_free_entry_unique(fs: Minix3Filesystem, first: int, nblocks: int, offset: int, r: Result<usize, FileSystemError>)
    requires
        free_entry(fs, first, nblocks, offset, r),
    ensures
        (choose|x: Result<usize, FileSystemError>| free_entry(fs, first, nblocks, offset, x)) == r,
{
    let c = choose|x: Result<usize, FileSystemError>| free_entry(fs, first, nblocks, offset, x);
    match (c, r) {
        (Ok(a), Ok(b)) => {
            if a < b {
                assert(!map_bit_clear(fs, first, a - offset));
            } else if a > b {
                assert(!map_bit_clear(fs, first, b - offset));
            }
        },
        (Ok(a), Err(_)) => {
            assert(!map_bit_clear(fs, first, a - offset));
        },
        (Err(_), Ok(b)) => {
            assert(!map_bit_clear(fs, first, b - offset));
        },
        (Err(_), Err(_)) => {},
    }
}

impl Minix3Filesystem {
    /// Allocate a file holding the characters of `data` with the given mode:
    /// claim the first free inode and the first free zone, write the inode
    /// and put the characters at the start of the zone. Returns the inode.
    pub fn allocate_file(&mut self, data: &str, mode: u16) -> (r: Result<usize, FileSystemError>)
        requires
            old(self).wf(),
            data@.len() <= 1024,
        ensures
            final(self).wf(),
            match old(self).spec_superblock() {
                None => r == Err::<usize, _>(FileSystemError::UninitializedFilesystem) && final(self).same_contents(old(self)),
                Some(sb) => exists|s1: Minix3Filesystem, s2: Minix3Filesystem, s3: Minix3Filesystem|
                    #[trigger] file_allocated(*old(self), s1, s2, s3, *final(self), sb, data@, data.len() as int, mode, r),
            },
    {
        let ghost a = *self;
        let next_inode = match self.next_free_inode() {
            Ok(n) => n,
            Err(e) => {
                proof {
                    if let Some(sb) = a.spec_superblock() {
                        lemma_free_entry_unique(a, 2, sb.imap_blocks as int, 1, Err(e));
                        assert(file_allocated(a, a, a, a, *self, sb, data@, data.len() as int, mode, Err(e)));
                    }
                }
                return Err(e);
            },
        };
        let sb = self.superblock.unwrap();
        proof {
            lemma_free_entry_unique(a, 2, sb.imap_blocks as int, 1, Ok(next_inode));
        }
        let ghost c0 = *self;
        let _ = self.claim_inode(next_inode);
        let ghost s1 = *self;
        let next_zone = match self.next_free_zone() {
            Ok(z) => z,
            Err(e) => {
                proof {
                    lemma_free_entry_unique(s1, 2 + sb.imap_blocks, sb.zmap_blocks as int, 0, Err(e));
                    assert(file_allocated(a, s1, s1, s1, *self, sb, data@, data.len() as int, mode, Err(e)));
                }
                return Err(e);
            },
        };
        proof {
            lemma_free_entry_unique(s1, 2 + sb.imap_blocks, sb.zmap_blocks as int, 0, Ok(next_zone));
        }
        let _ = self.claim_zone(next_zone);
        let ghost s2 = *self;

        let inode = Minix3Inode {
            mode,
            nlinks: 1,
            uid: 0,
            gid: 0,
            size: data.len() as u32,
            atime: 0,
            mtime: 0,
            ctime: 0,
            zones: [next_zone as u32, 0, 0, 0, 0, 0, 0, 0, 0, 0],
        };
        let _ = self.set_inode(next_inode, inode);
        let ghost s3 = *self;
        let ghost before = self.block(next_zone as int);
        let ghost mut d: Seq<u8> = Seq::empty();
        match self.get_mut_buffer(next_zone) {
            Ok(buffer) => {
                let ghost start = buffer@;
                let mut i: usize = 0;
                for v in it: data.chars()
                    invariant
                        it.seq() == data@,
                        i == it.index(),
                        data@.len() <= 1024,
                        buffer@ == splice(start, 0, char_bytes(data@.take(i as int))),
                        start.len() == 1024,
                {
                    buffer[i] = v as u8;
                    proof {
                        assert(buffer@ =~= splice(start, 0, char_bytes(data@.take(i + 1))));
                    }
                    i = i + 1;
                }
                proof {
                    assert(data@.take(data@.len() as int) =~= data@);
                    d = buffer@;
                }
            },
            Err(_) => {},
        }
        proof {
            assert(edited(s3, *self, next_zone as int, d));
            assert(file_allocated(a, s1, s2, s3, *self, sb, data@, data.len() as int, mode, Ok(next_inode)));
        }
        Ok(next_inode)
    }
}

/// The inode `n` with its size grown by one directory entry.
pub open spec fn grown_by_entry(n: Minix3Inode) -> Minix3Inode {
    Minix3Inode {
        mode: n.mode,
        nlinks: n.nlinks,
        uid: n.uid,
        gid: n.gid,
        size: (n.size + 64) as u32,
        atime: n.atime,
        mtime: n.mtime,
        ctime: n.ctime,
        zones: n.zones,
    }
}

/// The directory whose inode is `n` has room for one more entry: its
/// entries fill less than its first zone's block and its size can grow.
pub open spec fn has_entry_room(n: Minix3Inode) -> bool {
    n.size + 64 <= u32::MAX && n.size / 64 < 16
}

/// Adding entry `entry` to directory `dir` took the filesystem from `a`
/// to `e` through `s1`: the directory's inode grew by an entry, and the
/// entry was written after the last one in the block of its first zone.
pub open spec fn entry_added(
    a: Minix3Filesystem,
    s1: Minix3Filesystem,
    e: Minix3Filesystem,
    sb: Minix3Superblock,
    dir: int,
    entry: Minix3DirEntry,
) -> bool {
    let ib = inode_block(sb, dir);
    let n = inode_of(a.block(ib), inode_offset(dir));
    let zone = n.zones@[0] as int;
    &&& edited(a, s1, ib, splice(a.block(ib), inode_offset(dir), inode_bytes(grown_by_entry(n))))
    &&& edited(s1, e, zone, splice(s1.block(zone), (n.size / 64) * 64, dir_entry_bytes(entry)))
}

/// The name held by the bytes `b`: its characters up to the first zero.
pub open spec fn name_chars(b: Seq<u8>) -> Seq<char>
    decreases b.len(),
{
    if b.len() == 0 || b[0] == 0 {
        Seq::empty()
    } else {
        seq![b[0] as char] + name_chars(b.drop_first())
    }
}

/// The name of the 60 bytes at `o` in `data`, as a string.
fn entry_name(data: &Vec<u8>, o: usize) -> (r: String)
    requires
        o + 64 <= data.len(),
    ensures
        r@ == name_chars(data@.subrange(o + 4, o + 64)),
{
    let mut name = String::new();
    let mut k: usize = 0;
    while k < 60
        invariant
            o + 64 <= data.len(),
            k <= 60,
            name@ + name_chars(data@.subrange(o + 4 + k, o + 64)) == name_chars(data@.subrange(o + 4, o + 64)),
        decreases 60 - k,
    {
        let c = data[o + 4 + k];
        let ghost rest = data@.subrange(o + 4 + k, o + 64);
        if c == 0 {
            proof {
                assert(name_chars(rest) == Seq::<char>::empty());
                assert(name@ + Seq::<char>::empty() =~= name@);
            }
            return name;
        }
        proof {
            assert(rest.drop_first() =~= data@.subrange(o + 4 + k + 1, o + 64));
            assert(name_chars(rest) == seq![c as char] + name_chars(rest.drop_first()));
            assert(name@.push(c as char) + name_chars(rest.drop_first()) =~= name@ + name_chars(rest));
        }
        push_char(&mut name, c as char);
        k = k + 1;
    }
    proof {
        assert(name_chars(data@.subrange(o + 64, o + 64)) == Seq::<char>::empty());
        assert(name@ + Seq::<char>::empty() =~= name@);
    }
    name
}

/// The entries of a Minix3 directory whose contents are `data` and size
/// `size`, on device `dev`: an entry of unknown type for each 64 bytes.
pub open spec fn listed_entry(dev: DeviceIdentifier, data: Seq<u8>, i: int, e: DirectoryEntry) -> bool {
    &&& e.index == InodePointer { device_id: dev, index: le32(data, i * 64) as usize }
    &&& e.name@ == name_chars(data.subrange(i * 64 + 4, i * 64 + 64))
    &&& e.entry_type == DirectoryEntryType::Unknown
}

/// The filesystems mounted on `at` among `mounts`, as directory entries,
/// in order: the entries of `es` from `from` on.
pub open spec fn mounted_entries(mounts: Seq<(InodePointer, InodePointer, String)>, at: InodePointer, es: Seq<DirectoryEntry>) -> bool
    decreases mounts.len(),
{
    if mounts.len() == 0 {
        es.len() == 0
    } else {
        let m = mounts.last();
        if m.0 == at {
            es.len() > 0 && mounted_entries(mounts.drop_last(), at, es.drop_last()) && es.last().index == m.1
                && es.last().name@ == m.2@ && es.last().entry_type == DirectoryEntryType::Directory
        } else {
            mounted_entries(mounts.drop_last(), at, es)
        }
    }
}

impl Minix3Filesystem {
    /// Add a directory entry at the given inode
    pub fn add_directory_entry_raw(&mut self, inode: usize, entry: Minix3DirEntry) -> (r: Result<(), FileSystemError>)
        requires
            old(self).wf(),
            old(self).spec_superblock() matches Some(sb) ==> inode >= 1 && has_entry_room(
                inode_of(old(self).block(inode_block(sb, inode as int)), inode_offset(inode as int)),
            ),
        ensures
            final(self).wf(),
            match old(self).spec_superblock() {
                None => r == Err::<(), _>(FileSystemError::UninitializedFilesystem) && final(self).same_contents(old(self)),
                Some(sb) => r is Ok && exists|s1: Minix3Filesystem|
                    #[trigger] entry_added(*old(self), s1, *final(self), sb, inode as int, entry),
            },
    {
        let ghost a = *self;
        // Read the inode
        let mut node = match self.get_inode(inode) {
            Ok(n) => n,
            Err(e) => return Err(e),
        };
        let sb = self.superblock.unwrap();
        // The number of entries before this one
        let orig_entry_count = node.size / 64;
        // Increment the size
        node.size = node.size + 64;
        let _ = self.set_inode(inode, node);
        let ghost s1 = *self;
        let zone = node.zones[0];
        let ghost mut d: Seq<u8> = Seq::empty();
        match self.get_mut_buffer(zone as usize) {
            Ok(buffer) => {
                entry.write_to(buffer, (orig_entry_count as usize) * 64);
                proof {
                    d = buffer@;
                }
            },
            Err(_) => {},
        }
        proof {
            assert(edited(s1, *self, zone as int, d));
            assert(entry_added(a, s1, *self, sb, inode as int, entry));
        }
        Ok(())
    }

    /// Add a directory entry from the inode and name to the given inode
    pub fn add_directory_entry(&mut self, dest: usize, inode: usize, name: &str) -> (r: Result<(), FileSystemError>)
        requires
            old(self).wf(),
            name@.len() <= 60,
            old(self).spec_superblock() matches Some(sb) ==> dest >= 1 && has_entry_room(
                inode_of(old(self).block(inode_block(sb, dest as int)), inode_offset(dest as int)),
            ),
        ensures
            final(self).wf(),
            match old(self).spec_superblock() {
                None => r == Err::<(), _>(FileSystemError::UninitializedFilesystem) && final(self).same_contents(old(self)),
                Some(sb) => r is Ok && exists|s1: Minix3Filesystem, entry: Minix3DirEntry|
                    #[trigger] entry_added(*old(self), s1, *final(self), sb, dest as int, entry) && entry.inode == inode
                        as u32 && entry.name@ == char_bytes(name@) + Seq::new((60 - name@.len()) as nat, |i: int| 0u8),
            },
    {
        let mut ent = Minix3DirEntry { inode: inode as u32, name: [0u8; 60] };
        let mut i: usize = 0;
        for c in it: name.chars()
            invariant
                it.seq() == name@,
                i == it.index(),
                name@.len() <= 60,
                ent.inode == inode as u32,
                ent.name@ == char_bytes(name@.take(i as int)) + Seq::new((60 - i) as nat, |j: int| 0u8),
        {
            ent.name[i] = c as u8;
            proof {
                assert(ent.name@ =~= char_bytes(name@.take(i + 1)) + Seq::new((60 - (i + 1)) as nat, |j: int| 0u8));
            }
            i = i + 1;
        }
        proof {
            assert(name@.take(name@.len() as int) =~= name@);
        }
        self.add_directory_entry_raw(dest, ent)
    }

    /// Read the data stored in an inode
    pub fn read_inode(&mut self, inode: InodePointer) -> (r: Result<Vec<u8>, FileSystemError>)
        requires
            old(self).wf(),
            old(self).spec_mount_id() == Some(inode.device_id) && old(self).spec_superblock() is Some ==> inode.index
                >= 1,
        ensures
            final(self).wf(),
            final(self).same_contents(old(self)),
            if old(self).spec_mount_id() == Some(inode.device_id) {
                match old(self).spec_superblock() {
                    None => r == Err::<Vec<u8>, _>(FileSystemError::UninitializedFilesystem),
                    Some(sb) => {
                        let n = inode_of(old(self).block(inode_block(sb, inode.index as int)), inode_offset(inode.index as int));
                        r is Ok && r->Ok_0@ == file_contents(zones_data(old(self).disk_view(), n.zones@, 10), n.size as int)
                    },
                }
            } else {
                r == Err::<Vec<u8>, _>(FileSystemError::UnmountedDevice)
            },
    {
        if self.mount_id == Some(inode.device_id) {
            let node = match self.get_inode(inode.index) {
                Ok(n) => n,
                Err(e) => return Err(e),
            };
            Ok(self.read_from_inode(node))
        } else {
            Err(FileSystemError::UnmountedDevice)
        }
    }

    /// Get the directory entries for the given inode: one for each entry of
    /// the directory, then one for each filesystem mounted on it.
    pub fn get_dir_entries(&mut self, inode: InodePointer) -> (r: Result<Vec<DirectoryEntry>, FileSystemError>)
        requires
            old(self).wf(),
            old(self).spec_mount_id() == Some(inode.device_id) && old(self).spec_superblock() is Some ==> inode.index
                >= 1,
        ensures
            final(self).wf(),
            final(self).same_contents(old(self)),
            if old(self).spec_mount_id() == Some(inode.device_id) {
                match old(self).spec_superblock() {
                    None => r == Err::<Vec<DirectoryEntry>, _>(FileSystemError::UninitializedFilesystem),
                    Some(sb) => {
                        let n = inode_of(old(self).block(inode_block(sb, inode.index as int)), inode_offset(inode.index as int));
                        let data = file_contents(zones_data(old(self).disk_view(), n.zones@, 10), n.size as int);
                        if n.mode & 0x4000 == 0 {
                            r == Err::<Vec<DirectoryEntry>, _>(FileSystemError::InodeIsADirectory(inode))
                        } else {
                            &&& r is Ok
                            &&& r->Ok_0@.len() >= n.size / 64
                            &&& forall|i: int| 0 <= i < n.size / 64 ==> #[trigger] listed_entry(inode.device_id, data, i, r->Ok_0@[i])
                            &&& mounted_entries(old(self).mounts(), inode, r->Ok_0@.skip((n.size / 64) as int))
                        }
                    },
                }
            } else {
                r == Err::<Vec<DirectoryEntry>, _>(FileSystemError::UnmountedDevice)
            },
    {
        if self.mount_id != Some(inode.device_id) {
            return Err(FileSystemError::UnmountedDevice);
        }
        let inode_data = match self.get_inode(inode.index) {
            Ok(n) => n,
            Err(e) => return Err(e),
        };
        if inode_data.mode & 0x4000 == 0 {
            return Err(FileSystemError::InodeIsADirectory(inode));
        }
        let data = self.read_from_inode(inode_data);
        let count = inode_data.size as usize / 64;

        let mut result: Vec<DirectoryEntry> = Vec::new();
        let mut i: usize = 0;
        while i < count
            invariant
                i <= count,
                count == inode_data.size / 64,
                data@.len() == inode_data.size,
                result@.len() == i,
                forall|j: int| 0 <= j < i ==> #[trigger] listed_entry(inode.device_id, data@, j, result@[j]),
            decreases count - i,
        {
            let entry_inode = crate::bytes::read_u32(data.as_slice(), i * 64);
            let name = entry_name(&data, i * 64);
            result.push(
                DirectoryEntry {
                    index: InodePointer { device_id: inode.device_id, index: entry_inode as usize },
                    name,
                    entry_type: DirectoryEntryType::Unknown,
                },
            );
            i = i + 1;
        }

        // Add any mounted filesystems
        let ghost listed = result@;
        let mut m: usize = 0;
        while m < self.mount_inodes.len()
            invariant
                m <= self.mount_inodes@.len(),
                result@.len() >= count,
                result@.take(count as int) == listed,
                listed.len() == count,
                mounted_entries(self.mount_inodes@.take(m as int), inode, result@.skip(count as int)),
            decreases self.mount_inodes@.len() - m,
        {
            let ghost before = result@;
            let place = self.mount_inodes[m].0;
            if place == inode {
                let root = self.mount_inodes[m].1;
                let name = self.mount_inodes[m].2.clone();
                result.push(DirectoryEntry { index: root, name, entry_type: DirectoryEntryType::Directory });
                proof {
                    assert(self.mount_inodes@.take(m + 1).drop_last() =~= self.mount_inodes@.take(m as int));
                    assert(result@.skip(count as int).drop_last() =~= before.skip(count as int));
                    assert(result@.take(count as int) =~= before.take(count as int));
                }
            } else {
                proof {
                    assert(self.mount_inodes@.take(m + 1).drop_last() =~= self.mount_inodes@.take(m as int));
                }
            }
            m = m + 1;
        }
        proof {
            assert(self.mount_inodes@.take(self.mount_inodes@.len() as int) =~= self.mount_inodes@);
            assert forall|j: int| 0 <= j < count implies #[trigger] listed_entry(inode.device_id, data@, j, result@[j]) by {
                assert(result@[j] == result@.take(count as int)[j]);
            }
        }
        Ok(result)
    }
}

/// The inode `n` with its size set to `size`.
pub open spec fn resized(n: Minix3Inode, size: u32) -> Minix3Inode {
    Minix3Inode {
        mode: n.mode,
        nlinks: n.nlinks,
        uid: n.uid,
        gid: n.gid,
        size,
        atime: n.atime,
        mtime: n.mtime,
        ctime: n.ctime,
        zones: n.zones,
    }
}

impl Minix3Filesystem {
    /// Write data to an inode: its size becomes the data's length and the
    /// data goes to the start of its first zone, as far as the block holds.
    #[verifier::rlimit(30)]
    pub fn write_inode(&mut self, inode: InodePointer, data: &[u8]) -> (r: Result<(), FileSystemError>)
        requires
            old(self).wf(),
            old(self).spec_mount_id() == Some(inode.device_id) && old(self).spec_superblock() is Some ==> inode.index
                >= 1,
        ensures
            final(self).wf(),
            if old(self).spec_mount_id() == Some(inode.device_id) {
                match old(self).spec_superblock() {
                    None => r == Err::<(), _>(FileSystemError::UninitializedFilesystem) && final(self).same_contents(old(self)),
                    Some(sb) => {
                        let ib = inode_block(sb, inode.index as int);
                        let n = inode_of(old(self).block(ib), inode_offset(inode.index as int));
                        r is Ok && exists|s1: Minix3Filesystem|
                            #[trigger] edited(
                                *old(self),
                                s1,
                                ib,
                                splice(old(self).block(ib), inode_offset(inode.index as int), inode_bytes(resized(n, data@.len() as u32))),
                            ) && edited(s1, *final(self), n.zones@[0] as int, with_region(s1.block(n.zones@[0] as int), 0, data@))
                    },
                }
            } else {
                r == Err::<(), _>(FileSystemError::UnmountedDevice) && *final(self) == *old(self)
            },
    {
        if self.mount_id != Some(inode.device_id) {
            return Err(FileSystemError::UnmountedDevice);
        }
        let ghost a = *self;
        let mut node = match self.get_inode(inode.index) {
            Ok(n) => n,
            Err(e) => return Err(e),
        };
        let ghost n0 = node;
        node.size = data.len() as u32;
        assert(node == resized(n0, data@.len() as u32));
        let _ = self.set_inode(inode.index, node);
        let ghost s1 = *self;
        let zone = node.zones[0];
        let _ = self.edit_block_region(zone as usize, 0, data);
        proof {
            let sb = a.spec_superblock()->Some_0;
            let ib = inode_block(sb, inode.index as int);
            assert(n0 == inode_of(a.block(ib), inode_offset(inode.index as int)));
            assert(edited(
                a,
                s1,
                ib,
                splice(a.block(ib), inode_offset(inode.index as int), inode_bytes(resized(n0, data@.len() as u32))),
            ));
            assert(edited(s1, *self, n0.zones@[0] as int, with_region(s1.block(n0.zones@[0] as int), 0, data@)));
        }
        Ok(())
    }
}

/// The name of a directory's entry for itself.
pub open spec fn dot_name() -> Seq<char> {
    seq!['.']
}

/// The name of a directory's entry for its parent.
pub open spec fn dotdot_name() -> Seq<char> {
    seq!['.', '.']
}

/// Allocating an empty file of mode `mode` took the filesystem from `a` to
/// `e` and gave the inode `n`.
#[verifier::opaque]
pub open spec fn allocated_empty(a: Minix3Filesystem, e: Minix3Filesystem, sb: Minix3Superblock, mode: u16, n: usize) -> bool {
    exists|s1: Minix3Filesystem, s2: Minix3Filesystem, s3: Minix3Filesystem|
        #[trigger] file_allocated(a, s1, s2, s3, e, sb, Seq::empty(), 0, mode, Ok(n))
}

/// Allocating an empty file of mode `mode` in `a` failed with `err`,
/// leaving `e`.
#[verifier::opaque]
pub open spec fn allocation_failed(a: Minix3Filesystem, e: Minix3Filesystem, sb: Minix3Superblock, mode: u16, err: FileSystemError) -> bool {
    exists|s1: Minix3Filesystem, s2: Minix3Filesystem, s3: Minix3Filesystem|
        #[trigger] file_allocated(a, s1, s2, s3, e, sb, Seq::empty(), 0, mode, Err(err))
}

/// An entry for inode `inode` named `name` was added to directory `dir`,
/// taking the filesystem from `a` to `e`.
#[verifier::opaque]
pub open spec fn entry_made(a: Minix3Filesystem, e: Minix3Filesystem, sb: Minix3Superblock, dir: int, inode: usize, name: Seq<char>) -> bool {
    exists|s1: Minix3Filesystem, entry: Minix3DirEntry|
        #[trigger] entry_added(a, s1, e, sb, dir, entry) && entry.inode == inode as u32 && entry.name@ == char_bytes(name)
            + Seq::new((60 - name.len()) as nat, |i: int| 0u8)
}

/// Directory `dir` of `fs` has room for one more entry.
pub open spec fn dir_has_room(fs: Minix3Filesystem, sb: Minix3Superblock, dir: int) -> bool {
    dir >= 1 && has_entry_room(inode_of(fs.block(inode_block(sb, dir)), inode_offset(dir)))
}

/// The mode of a new file.
pub const FILE_MODE: u16 = 0o777;

/// The mode of a new directory.
pub const DIRECTORY_MODE: u16 = 0x4000 | 0o777;

/// A file can be made in directory `dest` of `a`: once the file is
/// allocated, `dest` has room for its entry.
#[verifier::opaque]
pub open spec fn file_creatable(a: Minix3Filesystem, sb: Minix3Superblock, dest: int) -> bool {
    forall|e: Minix3Filesystem, n: usize| #[trigger] allocated_empty(a, e, sb, FILE_MODE, n) ==> dir_has_room(e, sb, dest)
}

/// A directory can be made in directory `dest` of `a`: once it is
/// allocated, it has room for its `.` entry, then for its `..` entry, and
/// then `dest` has room for its entry.
#[verifier::opaque]
pub open spec fn directory_creatable(a: Minix3Filesystem, sb: Minix3Superblock, dest: usize) -> bool {
    forall|e1: Minix3Filesystem, n: usize| #[trigger] allocated_empty(a, e1, sb, DIRECTORY_MODE, n) ==> {
        &&& dir_has_room(e1, sb, n as int)
        &&& forall|e2: Minix3Filesystem| #[trigger] entry_made(e1, e2, sb, n as int, n, dot_name()) ==> {
            &&& dir_has_room(e2, sb, n as int)
            &&& forall|e3: Minix3Filesystem| #[trigger] entry_made(e2, e3, sb, n as int, dest, dotdot_name()) ==> dir_has_room(e3, sb, dest as int)
        }
    }
}

impl Minix3Filesystem {
    /// Allocate an empty file of mode `mode`.
    fn allocate_empty(&mut self, mode: u16) -> (r: Result<usize, FileSystemError>)
        requires
            old(self).wf(),
            old(self).spec_superblock() is Some,
        ensures
            final(self).wf(),
            final(self).spec_superblock() == old(self).spec_superblock(),
            final(self).spec_mount_id() == old(self).spec_mount_id(),
            match r {
                Ok(n) => allocated_empty(*old(self), *final(self), old(self).spec_superblock()->Some_0, mode, n),
                Err(e) => allocation_failed(*old(self), *final(self), old(self).spec_superblock()->Some_0, mode, e),
            },
    {
        let empty = "";
        proof {
            reveal_strlit("");
            vstd::string::is_ascii_spec_bytes(empty);
            assert(empty@ =~= Seq::<char>::empty());
            assert(vstd::string::is_ascii(empty));
            assert(empty.len() == 0);
            reveal(allocated_empty);
            reveal(allocation_failed);
        }
        self.allocate_file(empty, mode)
    }

    /// Add an entry for `inode` named `name` to the directory `dir`.
    fn add_entry(&mut self, dir: usize, inode: usize, name: &str)
        requires
            old(self).wf(),
            name@.len() <= 60,
            old(self).spec_superblock() matches Some(sb) && dir_has_room(*old(self), sb, dir as int),
        ensures
            final(self).wf(),
            final(self).spec_superblock() == old(self).spec_superblock(),
            final(self).spec_mount_id() == old(self).spec_mount_id(),
            entry_made(*old(self), *final(self), old(self).spec_superblock()->Some_0, dir as int, inode, name@),
    {
        let _ = self.add_directory_entry(dir, inode, name);
        proof {
            reveal(entry_made);
        }
    }

    /// Allocate a new directory named `name` in the directory `dest`: an
    /// empty directory file with the entries `.` (itself) and `..`
    /// (`dest`), and its entry in `dest`. Returns its inode.
    #[verifier::rlimit(50)]
    #[verifier::spinoff_prover]
    pub fn new_directory(&mut self, dest: usize, name: &str) -> (r: Result<usize, FileSystemError>)
        requires
            old(self).wf(),
            name@.len() <= 60,
            old(self).spec_superblock() matches Some(sb) ==> directory_creatable(*old(self), sb, dest),
        ensures
            final(self).wf(),
            match old(self).spec_superblock() {
                None => r == Err::<usize, _>(FileSystemError::UninitializedFilesystem) && final(self).same_contents(old(self)),
                Some(sb) => {
                    ||| exists|err: FileSystemError|
                        #[trigger] allocation_failed(*old(self), *final(self), sb, DIRECTORY_MODE, err) && r == Err::<usize, _>(err)
                    ||| exists|e1: Minix3Filesystem, n: usize, e2: Minix3Filesystem, e3: Minix3Filesystem|
                        #![trigger allocated_empty(*old(self), e1, sb, DIRECTORY_MODE, n), entry_made(e2, e3, sb, n as int, dest, dotdot_name())]
                        allocated_empty(*old(self), e1, sb, DIRECTORY_MODE, n) && entry_made(e1, e2, sb, n as int, n, dot_name())
                            && entry_made(e2, e3, sb, n as int, dest, dotdot_name()) && entry_made(e3, *final(self), sb, dest as int, n, name@)
                            && r == Ok::<usize, FileSystemError>(n)
                },
            },
    {
        if self.superblock.is_none() {
            return Err(FileSystemError::UninitializedFilesystem);
        }
        let sb = self.superblock.unwrap();
        let ghost a = *self;
        let inode = match self.allocate_empty(DIRECTORY_MODE) {
            Ok(n) => n,
            Err(e) => return Err(e),
        };
        let ghost e1 = *self;
        proof {
            assert(dir_has_room(e1, sb, inode as int)) by {
                reveal(directory_creatable);
            }
        }
        let dot = ".";
        let dotdot = "..";
        proof {
            reveal_strlit(".");
            reveal_strlit("..");
            assert(dot@ =~= dot_name());
            assert(dotdot@ =~= dotdot_name());
        }
        self.add_entry(inode, inode, dot);
        let ghost e2 = *self;
        proof {
            assert(dir_has_room(e2, sb, inode as int)) by {
                reveal(directory_creatable);
            }
        }
        self.add_entry(inode, dest, dotdot);
        let ghost e3 = *self;
        proof {
            assert(dir_has_room(e3, sb, dest as int)) by {
                reveal(directory_creatable);
            }
        }
        self.add_entry(dest, inode, name);
        proof {
            assert(allocated_empty(a, e1, sb, DIRECTORY_MODE, inode));
            assert(entry_made(e1, e2, sb, inode as int, inode, dot_name()));
            assert(entry_made(e2, e3, sb, inode as int, dest, dotdot_name()));
            assert(entry_made(e3, *self, sb, dest as int, inode, name@));
        }
        Ok(inode)
    }

    /// Create a file named `name` in the directory at the given inode: an
    /// empty file of mode `0o777` with its entry in the directory.
    pub fn create_file(&mut self, inode: InodePointer, name: &str) -> (r: Result<InodePointer, FileSystemError>)
        requires
            old(self).wf(),
            name@.len() <= 60,
            old(self).spec_mount_id() == Some(inode.device_id) ==> (old(self).spec_superblock() matches Some(sb)
                ==> file_creatable(*old(self), sb, inode.index as int)),
        ensures
            final(self).wf(),
            if old(self).spec_mount_id() == Some(inode.device_id) {
                match old(self).spec_superblock() {
                    None => r == Err::<InodePointer, _>(FileSystemError::UninitializedFilesystem) && final(self).same_contents(old(self)),
                    Some(sb) => {
                        ||| exists|err: FileSystemError|
                            #[trigger] allocation_failed(*old(self), *final(self), sb, FILE_MODE, err) && r == Err::<InodePointer, _>(err)
                        ||| exists|e: Minix3Filesystem, n: usize|
                            #[trigger] allocated_empty(*old(self), e, sb, FILE_MODE, n) && entry_made(e, *final(self), sb, inode.index as int, n, name@)
                                && r == Ok::<InodePointer, FileSystemError>(InodePointer { device_id: inode.device_id, index: n })
                    },
                }
            } else {
                r == Err::<InodePointer, _>(FileSystemError::UnmountedDevice) && *final(self) == *old(self)
            },
    {
        if self.mount_id != Some(inode.device_id) {
            return Err(FileSystemError::UnmountedDevice);
        }
        if self.superblock.is_none() {
            return Err(FileSystemError::UninitializedFilesystem);
        }
        let sb = self.superblock.unwrap();
        let file_inode = match self.allocate_empty(FILE_MODE) {
            Ok(n) => n,
            Err(e) => return Err(e),
        };
        let ghost e1 = *self;
        proof {
            assert(dir_has_room(e1, sb, inode.index as int)) by {
                reveal(file_creatable);
            }
        }
        self.add_entry(inode.index, file_inode, name);
        Ok(InodePointer { device_id: inode.device_id, index: file_inode })
    }

    /// Create a directory named `name` in the directory at the given inode.
    pub fn create_directory(&mut self, inode: InodePointer, name: &str) -> (r: Result<InodePointer, FileSystemError>)
        requires
            old(self).wf(),
            name@.len() <= 60,
            old(self).spec_mount_id() == Some(inode.device_id) ==> (old(self).spec_superblock() matches Some(sb)
                ==> directory_creatable(*old(self), sb, inode.index)),
        ensures
            final(self).wf(),
            if old(self).spec_mount_id() == Some(inode.device_id) {
                match old(self).spec_superblock() {
                    None => r == Err::<InodePointer, _>(FileSystemError::UninitializedFilesystem) && final(self).same_contents(old(self)),
                    Some(sb) => {
                        ||| exists|err: FileSystemError|
                            #[trigger] allocation_failed(*old(self), *final(self), sb, DIRECTORY_MODE, err) && r == Err::<InodePointer, _>(err)
                        ||| exists|e1: Minix3Filesystem, n: usize, e2: Minix3Filesystem, e3: Minix3Filesystem|
                            #![trigger allocated_empty(*old(self), e1, sb, DIRECTORY_MODE, n), entry_made(e2, e3, sb, n as int, inode.index, dotdot_name())]
                            allocated_empty(*old(self), e1, sb, DIRECTORY_MODE, n) && entry_made(e1, e2, sb, n as int, n, dot_name())
                                && entry_made(e2, e3, sb, n as int, inode.index, dotdot_name()) && entry_made(e3, *final(self), sb, inode.index as int, n, name@)
                                && r == Ok::<InodePointer, FileSystemError>(InodePointer { device_id: inode.device_id, index: n })
                    },
                }
            } else {
                r == Err::<InodePointer, _>(FileSystemError::UnmountedDevice) && *final(self) == *old(self)
            },
    {
        if self.mount_id != Some(inode.device_id) {
            return Err(FileSystemError::UnmountedDevice);
        }
        match self.new_directory(inode.index, name) {
            Ok(n) => Ok(InodePointer { device_id: inode.device_id, index: n }),
            Err(e) => Err(e),
        }
    }
}

/// The data of the first zone slot starts the data of the first `i`.
proof fn lemma_zones_prefix(v: DiskView, zones: Seq<u32>, i: nat)
    requires
        i >= 1,
    ensures
        exists|t: Seq<u8>| zones_data(v, zones, i) == zones_data(v, zones, 1) + t,
    decreases i,
{
    if i == 1 {
        assert(zones_data(v, zones, 1) == zones_data(v, zones, 1) + Seq::<u8>::empty());
    } else {
        lemma_zones_prefix(v, zones, (i - 1) as nat);
        let t = choose|t: Seq<u8>| zones_data(v, zones, (i - 1) as nat) == zones_data(v, zones, 1) + t;
        let z = zones[i - 1];
        let x = if z == 0 {
            Seq::<u8>::empty()
        } else {
            zone_data(v, z as int, zone_level(i - 1))
        };
        assert(zones_data(v, zones, i) =~= zones_data(v, zones, 1) + (t + x));
    }
}

/// Data written to an inode reads back: after the inode is resized and the
/// data written to the start of its first zone (a zone of its own, not the
/// block holding the inode), the inode holds the new size and its contents
/// are the data.
pub proof fn lemma_write_then_read(
    a: Minix3Filesystem,
    s1: Minix3Filesystem,
    e: Minix3Filesystem,
    sb: Minix3Superblock,
    index: int,
    data: Seq<u8>,
)
    requires
        index >= 1,
        data.len() <= 1024,
        inode_of(a.block(inode_block(sb, index)), inode_offset(index)).zones@[0] != 0,
        inode_of(a.block(inode_block(sb, index)), inode_offset(index)).zones@[0] != inode_block(sb, index),
        edited(
            a,
            s1,
            inode_block(sb, index),
            splice(
                a.block(inode_block(sb, index)),
                inode_offset(index),
                inode_bytes(resized(inode_of(a.block(inode_block(sb, index)), inode_offset(index)), data.len() as u32)),
            ),
        ),
        edited(
            s1,
            e,
            inode_of(a.block(inode_block(sb, index)), inode_offset(index)).zones@[0] as int,
            with_region(s1.block(inode_of(a.block(inode_block(sb, index)), inode_offset(index)).zones@[0] as int), 0, data),
        ),
    ensures
        inode_of(e.block(inode_block(sb, index)), inode_offset(index)) == resized(
            inode_of(a.block(inode_block(sb, index)), inode_offset(index)),
            data.len() as u32,
        ),
        file_contents(
            zones_data(e.disk_view(), inode_of(a.block(inode_block(sb, index)), inode_offset(index)).zones@, 10),
            data.len() as int,
        ) == data,
{
    let ib = inode_block(sb, index);
    let off = inode_offset(index);
    let n = inode_of(a.block(ib), off);
    let m = resized(n, data.len() as u32);
    let z0 = n.zones@[0] as int;
    let written = splice(a.block(ib), off, inode_bytes(m));
    let d = with_region(s1.block(z0), 0, data);
    lemma_edited_reads_back(a, s1, ib, written);
    lemma_edited_reads_back(s1, e, z0, d);
    assert(e.block(ib) == s1.block(ib));
    lemma_block_len(a, ib);
    assert(0 <= off && off + 64 <= 1024);
    lemma_inode_roundtrip(a.block(ib), off, m);
    lemma_block_len(s1, z0);
    let v = e.disk_view();
    lemma_zones_prefix(v, n.zones@, 10);
    let t = choose|t: Seq<u8>| zones_data(v, n.zones@, 10) == zones_data(v, n.zones@, 1) + t;
    assert(zones_data(v, n.zones@, 1) =~= d) by {
        assert(zones_data(v, n.zones@, 0) == Seq::<u8>::empty());
        assert(zone_data(v, z0, 0) == view_block(v, z0));
        assert(view_block(v, z0) == e.block(z0));
    }
    assert(region_len(0, data) == data.len());
    assert(file_contents(zones_data(v, n.zones@, 10), data.len() as int) =~= data);
}

} // verus!
