//! The on-disk structures of a Minix3 filesystem: the superblock, inodes and
//! directory entries, read from and written to block bytes.
use vstd::prelude::*;

use crate::bytes::{le16, le32, lemma_splice_concat, read_u16, read_u32, splice, u16_bytes, u32_bytes, write_u16, write_u32};

verus! {

/// Minix3 Superblock
#[derive(Clone, Copy, Debug)]
pub struct Minix3Superblock {
    pub ninodes: u32,
    pub pad0: u16,
    pub imap_blocks: u16,
    pub zmap_blocks: u16,
    pub first_data_zone: u16,
    pub log_zone_size: u16,
    pub pad1: u16,
    pub max_size: u32,
    pub zones: u32,
    pub magic: u16,
    pub pad2: u16,
    pub block_size: u16,
    pub disk_version: u8,
}

/// Minix3 Inode
#[derive(Clone, Copy, Debug)]
pub struct Minix3Inode {
    pub mode: u16,
    pub nlinks: u16,
    pub uid: u16,
    pub gid: u16,
    pub size: u32,
    pub atime: u32,
    pub mtime: u32,
    pub ctime: u32,
    pub zones: [u32; 10],
}

/// Minix3 Stat Data
#[derive(Clone, Copy, Debug)]
pub struct Minix3StatData {
    pub mode: u16,
    pub nlinks: u16,
    pub uid: u16,
    pub gid: u16,
    pub size: u32,
    pub atime: u32,
    pub mtime: u32,
    pub ctime: u32,
}

/// Directory entry inode
#[derive(Clone, Copy, Debug)]
pub struct Minix3DirEntry {
    pub inode: u32,
    pub name: [u8; 60],
}

/// Size of an inode on disk.
pub const INODE_SIZE: usize = 64;

/// Size of a directory entry on disk.
pub const DIR_ENTRY_SIZE: usize = 64;

/// The magic number of a Minix3 superblock.
pub const MINIX3_MAGIC: u16 = 0x4d5a;

/// The superblock read from the bytes `b`.
pub open spec fn superblock_of(b: Seq<u8>) -> Minix3Superblock {
    Minix3Superblock {
        ninodes: le32(b, 0) as u32,
        pad0: le16(b, 4) as u16,
        imap_blocks: le16(b, 6) as u16,
        zmap_blocks: le16(b, 8) as u16,
        first_data_zone: le16(b, 10) as u16,
        log_zone_size: le16(b, 12) as u16,
        pad1: le16(b, 14) as u16,
        max_size: le32(b, 16) as u32,
        zones: le32(b, 20) as u32,
        magic: le16(b, 24) as u16,
        pad2: le16(b, 26) as u16,
        block_size: le16(b, 28) as u16,
        disk_version: b[30],
    }
}

/// The inode read from the 64 bytes of `b` at `o`.
pub open spec fn inode_of(b: Seq<u8>, o: int) -> Minix3Inode {
    Minix3Inode {
        mode: le16(b, o) as u16,
        nlinks: le16(b, o + 2) as u16,
        uid: le16(b, o + 4) as u16,
        gid: le16(b, o + 6) as u16,
        size: le32(b, o + 8) as u32,
        atime: le32(b, o + 12) as u32,
        mtime: le32(b, o + 16) as u32,
        ctime: le32(b, o + 20) as u32,
        zones: [
            le32(b, o + 24) as u32,
            le32(b, o + 28) as u32,
            le32(b, o + 32) as u32,
            le32(b, o + 36) as u32,
            le32(b, o + 40) as u32,
            le32(b, o + 44) as u32,
            le32(b, o + 48) as u32,
            le32(b, o + 52) as u32,
            le32(b, o + 56) as u32,
            le32(b, o + 60) as u32,
        ],
    }
}

/// The bytes of the first `i` zone numbers.
pub open spec fn zones_bytes(zones: Seq<u32>, i: nat) -> Seq<u8>
    decreases i,
{
    if i == 0 {
        Seq::empty()
    } else {
        zones_bytes(zones, (i - 1) as nat) + u32_bytes(zones[i - 1])
    }
}

/// The bytes of the fields of an inode before its zones.
pub open spec fn inode_head_bytes(n: Minix3Inode) -> Seq<u8> {
    u16_bytes(n.mode) + u16_bytes(n.nlinks) + u16_bytes(n.uid) + u16_bytes(n.gid) + u32_bytes(n.size)
        + u32_bytes(n.atime) + u32_bytes(n.mtime) + u32_bytes(n.ctime)
}

/// The 64 bytes of an inode on disk.
pub open spec fn inode_bytes(n: Minix3Inode) -> Seq<u8> {
    inode_head_bytes(n) + zones_bytes(n.zones@, 10)
}

/// The 64 bytes of a directory entry on disk.
pub open spec fn dir_entry_bytes(e: Minix3DirEntry) -> Seq<u8> {
    u32_bytes(e.inode) + e.name@
}

impl Minix3Superblock {
    /// Read the superblock from the start of `b`.
    pub fn parse(b: &[u8]) -> (r: Self)
        requires
            b.len() >= 32,
        ensures
            r == superblock_of(b@),
    {
        Minix3Superblock {
            ninodes: read_u32(b, 0),
            pad0: read_u16(b, 4),
            imap_blocks: read_u16(b, 6),
            zmap_blocks: read_u16(b, 8),
            first_data_zone: read_u16(b, 10),
            log_zone_size: read_u16(b, 12),
            pad1: read_u16(b, 14),
            max_size: read_u32(b, 16),
            zones: read_u32(b, 20),
            magic: read_u16(b, 24),
            pad2: read_u16(b, 26),
            block_size: read_u16(b, 28),
            disk_version: b[30],
        }
    }
}

impl Minix3Inode {
    /// Read the inode in the 64 bytes of `b` at `o`.
    pub fn parse(b: &[u8], o: usize) -> (r: Self)
        requires
            o + INODE_SIZE <= b.len(),
        ensures
            r == inode_of(b@, o as int),
    {
        let zones: [u32; 10] = [
            read_u32(b, o + 24),
            read_u32(b, o + 28),
            read_u32(b, o + 32),
            read_u32(b, o + 36),
            read_u32(b, o + 40),
            read_u32(b, o + 44),
            read_u32(b, o + 48),
            read_u32(b, o + 52),
            read_u32(b, o + 56),
            read_u32(b, o + 60),
        ];
        Minix3Inode {
            mode: read_u16(b, o),
            nlinks: read_u16(b, o + 2),
            uid: read_u16(b, o + 4),
            gid: read_u16(b, o + 6),
            size: read_u32(b, o + 8),
            atime: read_u32(b, o + 12),
            mtime: read_u32(b, o + 16),
            ctime: read_u32(b, o + 20),
            zones,
        }
    }

    /// Write the inode into the 64 bytes of `b` at `o`; the other bytes stay.
    pub fn write_to(&self, b: &mut [u8], o: usize)
        requires
            o + INODE_SIZE <= old(b)@.len(),
            old(b)@.len() <= usize::MAX,
        ensures
            final(b)@ == splice(old(b)@, o as int, inode_bytes(*self)),
    {
        let ghost b0 = b@;
        write_u16(b, o, self.mode);
        write_u16(b, o + 2, self.nlinks);
        proof {
            lemma_splice_concat(b0, o as int, u16_bytes(self.mode), u16_bytes(self.nlinks));
        }
        write_u16(b, o + 4, self.uid);
        proof {
            lemma_splice_concat(b0, o as int, u16_bytes(self.mode) + u16_bytes(self.nlinks), u16_bytes(self.uid));
        }
        write_u16(b, o + 6, self.gid);
        proof {
            lemma_splice_concat(
                b0,
                o as int,
                u16_bytes(self.mode) + u16_bytes(self.nlinks) + u16_bytes(self.uid),
                u16_bytes(self.gid),
            );
        }
        let ghost h4 = u16_bytes(self.mode) + u16_bytes(self.nlinks) + u16_bytes(self.uid) + u16_bytes(self.gid);
        write_u32(b, o + 8, self.size);
        proof {
            lemma_splice_concat(b0, o as int, h4, u32_bytes(self.size));
        }
        write_u32(b, o + 12, self.atime);
        proof {
            lemma_splice_concat(b0, o as int, h4 + u32_bytes(self.size), u32_bytes(self.atime));
        }
        write_u32(b, o + 16, self.mtime);
        proof {
            lemma_splice_concat(b0, o as int, h4 + u32_bytes(self.size) + u32_bytes(self.atime), u32_bytes(self.mtime));
        }
        write_u32(b, o + 20, self.ctime);
        proof {
            lemma_splice_concat(
                b0,
                o as int,
                h4 + u32_bytes(self.size) + u32_bytes(self.atime) + u32_bytes(self.mtime),
                u32_bytes(self.ctime),
            );
            assert(b@ == splice(b0, o as int, inode_head_bytes(*self)));
            assert(inode_head_bytes(*self) + zones_bytes(self.zones@, 0) =~= inode_head_bytes(*self));
        }
        let mut z: usize = 0;
        while z < 10
            invariant
                z <= 10,
                o + INODE_SIZE <= b0.len(),
                b0 == old(b)@,
                b0.len() <= usize::MAX,
                inode_head_bytes(*self).len() == 24,
                b@ == splice(b0, o as int, inode_head_bytes(*self) + zones_bytes(self.zones@, z as nat)),
                zones_bytes(self.zones@, z as nat).len() == 4 * z,
            decreases 10 - z,
        {
            let ghost acc = inode_head_bytes(*self) + zones_bytes(self.zones@, z as nat);
            write_u32(b, o + 24 + 4 * z, self.zones[z]);
            proof {
                lemma_splice_concat(b0, o as int, acc, u32_bytes(self.zones@[z as int]));
                assert(acc + u32_bytes(self.zones@[z as int]) =~= inode_head_bytes(*self) + zones_bytes(self.zones@, (z + 1) as nat));
            }
            z = z + 1;
        }
    }
}

impl Minix3DirEntry {
    /// Write the entry into the 64 bytes of `b` at `o`; the other bytes stay.
    pub fn write_to(&self, b: &mut [u8], o: usize)
        requires
            o + DIR_ENTRY_SIZE <= old(b)@.len(),
            old(b)@.len() <= usize::MAX,
        ensures
            final(b)@ == splice(old(b)@, o as int, dir_entry_bytes(*self)),
    {
        let ghost b0 = b@;
        write_u32(b, o, self.inode);
        let mut k: usize = 0;
        while k < 60
            invariant
                k <= 60,
                o + DIR_ENTRY_SIZE <= b0.len(),
                b0 == old(b)@,
                b0.len() <= usize::MAX,
                b@ == splice(b0, o as int, u32_bytes(self.inode) + self.name@.take(k as int)),
            decreases 60 - k,
        {
            let ghost before = b@;
            b[o + 4 + k] = self.name[k];
            proof {
                assert(b@ =~= splice(b0, o as int, u32_bytes(self.inode) + self.name@.take(k + 1)));
            }
            k = k + 1;
        }
        assert(self.name@.take(60) =~= self.name@);
    }
}

/// The bytes a value is written as read back as the value.
proof fn lemma_le_roundtrip(b: Seq<u8>, o: int, v16: u16, v32: u32)
    ensures
        b.len() >= o + 2 && o >= 0 && b.subrange(o, o + 2) == u16_bytes(v16) ==> le16(b, o) == v16,
        b.len() >= o + 4 && o >= 0 && b.subrange(o, o + 4) == u32_bytes(v32) ==> le32(b, o) == v32,
{
    if b.len() >= o + 2 && o >= 0 && b.subrange(o, o + 2) == u16_bytes(v16) {
        assert(b[o] == b.subrange(o, o + 2)[0] && b[o + 1] == b.subrange(o, o + 2)[1]);
    }
    if b.len() >= o + 4 && o >= 0 && b.subrange(o, o + 4) == u32_bytes(v32) {
        let lo = (v32 % 0x1_0000) as u16;
        let hi = (v32 / 0x1_0000) as u16;
        assert(b.subrange(o, o + 4)[0] == u16_bytes(lo)[0]);
        assert(b.subrange(o, o + 4)[1] == u16_bytes(lo)[1]);
        assert(b.subrange(o, o + 4)[2] == u16_bytes(hi)[0]);
        assert(b.subrange(o, o + 4)[3] == u16_bytes(hi)[1]);
        assert(b[o] == b.subrange(o, o + 4)[0] && b[o + 1] == b.subrange(o, o + 4)[1]);
        assert(b[o + 2] == b.subrange(o, o + 4)[2] && b[o + 3] == b.subrange(o, o + 4)[3]);
    }
}

/// An inode written into a block reads back as the same inode.
pub proof fn lemma_inode_roundtrip(b: Seq<u8>, o: int, n: Minix3Inode)
    requires
        0 <= o,
        o + INODE_SIZE <= b.len(),
    ensures
        inode_of(splice(b, o, inode_bytes(n)), o) == n,
{
    let w = splice(b, o, inode_bytes(n));
    let bytes = inode_bytes(n);
    let head = inode_head_bytes(n);
    assert(head.len() == 24);
    assert forall|z: nat| z <= 10 implies #[trigger] zones_bytes(n.zones@, z).len() == 4 * z by {
        lemma_zones_bytes_len(n.zones@, z);
    }
    assert(bytes.len() == 64);
    assert(w.subrange(o, o + 2) =~= u16_bytes(n.mode));
    assert(w.subrange(o + 2, o + 4) =~= u16_bytes(n.nlinks));
    assert(w.subrange(o + 4, o + 6) =~= u16_bytes(n.uid));
    assert(w.subrange(o + 6, o + 8) =~= u16_bytes(n.gid));
    assert(w.subrange(o + 8, o + 12) =~= u32_bytes(n.size));
    assert(w.subrange(o + 12, o + 16) =~= u32_bytes(n.atime));
    assert(w.subrange(o + 16, o + 20) =~= u32_bytes(n.mtime));
    assert(w.subrange(o + 20, o + 24) =~= u32_bytes(n.ctime));
    lemma_le_roundtrip(w, o, n.mode, 0);
    lemma_le_roundtrip(w, o + 2, n.nlinks, 0);
    lemma_le_roundtrip(w, o + 4, n.uid, 0);
    lemma_le_roundtrip(w, o + 6, n.gid, 0);
    lemma_le_roundtrip(w, o + 8, 0, n.size);
    lemma_le_roundtrip(w, o + 12, 0, n.atime);
    lemma_le_roundtrip(w, o + 16, 0, n.mtime);
    lemma_le_roundtrip(w, o + 20, 0, n.ctime);
    assert forall|z: int| 0 <= z < 10 implies le32(w, o + 24 + 4 * z) == #[trigger] n.zones@[z] by {
        lemma_zones_bytes_at(n.zones@, z, 10);
        assert(w.subrange(o + 24 + 4 * z, o + 28 + 4 * z) =~= zones_bytes(n.zones@, 10).subrange(4 * z, 4 * z + 4));
        lemma_le_roundtrip(w, o + 24 + 4 * z, 0, n.zones@[z]);
    }
    let r = inode_of(w, o);
    assert(r.zones =~= n.zones);
}

/// The bytes of `z` zone numbers are four a number.
proof fn lemma_zones_bytes_len(zones: Seq<u32>, z: nat)
    ensures
        zones_bytes(zones, z).len() == 4 * z,
    decreases z,
{
    if z > 0 {
        lemma_zones_bytes_len(zones, (z - 1) as nat);
    }
}

/// Zone number `z` lies at bytes `4 * z ..` of the bytes of the first `m`.
proof fn lemma_zones_bytes_at(zones: Seq<u32>, z: int, m: int)
    requires
        0 <= z < m,
    ensures
        zones_bytes(zones, m as nat).subrange(4 * z, 4 * z + 4) == u32_bytes(zones[z]),
    decreases m,
{
    lemma_zones_bytes_len(zones, (m - 1) as nat);
    if z + 1 == m {
        assert(zones_bytes(zones, m as nat).subrange(4 * z, 4 * z + 4) =~= u32_bytes(zones[z]));
    } else {
        lemma_zones_bytes_at(zones, z, m - 1);
        assert(zones_bytes(zones, m as nat).subrange(4 * z, 4 * z + 4) =~= zones_bytes(
            zones,
            (m - 1) as nat,
        ).subrange(4 * z, 4 * z + 4));
    }
}

} // verus!
