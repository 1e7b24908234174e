//! Inode pointers, permissions, file modes and the records a filesystem
//! hands out.
use vstd::prelude::*;

use crate::types::{DeviceIdentifier, TimeRepr, UserIdentifier};

verus! {

/// Inode Index
pub type InodeIndex = usize;

/// Pointer to a device and an inode
#[derive(Clone, Copy, Debug, PartialEq, Eq, Structural)]
pub struct InodePointer {
    pub device_id: DeviceIdentifier,
    pub index: InodeIndex,
}

/// Individual Permissions Value
#[derive(Clone, Copy, Debug)]
pub struct Permissions(u16);

/// Mode structure
#[derive(Clone, Copy, Debug)]
pub struct FileMode(u16);

/// Directory Entry File Types
#[derive(Clone, Copy, Debug, PartialEq, Eq, Structural)]
pub enum DirectoryEntryType {
    Unknown,
    RegularFile,
    Directory,
    CharDevice,
    BlockDevice,
    FirstInFirstOut,
    Socket,
    SymbolicLink,
}

/// Directory Entry
#[derive(Clone, Debug)]
pub struct DirectoryEntry {
    pub index: InodePointer,
    pub name: String,
    pub entry_type: DirectoryEntryType,
}

/// File Stat Data
#[derive(Clone, Copy, Debug)]
pub struct FileStat {
    pub index: InodePointer,
    pub mode: FileMode,
    pub links: u16,
    pub uid: UserIdentifier,
    pub gid: UserIdentifier,
    pub special_dev_id: DeviceIdentifier,
    pub size: usize,
    pub blk_size: usize,
    pub blocks_allocated: usize,
    pub atime: TimeRepr,
    pub mtime: TimeRepr,
    pub ctime: TimeRepr,
}

impl View for Permissions {
    type V = u16;

    closed spec fn view(&self) -> u16 {
        self.0
    }
}

impl View for FileMode {
    type V = u16;

    closed spec fn view(&self) -> u16 {
        self.0
    }
}

impl Permissions {
    /// A permission value is made of the read, write and execute bits only.
    #[verifier::type_invariant]
    spec fn bits_in_range(self) -> bool {
        self.0 < 8
    }

    /// Permissions granting every access that either grants.
    fn union(self, rhs: Self) -> (r: Permissions)
        ensures
            r@ == self@ | rhs@,
    {
        proof {
            use_type_invariant(&self);
            use_type_invariant(&rhs);
            let a = self.0;
            let b = rhs.0;
            assert(a | b < 8) by (bit_vector)
                requires
                    a < 8,
                    b < 8,
            ;
        }
        Permissions(self.0 | rhs.0)
    }

    /// Read Mode
    pub fn read() -> (r: Permissions)
        ensures
            r@ == 1,
    {
        Permissions(1)
    }

    /// Write Mode
    pub fn write() -> (r: Permissions)
        ensures
            r@ == 2,
    {
        Permissions(2)
    }

    /// Execute Mode
    pub fn execute() -> (r: Permissions)
        ensures
            r@ == 4,
    {
        Permissions(4)
    }

    /// Read Write Mode
    pub fn read_write() -> (r: Permissions)
        ensures
            r@ == 3,
    {
        let r = Self::read().union(Self::write());
        proof {
            lemma_permission_unions();
        }
        r
    }

    /// Read Execute Mode
    pub fn read_execute() -> (r: Permissions)
        ensures
            r@ == 5,
    {
        let r = Self::read().union(Self::execute());
        proof {
            lemma_permission_unions();
        }
        r
    }

    /// Write Execute Mode
    pub fn write_execute() -> (r: Permissions)
        ensures
            r@ == 6,
    {
        let r = Self::write().union(Self::execute());
        proof {
            lemma_permission_unions();
        }
        r
    }

    /// Read Write Execute Mode
    pub fn read_write_execute() -> (r: Permissions)
        ensures
            r@ == 7,
    {
        let r = Self::read().union(Self::write()).union(Self::execute());
        proof {
            lemma_permission_unions();
        }
        r
    }

    /// The raw bits of the permissions.
    pub fn bits(&self) -> (r: u16)
        ensures
            r == self@,
            r < 8,
    {
        proof {
            use_type_invariant(self);
        }
        self.0
    }
}

impl DirectoryEntryType {
    /// The number of a directory entry type, as stored in a file mode.
    pub open spec fn spec_bits(self) -> u16 {
        match self {
            DirectoryEntryType::Unknown => 0,
            DirectoryEntryType::RegularFile => 1,
            DirectoryEntryType::Directory => 2,
            DirectoryEntryType::CharDevice => 3,
            DirectoryEntryType::BlockDevice => 4,
            DirectoryEntryType::FirstInFirstOut => 5,
            DirectoryEntryType::Socket => 6,
            DirectoryEntryType::SymbolicLink => 7,
        }
    }

    /// The number of a directory entry type, as stored in a file mode.
    pub fn bits(&self) -> (r: u16)
        ensures
            r == self.spec_bits(),
            r < 8,
    {
        match self {
            DirectoryEntryType::Unknown => 0,
            DirectoryEntryType::RegularFile => 1,
            DirectoryEntryType::Directory => 2,
            DirectoryEntryType::CharDevice => 3,
            DirectoryEntryType::BlockDevice => 4,
            DirectoryEntryType::FirstInFirstOut => 5,
            DirectoryEntryType::Socket => 6,
            DirectoryEntryType::SymbolicLink => 7,
        }
    }
}

/// The directory entry type with the given number (taken modulo 8).
pub open spec fn entry_type_of(bits: u16) -> DirectoryEntryType {
    let b = bits % 8;
    if b == 0 {
        DirectoryEntryType::Unknown
    } else if b == 1 {
        DirectoryEntryType::RegularFile
    } else if b == 2 {
        DirectoryEntryType::Directory
    } else if b == 3 {
        DirectoryEntryType::CharDevice
    } else if b == 4 {
        DirectoryEntryType::BlockDevice
    } else if b == 5 {
        DirectoryEntryType::FirstInFirstOut
    } else if b == 6 {
        DirectoryEntryType::Socket
    } else {
        DirectoryEntryType::SymbolicLink
    }
}

/// The bits of a mode built from its components.
pub open spec fn mode_bits(t: u16, user: u16, group: u16, owner: u16) -> u16 {
    (t << 13u16) | (user << 6u16) | (group << 3u16) | owner
}

/// The arithmetic of the mode fields: each field reads back what was
/// written into it, and writing one field keeps every other bit.
pub proof fn lemma_mode_fields(v: u16, p: u16, t: u16, u: u16, g: u16, o: u16)
    requires
        p < 8,
        t < 8,
        u < 8,
        g < 8,
        o < 8,
    ensures
        (mode_bits(t, u, g, o) >> 13u16) & 7 == t,
        (mode_bits(t, u, g, o) >> 6u16) & 7 == u,
        (mode_bits(t, u, g, o) >> 3u16) & 7 == g,
        mode_bits(t, u, g, o) & 7 == o,
        (((v & 0x1fff) | (t << 13u16)) >> 13u16) & 7 == t,
        (((v & 0x1fff) | (t << 13u16)) >> 6u16) & 7 == (v >> 6u16) & 7,
        (((v & 0x1fff) | (t << 13u16)) >> 3u16) & 7 == (v >> 3u16) & 7,
        ((v & 0x1fff) | (t << 13u16)) & 7 == v & 7,
        (((v & 0xfe3f) | (p << 6u16)) >> 6u16) & 7 == p,
        (((v & 0xfe3f) | (p << 6u16)) >> 3u16) & 7 == (v >> 3u16) & 7,
        ((v & 0xfe3f) | (p << 6u16)) & 7 == v & 7,
        ((v & 0xfe3f) | (p << 6u16)) >> 13u16 == v >> 13u16,
        (((v & 0xffc7) | (p << 3u16)) >> 3u16) & 7 == p,
        (((v & 0xffc7) | (p << 3u16)) >> 6u16) & 7 == (v >> 6u16) & 7,
        ((v & 0xffc7) | (p << 3u16)) & 7 == v & 7,
        ((v & 0xffc7) | (p << 3u16)) >> 13u16 == v >> 13u16,
        ((v & 0xfff8) | p) & 7 == p,
        (((v & 0xfff8) | p) >> 6u16) & 7 == (v >> 6u16) & 7,
        (((v & 0xfff8) | p) >> 3u16) & 7 == (v >> 3u16) & 7,
        ((v & 0xfff8) | p) >> 13u16 == v >> 13u16,
        (v >> 6u16) & 7 < 8,
        (v >> 3u16) & 7 < 8,
        v & 7 < 8,
        (v >> 13u16) & 7 < 8,
        (v >> 13u16) & 7 == v >> 13u16,
{
    assert((mode_bits(t, u, g, o) >> 13u16) & 7 == t && (mode_bits(t, u, g, o) >> 6u16) & 7 == u
        && (mode_bits(t, u, g, o) >> 3u16) & 7 == g && mode_bits(t, u, g, o) & 7 == o)
        by (bit_vector)
        requires
            t < 8,
            u < 8,
            g < 8,
            o < 8,
    ;
    assert((((v & 0x1fff) | (t << 13u16)) >> 13u16) & 7 == t && (((v & 0x1fff) | (t << 13u16))
        >> 6u16) & 7 == (v >> 6u16) & 7 && (((v & 0x1fff) | (t << 13u16)) >> 3u16) & 7 == (v
        >> 3u16) & 7 && ((v & 0x1fff) | (t << 13u16)) & 7 == v & 7 && (((v & 0xfe3f) | (p << 6u16)) >> 6u16) & 7 == p && (((v & 0xfe3f) | (p << 6u16))
        >> 3u16) & 7 == (v >> 3u16) & 7 && ((v & 0xfe3f) | (p << 6u16)) & 7 == v & 7 && ((v
        & 0xfe3f) | (p << 6u16)) >> 13u16 == v >> 13u16 && (((v & 0xffc7) | (p << 3u16))
        >> 3u16) & 7 == p && (((v & 0xffc7) | (p << 3u16)) >> 6u16) & 7 == (v >> 6u16) & 7 && ((v
        & 0xffc7) | (p << 3u16)) & 7 == v & 7 && ((v & 0xffc7) | (p << 3u16)) >> 13u16 == v
        >> 13u16 && ((v & 0xfff8) | p) & 7 == p && (((v & 0xfff8) | p) >> 6u16) & 7 == (v
        >> 6u16) & 7 && (((v & 0xfff8) | p) >> 3u16) & 7 == (v >> 3u16) & 7 && ((v & 0xfff8)
        | p) >> 13u16 == v >> 13u16 && (v >> 6u16) & 7 < 8 && (v >> 3u16) & 7 < 8 && v & 7 < 8
        && (v >> 13u16) & 7 < 8 && (v >> 13u16) & 7 == v >> 13u16)
        by (bit_vector)
        requires
            t < 8,
            p < 8,
    ;
}

impl FileMode {
    /// The entry type field.
    pub open spec fn spec_entry_type(self) -> DirectoryEntryType {
        entry_type_of((self@ >> 13u16) & 7)
    }

    /// The user permission field.
    pub open spec fn spec_user_perms(self) -> u16 {
        (self@ >> 6u16) & 7
    }

    /// The group permission field.
    pub open spec fn spec_group_perms(self) -> u16 {
        (self@ >> 3u16) & 7
    }

    /// The owner permission field.
    pub open spec fn spec_owner_perms(self) -> u16 {
        self@ & 7
    }

    /// Create a new file mode from components
    pub fn from_components(
        entry_type: DirectoryEntryType,
        user: Permissions,
        group: Permissions,
        owner: Permissions,
    ) -> (r: Self)
        ensures
            r@ == mode_bits(entry_type.spec_bits(), user@, group@, owner@),
            r.spec_entry_type() == entry_type,
            r.spec_user_perms() == user@,
            r.spec_group_perms() == group@,
            r.spec_owner_perms() == owner@,
    {
        let t = entry_type.bits();
        let u = user.bits();
        let g = group.bits();
        let o = owner.bits();
        proof {
            lemma_mode_fields(0, 0, t, u, g, o);
        }
        Self((t << 13) | (u << 6) | (g << 3) | o)
    }

    /// Create a file mode from the raw bits
    pub fn from_bits(data: u16) -> (r: Self)
        ensures
            r@ == data,
    {
        Self(data)
    }

    /// Get the entry type
    pub fn entry_type(&self) -> (r: DirectoryEntryType)
        ensures
            r == self.spec_entry_type(),
    {
        proof {
            lemma_mode_fields(self.0, 0, 0, 0, 0, 0);
        }
        let b = (self.0 >> 13) & 0b111;
        if b == 0 {
            DirectoryEntryType::Unknown
        } else if b == 1 {
            DirectoryEntryType::RegularFile
        } else if b == 2 {
            DirectoryEntryType::Directory
        } else if b == 3 {
            DirectoryEntryType::CharDevice
        } else if b == 4 {
            DirectoryEntryType::BlockDevice
        } else if b == 5 {
            DirectoryEntryType::FirstInFirstOut
        } else if b == 6 {
            DirectoryEntryType::Socket
        } else {
            DirectoryEntryType::SymbolicLink
        }
    }

    /// Set the entry type
    pub fn set_entry_type(&mut self, entry_type: DirectoryEntryType)
        ensures
            final(self)@ == (old(self)@ & 0x1fff) | (entry_type.spec_bits() << 13u16),
            final(self).spec_entry_type() == entry_type,
            final(self).spec_user_perms() == old(self).spec_user_perms(),
            final(self).spec_group_perms() == old(self).spec_group_perms(),
            final(self).spec_owner_perms() == old(self).spec_owner_perms(),
    {
        let t = entry_type.bits();
        proof {
            lemma_mode_fields(self.0, 0, t, 0, 0, 0);
        }
        self.0 &= 0b0001_1111_1111_1111;
        self.0 |= t << 13;
    }

    /// Get the user permissions
    pub fn user_perms(&self) -> (r: Permissions)
        ensures
            r@ == self.spec_user_perms(),
    {
        proof {
            lemma_mode_fields(self.0, 0, 0, 0, 0, 0);
        }
        Permissions((self.0 >> 6) & 0b111)
    }

    /// Set the user permissions
    pub fn set_user_perms(&mut self, perms: Permissions)
        ensures
            final(self)@ == (old(self)@ & 0xfe3f) | (perms@ << 6u16),
            final(self).spec_entry_type() == old(self).spec_entry_type(),
            final(self).spec_user_perms() == perms@,
            final(self).spec_group_perms() == old(self).spec_group_perms(),
            final(self).spec_owner_perms() == old(self).spec_owner_perms(),
    {
        let p = perms.bits();
        proof {
            lemma_mode_fields(self.0, p, 0, 0, 0, 0);
        }
        self.0 &= 0b1111_1110_0011_1111;
        self.0 |= p << 6;
    }

    /// Get the group permissions
    pub fn group_perms(&self) -> (r: Permissions)
        ensures
            r@ == self.spec_group_perms(),
    {
        proof {
            lemma_mode_fields(self.0, 0, 0, 0, 0, 0);
        }
        Permissions((self.0 >> 3) & 0b111)
    }

    /// Set the group permissions
    pub fn set_group_perms(&mut self, perms: Permissions)
        ensures
            final(self)@ == (old(self)@ & 0xffc7) | (perms@ << 3u16),
            final(self).spec_entry_type() == old(self).spec_entry_type(),
            final(self).spec_group_perms() == perms@,
            final(self).spec_user_perms() == old(self).spec_user_perms(),
            final(self).spec_owner_perms() == old(self).spec_owner_perms(),
    {
        let p = perms.bits();
        proof {
            lemma_mode_fields(self.0, p, 0, 0, 0, 0);
        }
        self.0 &= 0b1111_1111_1100_0111;
        self.0 |= p << 3;
    }

    /// Get the owner permissions
    pub fn owner_perms(&self) -> (r: Permissions)
        ensures
            r@ == self.spec_owner_perms(),
    {
        proof {
            lemma_mode_fields(self.0, 0, 0, 0, 0, 0);
        }
        Permissions(self.0 & 0b111)
    }

    /// Set the owner permissions
    pub fn set_owner_perms(&mut self, perms: Permissions)
        ensures
            final(self)@ == (old(self)@ & 0xfff8) | perms@,
            final(self).spec_entry_type() == old(self).spec_entry_type(),
            final(self).spec_owner_perms() == perms@,
            final(self).spec_user_perms() == old(self).spec_user_perms(),
            final(self).spec_group_perms() == old(self).spec_group_perms(),
    {
        let p = perms.bits();
        proof {
            lemma_mode_fields(self.0, p, 0, 0, 0, 0);
        }
        self.0 &= 0b1111_1111_1111_1000;
        self.0 |= p;
    }
}

/// The unions of the read, write and execute bits.
proof fn lemma_permission_unions()
    by (bit_vector)
    ensures
        1u16 | 2u16 == 3u16,
        1u16 | 4u16 == 5u16,
        2u16 | 4u16 == 6u16,
        1u16 | 2u16 | 4u16 == 7u16,
{
}

} // verus!
