//! Sv39 page tables: entries, virtual addresses, and a page table whose
//! directory pages live in an arena of tables.
use vstd::prelude::*;

use super::bits::{bit_of, lemma_field_bound, lemma_low_bit, lemma_masks, field_of, lemma_set_clear_bit, lemma_with_field, low_mask, with_bit, with_field};

verus! {

/// Table Entry for the Sv39 MMU
#[derive(Clone, Copy, Debug)]
pub struct TableEntry(u64);

/// Virtual Address
#[derive(Clone, Copy, Debug)]
pub struct VirtualAddress(u64);

/// Memory Page Sizes / Level
#[derive(Clone, Copy, Debug, PartialEq, Eq)]
pub enum MemoryPageLevel {
    Level0,
    Level1,
    Level2,
}

/// Read Write Execute Flags
#[derive(Clone, Copy, Debug, PartialEq, Eq)]
pub enum RWXFlags {
    ReadOnly,
    ReadWrite,
    Execute,
    ReadExecute,
    ReadWriteExecute,
}

/// User and Global Flags
#[derive(Clone, Copy, Debug, PartialEq, Eq)]
pub enum UGFlags {
    User,
    Global,
    UserGlobal,
    NoFlags,
}

/// Width of the physical page number stored in an entry.
pub const FULL_PPN_BITS: u64 = 44;

impl View for TableEntry {
    type V = u64;

    closed spec fn view(&self) -> u64 {
        self.0
    }
}

impl View for VirtualAddress {
    type V = u64;

    closed spec fn view(&self) -> u64 {
        self.0
    }
}

impl TableEntry {
    /// The valid bit.
    pub open spec fn spec_valid(self) -> bool {
        bit_of(self@, 0)
    }

    /// The read bit.
    pub open spec fn spec_read(self) -> bool {
        bit_of(self@, 1)
    }

    /// The write bit.
    pub open spec fn spec_write(self) -> bool {
        bit_of(self@, 2)
    }

    /// The execute bit.
    pub open spec fn spec_execute(self) -> bool {
        bit_of(self@, 3)
    }

    /// The user bit.
    pub open spec fn spec_user(self) -> bool {
        bit_of(self@, 4)
    }

    /// The global bit.
    pub open spec fn spec_global(self) -> bool {
        bit_of(self@, 5)
    }

    /// The accessed bit.
    pub open spec fn spec_accessed(self) -> bool {
        bit_of(self@, 6)
    }

    /// The dirty bit.
    pub open spec fn spec_dirty(self) -> bool {
        bit_of(self@, 7)
    }

    /// The two RSW bits.
    pub open spec fn spec_rsw(self) -> u64 {
        field_of(self@, 8, 2)
    }

    /// The 44-bit physical page number.
    pub open spec fn spec_full_ppn(self) -> u64 {
        field_of(self@, 10, FULL_PPN_BITS)
    }

    /// A leaf entry grants at least one of read, write or execute.
    pub open spec fn spec_is_leaf(self) -> bool {
        self.spec_read() || self.spec_write() || self.spec_execute()
    }

    /// Construct a new table entry, it would be an empty (unmapped) entry
    pub fn new() -> (r: Self)
        ensures
            r@ == 0,
            !r.spec_valid(),
    {
        proof {
            lemma_zero_entry();
        }
        Self(0)
    }

    /// Private function to get a particular bit
    fn bit(&self, bit: u64) -> (r: bool)
        requires
            bit < 64,
        ensures
            r == bit_of(self@, bit),
    {
        proof {
            lemma_low_bit(self.0 >> bit);
        }
        (self.0 >> bit) & 1 > 0
    }

    /// Private function to set a particular bit
    fn set_bit(&mut self, bit: u64, value: bool)
        requires
            bit < 64,
        ensures
            final(self)@ == with_bit(old(self)@, bit, value),
            bit_of(final(self)@, bit) == value,
            forall|j: u64| j < 64 && j != bit ==> #[trigger] bit_of(final(self)@, j) == bit_of(old(self)@, j),
    {
        proof {
            lemma_set_clear_bit(self.0, bit);
        }
        if value {
            self.0 = self.0 | (1u64 << bit);
        } else {
            self.0 = self.0 & !(1u64 << bit);
        }
    }

    /// Get the valid bit
    pub fn valid(&self) -> (r: bool)
        ensures
            r == self.spec_valid(),
    {
        self.bit(0)
    }

    /// Set the valid bit
    pub fn set_valid(&mut self, value: bool)
        ensures
            final(self)@ == with_bit(old(self)@, 0, value),
            final(self).spec_valid() == value,
            forall|j: u64| j < 64 && j != 0 ==> #[trigger] bit_of(final(self)@, j) == bit_of(old(self)@, j),
    {
        self.set_bit(0, value)
    }

    /// Get the read bit
    pub fn read(&self) -> (r: bool)
        ensures
            r == self.spec_read(),
    {
        self.bit(1)
    }

    /// Set the read bit
    pub fn set_read(&mut self, value: bool)
        ensures
            final(self)@ == with_bit(old(self)@, 1, value),
            final(self).spec_read() == value,
            forall|j: u64| j < 64 && j != 1 ==> #[trigger] bit_of(final(self)@, j) == bit_of(old(self)@, j),
    {
        self.set_bit(1, value)
    }

    /// Get the write bit
    pub fn write(&self) -> (r: bool)
        ensures
            r == self.spec_write(),
    {
        self.bit(2)
    }

    /// Set the write bit
    pub fn set_write(&mut self, value: bool)
        ensures
            final(self)@ == with_bit(old(self)@, 2, value),
            final(self).spec_write() == value,
            forall|j: u64| j < 64 && j != 2 ==> #[trigger] bit_of(final(self)@, j) == bit_of(old(self)@, j),
    {
        self.set_bit(2, value)
    }

    /// Get execute bit
    pub fn execute(&self) -> (r: bool)
        ensures
            r == self.spec_execute(),
    {
        self.bit(3)
    }

    /// Set the execute bit
    pub fn set_execute(&mut self, value: bool)
        ensures
            final(self)@ == with_bit(old(self)@, 3, value),
            final(self).spec_execute() == value,
            forall|j: u64| j < 64 && j != 3 ==> #[trigger] bit_of(final(self)@, j) == bit_of(old(self)@, j),
    {
        self.set_bit(3, value)
    }

    /// Get user bit
    pub fn user(&self) -> (r: bool)
        ensures
            r == self.spec_user(),
    {
        self.bit(4)
    }

    /// Set the user bit
    pub fn set_user(&mut self, value: bool)
        ensures
            final(self)@ == with_bit(old(self)@, 4, value),
            final(self).spec_user() == value,
            forall|j: u64| j < 64 && j != 4 ==> #[trigger] bit_of(final(self)@, j) == bit_of(old(self)@, j),
    {
        self.set_bit(4, value)
    }

    /// Get global bit
    pub fn global(&self) -> (r: bool)
        ensures
            r == self.spec_global(),
    {
        self.bit(5)
    }

    /// Set the global bit
    pub fn set_global(&mut self, value: bool)
        ensures
            final(self)@ == with_bit(old(self)@, 5, value),
            final(self).spec_global() == value,
            forall|j: u64| j < 64 && j != 5 ==> #[trigger] bit_of(final(self)@, j) == bit_of(old(self)@, j),
    {
        self.set_bit(5, value)
    }

    /// Get accessed bit
    pub fn accessed(&self) -> (r: bool)
        ensures
            r == self.spec_accessed(),
    {
        self.bit(6)
    }

    /// Set the accessed bit
    pub fn set_accessed(&mut self, value: bool)
        ensures
            final(self)@ == with_bit(old(self)@, 6, value),
            final(self).spec_accessed() == value,
            forall|j: u64| j < 64 && j != 6 ==> #[trigger] bit_of(final(self)@, j) == bit_of(old(self)@, j),
    {
        self.set_bit(6, value)
    }

    /// Get dirty bit
    pub fn dirty(&self) -> (r: bool)
        ensures
            r == self.spec_dirty(),
    {
        self.bit(7)
    }

    /// Set the dirty bit
    pub fn set_dirty(&mut self, value: bool)
        ensures
            final(self)@ == with_bit(old(self)@, 7, value),
            final(self).spec_dirty() == value,
            forall|j: u64| j < 64 && j != 7 ==> #[trigger] bit_of(final(self)@, j) == bit_of(old(self)@, j),
    {
        self.set_bit(7, value)
    }
}

impl TableEntry {
    /// Get the RSW value
    pub fn rsw(&self) -> (r: u64)
        ensures
            r == self.spec_rsw(),
            r < 4,
    {
        proof {
            lemma_masks();
            lemma_field_bound(self@, 8, 2);
        }
        (self.0 >> 8) & 0b11
    }

    /// Set the RSW value
    pub fn set_rsw(&mut self, value: u64)
        ensures
            final(self)@ == with_field(old(self)@, 8, 2, value),
            final(self).spec_rsw() == value & 3,
            forall|j: u64|
                j < 64 && (j < 8 || j >= 10) ==> #[trigger] bit_of(final(self)@, j) == bit_of(
                    old(self)@,
                    j,
                ),
    {
        proof {
            lemma_masks();
            lemma_with_field(self.0, 8, 2, value);
        }
        self.0 &= !(0b11 << 8);
        self.0 |= (value & 0b11) << 8;
    }

    /// Get the physical page number at the given level
    pub fn ppn(&self, level: MemoryPageLevel) -> (r: u64)
        ensures
            r == field_of(self@, ppn_shift(level), ppn_width(level)),
    {
        proof {
            lemma_masks();
        }
        if level.index() < 2 {
            (self.0 >> (10 + 9 * level.index() as u64)) & 0x1ff
        } else {
            (self.0 >> (10 + 9 * level.index() as u64)) & 0x3ffffff
        }
    }

    /// Set the physical page number at the given level
    pub fn set_ppn(&mut self, level: MemoryPageLevel, value: u64)
        ensures
            final(self)@ == with_field(old(self)@, ppn_shift(level), ppn_width(level), value),
            field_of(final(self)@, ppn_shift(level), ppn_width(level)) == value & low_mask(
                ppn_width(level),
            ),
            forall|j: u64|
                j < 64 && (j < ppn_shift(level) || j >= ppn_shift(level) + ppn_width(level))
                    ==> #[trigger] bit_of(final(self)@, j) == bit_of(old(self)@, j),
    {
        proof {
            lemma_masks();
            lemma_with_field(self.0, ppn_shift(level), ppn_width(level), value);
        }
        if level.index() < 2 {
            self.0 &= !(0x1ff << (10 + 9 * level.index() as u64));
            self.0 |= (value & 0x1ff) << (10 + 9 * level.index() as u64);
        } else {
            self.0 &= !(0x3ffffff << (10 + 9 * level.index() as u64));
            self.0 |= (value & 0x3ffffff) << (10 + 9 * level.index() as u64);
        }
    }

    /// Get the full physical page number
    pub fn full_ppn(&self) -> (r: u64)
        ensures
            r == self.spec_full_ppn(),
    {
        proof {
            lemma_masks();
        }
        (self.0 >> 10) & 0xfffffffffff
    }

    /// Set the full physical page number
    pub fn set_full_ppn(&mut self, value: u64)
        ensures
            final(self)@ == with_field(old(self)@, 10, FULL_PPN_BITS, value),
            final(self).spec_full_ppn() == value & low_mask(FULL_PPN_BITS),
            forall|j: u64| j < 10 ==> #[trigger] bit_of(final(self)@, j) == bit_of(old(self)@, j),
    {
        proof {
            lemma_masks();
            lemma_with_field(self.0, 10, FULL_PPN_BITS, value);
        }
        self.0 &= !(0xfffffffffff << 10);
        self.0 |= (value & 0xfffffffffff) << 10;
    }

    /// Check if the entry is a leaf
    pub fn is_leaf(&self) -> (r: bool)
        ensures
            r == self.spec_is_leaf(),
    {
        self.read() || self.write() || self.execute()
    }
}

/// Where the physical page number of the given level starts in an entry.
pub open spec fn ppn_shift(level: MemoryPageLevel) -> u64 {
    (10 + 9 * level.spec_index()) as u64
}

/// The width of the physical page number of the given level.
pub open spec fn ppn_width(level: MemoryPageLevel) -> u64 {
    if level.spec_index() < 2 {
        9
    } else {
        26
    }
}

/// Where the virtual page number of the given level starts in an address.
pub open spec fn vpn_shift(level: MemoryPageLevel) -> u64 {
    (12 + 9 * level.spec_index()) as u64
}

/// The mask of the page offset of a page at the given level.
pub open spec fn offset_mask(level: MemoryPageLevel) -> u64 {
    match level {
        MemoryPageLevel::Level0 => 0xfff,
        MemoryPageLevel::Level1 => 0x1fffff,
        MemoryPageLevel::Level2 => 0x3fffffff,
    }
}

impl VirtualAddress {
    /// Wrap an address
    pub fn new(addr: u64) -> (r: Self)
        ensures
            r@ == addr,
    {
        Self(addr)
    }

    /// Get the wrapped value
    pub fn get(&self) -> (r: u64)
        ensures
            r == self@,
    {
        self.0
    }

    /// Get the virtual page number for the given level [0, 2]
    pub fn vpn(&self, level: MemoryPageLevel) -> (r: u64)
        ensures
            r == field_of(self@, vpn_shift(level), 9),
            r < 512,
    {
        proof {
            lemma_masks();
            lemma_field_bound(self@, vpn_shift(level), 9);
        }
        (self.0 >> (12 + level.index() as u64 * 9)) & 0x1ff
    }

    /// Get the page offset in the virtual address
    pub fn page_offset(&self) -> (r: u64)
        ensures
            r == self@ & 0xfff,
    {
        self.0 & 0xfff
    }

    /// Get the page offset in the virtual address for the given level
    pub fn page_offset_level(&self, level: MemoryPageLevel) -> (r: u64)
        ensures
            r == self@ & offset_mask(level),
    {
        match level {
            MemoryPageLevel::Level0 => self.0 & 0xfff,
            MemoryPageLevel::Level1 => self.0 & 0x1fffff,
            MemoryPageLevel::Level2 => self.0 & 0x3fffffff,
        }
    }
}

/// An Sv39 virtual address is the concatenation of its three virtual page
/// numbers and its page offset.
pub proof fn lemma_virtual_address_decomposition(va: VirtualAddress)
    ensures
        va@ & 0x7fffffffff == (field_of(va@, 30, 9) << 30) | (field_of(va@, 21, 9) << 21) | (
        field_of(va@, 12, 9) << 12) | (va@ & 0xfff),
{
    lemma_masks();
    let v = va@;
    assert(v & 0x7fffffffff == (((v >> 30) & 0x1ff) << 30) | (((v >> 21) & 0x1ff) << 21) | (((v
        >> 12) & 0x1ff) << 12) | (v & 0xfff)) by (bit_vector);
}

impl MemoryPageLevel {
    /// The index of a level.
    pub open spec fn spec_index(self) -> nat {
        match self {
            MemoryPageLevel::Level0 => 0,
            MemoryPageLevel::Level1 => 1,
            MemoryPageLevel::Level2 => 2,
        }
    }

    /// Convert a memory page level to an index
    pub fn index(&self) -> (r: usize)
        ensures
            r == self.spec_index(),
    {
        match self {
            MemoryPageLevel::Level0 => 0,
            MemoryPageLevel::Level1 => 1,
            MemoryPageLevel::Level2 => 2,
        }
    }
}

impl RWXFlags {
    /// Whether the flags grant reading.
    pub open spec fn spec_read(self) -> bool {
        matches!(self, RWXFlags::ReadExecute | RWXFlags::ReadOnly | RWXFlags::ReadWrite | RWXFlags::ReadWriteExecute)
    }

    /// Whether the flags grant writing.
    pub open spec fn spec_write(self) -> bool {
        matches!(self, RWXFlags::ReadWrite | RWXFlags::ReadWriteExecute)
    }

    /// Whether the flags grant execution.
    pub open spec fn spec_execute(self) -> bool {
        matches!(self, RWXFlags::Execute | RWXFlags::ReadExecute | RWXFlags::ReadWriteExecute)
    }

    /// Determine if the read flag is present
    pub fn read(&self) -> (r: bool)
        ensures
            r == self.spec_read(),
    {
        matches!(self, RWXFlags::ReadExecute | RWXFlags::ReadOnly | RWXFlags::ReadWrite | RWXFlags::ReadWriteExecute)
    }

    /// Determine if the write flag is present
    pub fn write(&self) -> (r: bool)
        ensures
            r == self.spec_write(),
    {
        matches!(self, RWXFlags::ReadWrite | RWXFlags::ReadWriteExecute)
    }

    /// Determine if the execute flag is present
    pub fn execute(&self) -> (r: bool)
        ensures
            r == self.spec_execute(),
    {
        matches!(self, RWXFlags::Execute | RWXFlags::ReadExecute | RWXFlags::ReadWriteExecute)
    }
}

/// Every set of access flags grants at least one access, so a page mapped
/// with any of them is a leaf.
pub proof fn lemma_rwx_grants_access(flags: RWXFlags)
    ensures
        flags.spec_read() || flags.spec_write() || flags.spec_execute(),
{
}

impl UGFlags {
    /// Whether the user flag is present.
    pub open spec fn spec_user(self) -> bool {
        matches!(self, UGFlags::User | UGFlags::UserGlobal)
    }

    /// Whether the global flag is present.
    pub open spec fn spec_global(self) -> bool {
        matches!(self, UGFlags::Global | UGFlags::UserGlobal)
    }

    /// Determine if the user flag is present
    pub fn user(&self) -> (r: bool)
        ensures
            r == self.spec_user(),
    {
        matches!(self, UGFlags::User | UGFlags::UserGlobal)
    }

    /// Determine if the global flag is present
    pub fn global(&self) -> (r: bool)
        ensures
            r == self.spec_global(),
    {
        matches!(self, UGFlags::Global | UGFlags::UserGlobal)
    }
}

/// Number of entries in one table.
pub const TABLE_ENTRIES: usize = 512;

/// Page Table
///
/// The tables of the page table live in an arena: table `t` occupies the
/// entries `512 * t .. 512 * (t + 1)`, its physical page number is `t`, and
/// table 0 is the root. A directory entry refers to the next level by that
/// physical page number.
pub struct PageTable {
    entries: Vec<TableEntry>,
    count: usize,
}

impl View for PageTable {
    type V = Seq<TableEntry>;

    closed spec fn view(&self) -> Seq<TableEntry> {
        self.entries@
    }
}

/// One past the largest physical page number an entry can hold.
pub open spec fn ppn_limit() -> int {
    0x1000_0000_0000
}

/// Entry `i` of table `t`.
pub open spec fn entry_at(entries: Seq<TableEntry>, t: int, i: int) -> TableEntry {
    entries[512 * t + i]
}

/// Number of tables in an arena.
pub open spec fn tables_in(entries: Seq<TableEntry>) -> int {
    (entries.len() / 512) as int
}

/// Entry `i` of table `t` is a directory entry that points to the next level.
pub open spec fn is_directory(entries: Seq<TableEntry>, t: int, i: int) -> bool {
    entry_at(entries, t, i).spec_valid() && !entry_at(entries, t, i).spec_is_leaf()
}

/// The arena is whole tables, at least the root, and every directory entry
/// points to a later table of the arena.
pub open spec fn arena_wf(entries: Seq<TableEntry>) -> bool {
    &&& entries.len() == 512 * tables_in(entries)
    &&& 1 <= tables_in(entries) < ppn_limit()
    &&& forall|t: int, i: int|
        0 <= t < tables_in(entries) && 0 <= i < 512 && #[trigger] is_directory(entries, t, i)
            ==> t < entry_at(entries, t, i).spec_full_ppn() < tables_in(entries)
}

/// The virtual page number of `va` at `level`.
pub open spec fn vpn_of(va: u64, level: nat) -> int {
    field_of(va, (12 + 9 * level) as u64, 9) as int
}

/// The physical address that a leaf entry found at `level` gives to `va`.
pub open spec fn leaf_address(e: TableEntry, va: u64, level: nat) -> u64 {
    if level >= 2 {
        (field_of(e@, 28, 26) << 30) | (va & 0x3fffffff)
    } else if level == 1 {
        (field_of(e@, 28, 26) << 30) | (field_of(e@, 19, 9) << 21) | (va & 0x1fffff)
    } else {
        (field_of(e@, 28, 26) << 30) | (field_of(e@, 19, 9) << 21) | (field_of(e@, 10, 9) << 12) | (
        va & 0xfff)
    }
}

/// The Sv39 walk from table `t` at `level`: the leaf entry met and the
/// physical address it gives to `va`, or `None` at an invalid entry or a
/// level 0 entry that is not a leaf.
pub open spec fn walk(entries: Seq<TableEntry>, t: int, level: nat, va: u64) -> Option<
    (TableEntry, u64),
>
    decreases level,
{
    let e = entry_at(entries, t, vpn_of(va, level));
    if !e.spec_valid() {
        None
    } else if e.spec_is_leaf() {
        Some((e, leaf_address(e, va, level)))
    } else if level == 0 {
        None
    } else {
        walk(entries, e.spec_full_ppn() as int, (level - 1) as nat, va)
    }
}

/// The entry with no bit set.
pub closed spec fn zero_entry() -> TableEntry {
    TableEntry(0)
}

/// A table whose entries are all zero.
pub open spec fn zero_table() -> Seq<TableEntry> {
    Seq::new(512, |i: int| zero_entry())
}

/// The directory entry that points to table `n`.
pub closed spec fn directory_entry(n: u64) -> TableEntry {
    TableEntry(with_bit(with_field(0, 10, FULL_PPN_BITS, n), 0, true))
}

/// The leaf entry that maps to `phys` with the given flags.
pub closed spec fn leaf_entry(phys: usize, access: RWXFlags, flags: UGFlags) -> TableEntry {
    let v0 = with_bit(0, 0, true);
    let v1 = with_field(v0, 10, FULL_PPN_BITS, (phys as u64) >> 12u64);
    let v2 = with_bit(v1, 1, access.spec_read());
    let v3 = with_bit(v2, 2, access.spec_write());
    let v4 = with_bit(v3, 3, access.spec_execute());
    let v5 = with_bit(v4, 5, flags.spec_global());
    let v6 = with_bit(v5, 4, flags.spec_user());
    let v7 = with_bit(v6, 7, access.spec_write());
    let v8 = with_bit(v7, 6, access.spec_read());
    TableEntry(v8)
}

/// Walking down from table `t` at `level` to `stop` only meets invalid
/// entries or directory entries, so that mapping at `stop` never reads a
/// leaf as a table.
pub open spec fn map_path_ok(entries: Seq<TableEntry>, t: int, level: nat, stop: nat, va: u64) -> bool
    decreases level,
{
    let e = entry_at(entries, t, vpn_of(va, level));
    level > stop ==> (e.spec_valid() ==> !e.spec_is_leaf() && map_path_ok(
        entries,
        e.spec_full_ppn() as int,
        (level - 1) as nat,
        stop,
        va,
    ))
}

/// The arena after mapping `va` with the entry `leaf` at level `stop`,
/// starting at table `t` on `level`: a missing table on the way is appended
/// to the arena and linked in.
pub open spec fn map_walk(
    entries: Seq<TableEntry>,
    t: int,
    level: nat,
    stop: nat,
    va: u64,
    leaf: TableEntry,
) -> Seq<TableEntry>
    decreases level,
{
    let i = vpn_of(va, level);
    let e = entry_at(entries, t, i);
    if level <= stop {
        entries.update(512 * t + i, leaf)
    } else if e.spec_valid() {
        map_walk(entries, e.spec_full_ppn() as int, (level - 1) as nat, stop, va, leaf)
    } else {
        let n = tables_in(entries);
        let grown = (entries + zero_table()).update(512 * t + i, directory_entry(n as u64));
        map_walk(grown, n, (level - 1) as nat, stop, va, leaf)
    }
}

/// What the entry values used by the page table hold.
pub proof fn lemma_entry_values(n: u64, phys: usize, access: RWXFlags, flags: UGFlags)
    ensures
        zero_entry()@ == 0,
        !zero_entry().spec_valid(),
        directory_entry(n).spec_valid(),
        !directory_entry(n).spec_is_leaf(),
        directory_entry(n).spec_full_ppn() == n & low_mask(FULL_PPN_BITS),
        leaf_entry(phys, access, flags).spec_valid(),
        leaf_entry(phys, access, flags).spec_is_leaf(),
        leaf_entry(phys, access, flags).spec_read() == access.spec_read(),
        leaf_entry(phys, access, flags).spec_write() == access.spec_write(),
        leaf_entry(phys, access, flags).spec_execute() == access.spec_execute(),
        leaf_entry(phys, access, flags).spec_user() == flags.spec_user(),
        leaf_entry(phys, access, flags).spec_global() == flags.spec_global(),
        leaf_entry(phys, access, flags).spec_dirty() == access.spec_write(),
        leaf_entry(phys, access, flags).spec_accessed() == access.spec_read(),
        leaf_entry(phys, access, flags).spec_full_ppn() == ((phys as u64) >> 12u64) & low_mask(
            FULL_PPN_BITS,
        ),
{
    lemma_zero_entry();
    assert(bit_of(with_bit(with_field(0, 10, 44, n), 0, true), 0) && !bit_of(
        with_bit(with_field(0, 10, 44, n), 0, true),
        1,
    ) && !bit_of(with_bit(with_field(0, 10, 44, n), 0, true), 2) && !bit_of(
        with_bit(with_field(0, 10, 44, n), 0, true),
        3,
    ) && field_of(with_bit(with_field(0, 10, 44, n), 0, true), 10, 44) == n & low_mask(44))
        by (bit_vector);
    let p = (phys as u64) >> 12u64;
    let r = access.spec_read();
    let w = access.spec_write();
    let x = access.spec_execute();
    let g = flags.spec_global();
    let u = flags.spec_user();
    let v8 = leaf_entry(phys, access, flags)@;
    assert(v8 == with_bit(
        with_bit(
            with_bit(
                with_bit(
                    with_bit(
                        with_bit(
                            with_bit(with_field(with_bit(0, 0, true), 10, 44, p), 1, r),
                            2,
                            w,
                        ),
                        3,
                        x,
                    ),
                    5,
                    g,
                ),
                4,
                u,
            ),
            7,
            w,
        ),
        6,
        r,
    ));
    assert(bit_of(v8, 0) && bit_of(v8, 1) == r && bit_of(v8, 2) == w && bit_of(v8, 3) == x
        && bit_of(v8, 4) == u && bit_of(v8, 5) == g && bit_of(v8, 6) == r && bit_of(v8, 7) == w
        && field_of(v8, 10, 44) == p & low_mask(44)) by (bit_vector)
        requires
            v8 == with_bit(
                with_bit(
                    with_bit(
                        with_bit(
                            with_bit(
                                with_bit(
                                    with_bit(with_field(with_bit(0, 0, true), 10, 44, p), 1, r),
                                    2,
                                    w,
                                ),
                                3,
                                x,
                            ),
                            5,
                            g,
                        ),
                        4,
                        u,
                    ),
                    7,
                    w,
                ),
                6,
                r,
            ),
    ;
    lemma_rwx_grants_access(access);
}

/// A level 0 leaf gives the address made of its physical page number and the
/// page offset of the virtual address.
pub proof fn lemma_level0_leaf_address(e: TableEntry, va: u64)
    ensures
        leaf_address(e, va, 0) == (e.spec_full_ppn() << 12u64) | (va & 0xfff),
{
    let v = e@;
    assert((field_of(v, 28, 26) << 30) | (field_of(v, 19, 9) << 21) | (field_of(v, 10, 9) << 12) | (
    va & 0xfff) == (field_of(v, 10, 44) << 12) | (va & 0xfff)) by (bit_vector);
}

/// A leaf entry found at a level gives the address of its page at that
/// level plus the offset of the virtual address inside that page.
pub proof fn lemma_leaf_address(e: TableEntry, va: u64, level: MemoryPageLevel)
    ensures
        leaf_address(e, va, level.spec_index()) == ((e.spec_full_ppn() << 12u64) & !offset_mask(level)) | (va
            & offset_mask(level)),
{
    let v = e@;
    assert((field_of(v, 28, 26) << 30) | (field_of(v, 19, 9) << 21) | (field_of(v, 10, 9) << 12) | (
    va & 0xfff) == ((field_of(v, 10, 44) << 12) & !0xfffu64) | (va & 0xfff) && (field_of(v, 28, 26) << 30) | (
    field_of(v, 19, 9) << 21) | (va & 0x1fffff) == ((field_of(v, 10, 44) << 12) & !0x1fffffu64) | (va
        & 0x1fffff) && (field_of(v, 28, 26) << 30) | (va & 0x3fffffff) == ((field_of(v, 10, 44) << 12)
        & !0x3fffffffu64) | (va & 0x3fffffff)) by (bit_vector);
}

/// Mapping from table `t` only writes tables from `t` on and appended
/// tables; it keeps the arena well formed.
proof fn lemma_map_walk_frame(
    entries: Seq<TableEntry>,
    t: int,
    level: nat,
    stop: nat,
    va: u64,
    leaf: TableEntry,
)
    requires
        arena_wf(entries),
        0 <= t < tables_in(entries),
        tables_in(entries) + level < ppn_limit(),
        level <= 2,
        map_path_ok(entries, t, level, stop, va),
        leaf.spec_valid() ==> leaf.spec_is_leaf(),
    ensures
        arena_wf(map_walk(entries, t, level, stop, va, leaf)),
        map_walk(entries, t, level, stop, va, leaf).len() >= entries.len(),
        tables_in(map_walk(entries, t, level, stop, va, leaf)) <= tables_in(entries) + level,
        forall|k: int|
            0 <= k < 512 * t ==> #[trigger] map_walk(entries, t, level, stop, va, leaf)[k]
                == entries[k],
    decreases level,
{
    let i = vpn_of(va, level);
    lemma_field_bound(va, (12 + 9 * level) as u64, 9);
    lemma_masks();
    let e = entry_at(entries, t, i);
    if level <= stop {
        let r = entries.update(512 * t + i, leaf);
        assert(r.len() == entries.len());
        assert forall|t2: int, i2: int|
            0 <= t2 < tables_in(r) && 0 <= i2 < 512 && #[trigger] is_directory(
                r,
                t2,
                i2,
            ) implies t2 < entry_at(r, t2, i2).spec_full_ppn() < tables_in(r) by {
            assert(512 * t2 + i2 != 512 * t + i ==> entry_at(r, t2, i2) == entry_at(entries, t2, i2));
            assert(is_directory(entries, t2, i2));
        }
    } else if e.spec_valid() {
        assert(is_directory(entries, t, i));
        lemma_map_walk_frame(entries, e.spec_full_ppn() as int, (level - 1) as nat, stop, va, leaf);
    } else {
        let n = tables_in(entries);
        lemma_entry_values(n as u64, 0, RWXFlags::ReadOnly, UGFlags::NoFlags);
        let grown = (entries + zero_table()).update(512 * t + i, directory_entry(n as u64));
        assert(grown.len() == entries.len() + 512);
        assert(tables_in(grown) == n + 1);
        let nn = n as u64;
        lemma_ppn_fits(nn);
        assert forall|t2: int, i2: int|
            0 <= t2 < tables_in(grown) && 0 <= i2 < 512 && #[trigger] is_directory(
                grown,
                t2,
                i2,
            ) implies t2 < entry_at(grown, t2, i2).spec_full_ppn() < tables_in(grown) by {
            if 512 * t2 + i2 == 512 * t + i {
                assert(t2 == t);
            } else if t2 < n {
                assert(entry_at(grown, t2, i2) == entry_at(entries, t2, i2));
                assert(is_directory(entries, t2, i2));
            } else {
                assert(entry_at(grown, t2, i2) == zero_entry());
            }
        }
        assert(map_path_ok(grown, n, (level - 1) as nat, stop, va)) by {
            lemma_field_bound(va, (12 + 9 * (level - 1)) as u64, 9);
            assert(entry_at(grown, n, vpn_of(va, (level - 1) as nat)) == zero_entry());
        }
        lemma_map_walk_frame(grown, n, (level - 1) as nat, stop, va, leaf);
    }
}

/// Mapping `va` from table `t` and walking `va` again from `t` meets the
/// entry that was written, at the level it was written.
proof fn lemma_map_walk_reads_back(
    entries: Seq<TableEntry>,
    t: int,
    level: nat,
    stop: nat,
    va: u64,
    leaf: TableEntry,
)
    requires
        arena_wf(entries),
        0 <= t < tables_in(entries),
        tables_in(entries) + level < ppn_limit(),
        level <= 2,
        stop <= level,
        map_path_ok(entries, t, level, stop, va),
        leaf.spec_valid(),
        leaf.spec_is_leaf(),
    ensures
        walk(map_walk(entries, t, level, stop, va, leaf), t, level, va) == Some(
            (leaf, leaf_address(leaf, va, stop)),
        ),
    decreases level,
{
    let i = vpn_of(va, level);
    lemma_field_bound(va, (12 + 9 * level) as u64, 9);
    lemma_masks();
    let e = entry_at(entries, t, i);
    let r = map_walk(entries, t, level, stop, va, leaf);
    if level <= stop {
        assert(entry_at(r, t, i) == leaf);
    } else if e.spec_valid() {
        assert(is_directory(entries, t, i));
        let c = e.spec_full_ppn() as int;
        lemma_map_walk_frame(entries, c, (level - 1) as nat, stop, va, leaf);
        assert(r[512 * t + i] == entries[512 * t + i]);
        lemma_map_walk_reads_back(entries, c, (level - 1) as nat, stop, va, leaf);
    } else {
        let n = tables_in(entries);
        lemma_entry_values(n as u64, 0, RWXFlags::ReadOnly, UGFlags::NoFlags);
        let grown = (entries + zero_table()).update(512 * t + i, directory_entry(n as u64));
        assert(grown.len() == entries.len() + 512);
        assert(tables_in(grown) == n + 1);
        let nn = n as u64;
        lemma_ppn_fits(nn);
        lemma_map_walk_frame(entries, t, level, stop, va, leaf);
        assert(arena_wf(grown)) by {
            assert forall|t2: int, i2: int|
                0 <= t2 < tables_in(grown) && 0 <= i2 < 512 && #[trigger] is_directory(
                    grown,
                    t2,
                    i2,
                ) implies t2 < entry_at(grown, t2, i2).spec_full_ppn() < tables_in(grown) by {
                if 512 * t2 + i2 == 512 * t + i {
                    assert(t2 == t);
                } else if t2 < n {
                    assert(entry_at(grown, t2, i2) == entry_at(entries, t2, i2));
                    assert(is_directory(entries, t2, i2));
                } else {
                    assert(entry_at(grown, t2, i2) == zero_entry());
                }
            }
        }
        assert(map_path_ok(grown, n, (level - 1) as nat, stop, va)) by {
            lemma_field_bound(va, (12 + 9 * (level - 1)) as u64, 9);
            assert(entry_at(grown, n, vpn_of(va, (level - 1) as nat)) == zero_entry());
        }
        lemma_map_walk_frame(grown, n, (level - 1) as nat, stop, va, leaf);
        assert(r[512 * t + i] == grown[512 * t + i]);
        lemma_map_walk_reads_back(grown, n, (level - 1) as nat, stop, va, leaf);
    }
}

/// Mapping a virtual address and then translating it gives back the entry
/// written and the physical address that entry gives to the virtual address.
pub proof fn lemma_map_then_translate(
    table: PageTable,
    va: u64,
    phys: usize,
    access: RWXFlags,
    flags: UGFlags,
    level: MemoryPageLevel,
)
    requires
        table.wf(),
        table.table_count() + 2 < ppn_limit(),
        map_path_ok(table@, 0, 2, level.spec_index(), va),
    ensures
        walk(map_walk(table@, 0, 2, level.spec_index(), va, leaf_entry(phys, access, flags)), 0, 2, va)
            == Some(
            (
                leaf_entry(phys, access, flags),
                leaf_address(leaf_entry(phys, access, flags), va, level.spec_index()),
            ),
        ),
        level == MemoryPageLevel::Level0 ==> leaf_address(leaf_entry(phys, access, flags), va, 0)
            == ((((phys as u64) >> 12u64) & low_mask(FULL_PPN_BITS)) << 12u64) | (va & 0xfff),
        leaf_address(leaf_entry(phys, access, flags), va, level.spec_index()) == (((((phys as u64) >> 12u64)
            & low_mask(FULL_PPN_BITS)) << 12u64) & !offset_mask(level)) | (va & offset_mask(level)),
{
    lemma_entry_values(0, phys, access, flags);
    lemma_map_walk_reads_back(table@, 0, 2, level.spec_index(), va, leaf_entry(phys, access, flags));
    lemma_level0_leaf_address(leaf_entry(phys, access, flags), va);
    lemma_leaf_address(leaf_entry(phys, access, flags), va, level);
}

/// No two directory entries of the arena refer to the same table: the
/// tables form a tree.
pub open spec fn unique_parents(entries: Seq<TableEntry>) -> bool {
    forall|t1: int, i1: int, t2: int, i2: int|
        0 <= t1 < tables_in(entries) && 0 <= i1 < 512 && 0 <= t2 < tables_in(entries) && 0 <= i2 < 512
            && #[trigger] is_directory(entries, t1, i1) && #[trigger] is_directory(entries, t2, i2)
            && entry_at(entries, t1, i1).spec_full_ppn() == entry_at(entries, t2, i2).spec_full_ppn()
            ==> t1 == t2 && i1 == i2
}

/// The slot of the level 0 entry for `va`, reached from table `t` at
/// `level` through the entries of `r`.
pub open spec fn leaf_slot(r: Seq<TableEntry>, t: int, level: nat, va: u64) -> int
    decreases level,
{
    if level == 0 {
        512 * t + vpn_of(va, 0)
    } else {
        leaf_slot(r, entry_at(r, t, vpn_of(va, level)).spec_full_ppn() as int, (level - 1) as nat, va)
    }
}

/// The entries for `va` from table `t` at `level` down to level 1 are
/// directory entries of tables of the arena.
pub open spec fn dir_path(r: Seq<TableEntry>, t: int, level: nat, va: u64) -> bool
    decreases level,
{
    &&& 0 <= t < tables_in(r)
    &&& level > 0 ==> {
        &&& is_directory(r, t, vpn_of(va, level))
        &&& dir_path(r, entry_at(r, t, vpn_of(va, level)).spec_full_ppn() as int, (level - 1) as nat, va)
    }
}

/// The walk for `va` meets directory entries down to a leaf at level 0.
pub open spec fn reaches_level0(r: Seq<TableEntry>, va: u64) -> bool {
    &&& dir_path(r, 0, 2, va)
    &&& r[leaf_slot(r, 0, 2, va)].spec_valid()
    &&& r[leaf_slot(r, 0, 2, va)].spec_is_leaf()
}

/// Mapping `va` down to level 0 from table `t` writes the leaf into the slot
/// that the new arena leads `va` to, along directory entries, changes no
/// other valid entry of the old arena, and keeps the tables a tree.
proof fn lemma_map_walk_writes(entries: Seq<TableEntry>, t: int, level: nat, va: u64, leaf: TableEntry)
    requires
        arena_wf(entries),
        0 <= t < tables_in(entries),
        tables_in(entries) + level < ppn_limit(),
        level <= 2,
        map_path_ok(entries, t, level, 0, va),
        leaf.spec_valid(),
        leaf.spec_is_leaf(),
    ensures
        ({
            let r = map_walk(entries, t, level, 0, va, leaf);
            &&& dir_path(r, t, level, va)
            &&& 0 <= leaf_slot(r, t, level, va) < r.len()
            &&& r[leaf_slot(r, t, level, va)] == leaf
            &&& forall|k: int|
                0 <= k < entries.len() && entries[k].spec_valid() && k != leaf_slot(r, t, level, va)
                    ==> #[trigger] r[k] == entries[k]
            &&& unique_parents(entries) ==> unique_parents(r)
        }),
    decreases level,
{
    let i = vpn_of(va, level);
    lemma_field_bound(va, (12 + 9 * level) as u64, 9);
    lemma_masks();
    let e = entry_at(entries, t, i);
    let r = map_walk(entries, t, level, 0, va, leaf);
    lemma_map_walk_frame(entries, t, level, 0, va, leaf);
    if level == 0 {
        assert(r == entries.update(512 * t + i, leaf));
        if unique_parents(entries) {
            assert forall|t1: int, i1: int, t2: int, i2: int|
                0 <= t1 < tables_in(r) && 0 <= i1 < 512 && 0 <= t2 < tables_in(r) && 0 <= i2 < 512
                    && #[trigger] is_directory(r, t1, i1) && #[trigger] is_directory(r, t2, i2)
                    && entry_at(r, t1, i1).spec_full_ppn() == entry_at(r, t2, i2).spec_full_ppn()
                    implies t1 == t2 && i1 == i2 by {
                assert(512 * t1 + i1 != 512 * t + i);
                assert(512 * t2 + i2 != 512 * t + i);
                assert(is_directory(entries, t1, i1) && is_directory(entries, t2, i2));
            }
        }
    } else if e.spec_valid() {
        assert(is_directory(entries, t, i));
        let c = e.spec_full_ppn() as int;
        lemma_map_walk_frame(entries, c, (level - 1) as nat, 0, va, leaf);
        lemma_map_walk_writes(entries, c, (level - 1) as nat, va, leaf);
        assert(r[512 * t + i] == entries[512 * t + i]);
        assert(entry_at(r, t, i) == e);
    } else {
        let n = tables_in(entries);
        lemma_entry_values(n as u64, 0, RWXFlags::ReadOnly, UGFlags::NoFlags);
        let grown = (entries + zero_table()).update(512 * t + i, directory_entry(n as u64));
        assert(grown.len() == entries.len() + 512);
        assert(tables_in(grown) == n + 1);
        let nn = n as u64;
        lemma_ppn_fits(nn);
        assert(arena_wf(grown)) by {
            assert forall|t2: int, i2: int|
                0 <= t2 < tables_in(grown) && 0 <= i2 < 512 && #[trigger] is_directory(
                    grown,
                    t2,
                    i2,
                ) implies t2 < entry_at(grown, t2, i2).spec_full_ppn() < tables_in(grown) by {
                if 512 * t2 + i2 == 512 * t + i {
                    assert(t2 == t);
                } else if t2 < n {
                    assert(entry_at(grown, t2, i2) == entry_at(entries, t2, i2));
                    assert(is_directory(entries, t2, i2));
                } else {
                    assert(entry_at(grown, t2, i2) == zero_entry());
                }
            }
        }
        assert(map_path_ok(grown, n, (level - 1) as nat, 0, va)) by {
            lemma_field_bound(va, (12 + 9 * (level - 1)) as u64, 9);
            assert(entry_at(grown, n, vpn_of(va, (level - 1) as nat)) == zero_entry());
        }
        if unique_parents(entries) {
            assert forall|t1: int, i1: int, t2: int, i2: int|
                0 <= t1 < tables_in(grown) && 0 <= i1 < 512 && 0 <= t2 < tables_in(grown) && 0 <= i2 < 512
                    && #[trigger] is_directory(grown, t1, i1) && #[trigger] is_directory(grown, t2, i2)
                    && entry_at(grown, t1, i1).spec_full_ppn() == entry_at(grown, t2, i2).spec_full_ppn()
                    implies t1 == t2 && i1 == i2 by {
                if t1 >= n {
                    assert(entry_at(grown, t1, i1) == zero_entry());
                }
                if t2 >= n {
                    assert(entry_at(grown, t2, i2) == zero_entry());
                }
                let a = 512 * t1 + i1 == 512 * t + i;
                let b = 512 * t2 + i2 == 512 * t + i;
                if a && b {
                    assert(t1 == t && t2 == t);
                } else if a {
                    assert(entry_at(grown, t2, i2) == entry_at(entries, t2, i2));
                    assert(is_directory(entries, t2, i2));
                    assert(entry_at(entries, t2, i2).spec_full_ppn() < n);
                    assert(t1 == t);
                } else if b {
                    assert(entry_at(grown, t1, i1) == entry_at(entries, t1, i1));
                    assert(is_directory(entries, t1, i1));
                    assert(entry_at(entries, t1, i1).spec_full_ppn() < n);
                    assert(t2 == t);
                } else {
                    assert(entry_at(grown, t1, i1) == entry_at(entries, t1, i1));
                    assert(entry_at(grown, t2, i2) == entry_at(entries, t2, i2));
                    assert(is_directory(entries, t1, i1) && is_directory(entries, t2, i2));
                }
            }
        }
        lemma_map_walk_frame(grown, n, (level - 1) as nat, 0, va, leaf);
        lemma_map_walk_writes(grown, n, (level - 1) as nat, va, leaf);
        assert(r[512 * t + i] == grown[512 * t + i]);
        assert(entry_at(r, t, i) == directory_entry(n as u64));
        assert forall|k: int|
            0 <= k < entries.len() && entries[k].spec_valid() && k != leaf_slot(r, t, level, va)
                implies #[trigger] r[k] == entries[k] by {
            assert(k != 512 * t + i);
            assert(grown[k] == entries[k]);
        }
    }
}

/// Where the walk for `va` meets directory entries down to a leaf at level
/// 0, it gives that leaf and the address the leaf gives to `va`.
proof fn lemma_walk_level0(r: Seq<TableEntry>, va: u64)
    requires
        arena_wf(r),
        reaches_level0(r, va),
    ensures
        walk(r, 0, 2, va) == Some((r[leaf_slot(r, 0, 2, va)], leaf_address(r[leaf_slot(r, 0, 2, va)], va, 0))),
{
    reveal_with_fuel(walk, 3);
    reveal_with_fuel(leaf_slot, 3);
    let t1 = entry_at(r, 0, vpn_of(va, 2)).spec_full_ppn() as int;
    let t0 = entry_at(r, t1, vpn_of(va, 1)).spec_full_ppn() as int;
    assert(dir_path(r, t1, 1, va));
    assert(dir_path(r, t0, 0, va));
    assert(leaf_slot(r, 0, 2, va) == 512 * t0 + vpn_of(va, 0));
}

/// Mapping `va` down to level 0 keeps the walk of an address `vb` of
/// another page that met a leaf at level 0: the same slot, with the same
/// leaf.
proof fn lemma_map_keeps_level0(entries: Seq<TableEntry>, va: u64, vb: u64, leaf: TableEntry)
    requires
        arena_wf(entries),
        unique_parents(entries),
        tables_in(entries) + 2 < ppn_limit(),
        map_path_ok(entries, 0, 2, 0, va),
        leaf.spec_valid(),
        leaf.spec_is_leaf(),
        reaches_level0(entries, vb),
        !(vpn_of(va, 0) == vpn_of(vb, 0) && vpn_of(va, 1) == vpn_of(vb, 1) && vpn_of(va, 2) == vpn_of(vb, 2)),
    ensures
        ({
            let r = map_walk(entries, 0, 2, 0, va, leaf);
            &&& reaches_level0(r, vb)
            &&& leaf_slot(r, 0, 2, vb) == leaf_slot(entries, 0, 2, vb)
            &&& r[leaf_slot(r, 0, 2, vb)] == entries[leaf_slot(entries, 0, 2, vb)]
        }),
{
    let r = map_walk(entries, 0, 2, 0, va, leaf);
    reveal_with_fuel(leaf_slot, 3);
    lemma_masks();
    lemma_field_bound(va, 12, 9);
    lemma_field_bound(va, 21, 9);
    lemma_field_bound(va, 30, 9);
    lemma_field_bound(vb, 12, 9);
    lemma_field_bound(vb, 21, 9);
    lemma_field_bound(vb, 30, 9);
    lemma_map_walk_frame(entries, 0, 2, 0, va, leaf);
    lemma_map_walk_writes(entries, 0, 2, va, leaf);
    let l = leaf_slot(r, 0, 2, va);
    // the path of `va` in the new arena
    let a1 = entry_at(r, 0, vpn_of(va, 2)).spec_full_ppn() as int;
    let a0 = entry_at(r, a1, vpn_of(va, 1)).spec_full_ppn() as int;
    assert(dir_path(r, a1, 1, va));
    assert(dir_path(r, a0, 0, va));
    assert(is_directory(r, 0, vpn_of(va, 2)));
    assert(is_directory(r, a1, vpn_of(va, 1)));
    assert(0 < a1 < a0);
    assert(l == 512 * a0 + vpn_of(va, 0));
    // the path of `vb` in the old arena
    let b1 = entry_at(entries, 0, vpn_of(vb, 2)).spec_full_ppn() as int;
    let b0 = entry_at(entries, b1, vpn_of(vb, 1)).spec_full_ppn() as int;
    assert(dir_path(entries, b1, 1, vb));
    assert(dir_path(entries, b0, 0, vb));
    assert(is_directory(entries, 0, vpn_of(vb, 2)));
    assert(is_directory(entries, b1, vpn_of(vb, 1)));
    let s2 = vpn_of(vb, 2);
    let s1 = 512 * b1 + vpn_of(vb, 1);
    let s0 = 512 * b0 + vpn_of(vb, 0);
    assert(leaf_slot(entries, 0, 2, vb) == s0);
    assert(entries[s2].spec_valid() && entries[s1].spec_valid() && entries[s0].spec_valid());
    // the slot of the level 2 entry of `vb` is in the root, the leaf slot not
    assert(s2 != l);
    assert(r[s2] == entries[s2]);
    assert(entry_at(r, 0, vpn_of(vb, 2)) == entry_at(entries, 0, vpn_of(vb, 2)));
    assert(is_directory(r, 0, vpn_of(vb, 2)));
    // the level 1 entry of `vb` is not the leaf slot: its table has the
    // root as parent, the table of the leaf slot a table of level 1
    if s1 == l {
        assert(b1 == a0);
        assert(false);
    }
    assert(r[s1] == entries[s1]);
    assert(entry_at(r, b1, vpn_of(vb, 1)) == entry_at(entries, b1, vpn_of(vb, 1)));
    assert(is_directory(r, b1, vpn_of(vb, 1)));
    if s0 == l {
        assert(b0 == a0 && vpn_of(vb, 0) == vpn_of(va, 0));
        assert(b1 == a1 && vpn_of(vb, 1) == vpn_of(va, 1));
        assert(vpn_of(vb, 2) == vpn_of(va, 2));
        assert(false);
    }
    assert(r[s0] == entries[s0]);
    assert(dir_path(r, b0, 0, vb));
    assert(dir_path(r, b1, 1, vb));
    assert(dir_path(r, 0, 2, vb));
    assert(leaf_slot(r, 0, 2, vb) == s0);
}

/// One past the last address of the lower half of the Sv39 address space.
pub open spec fn sv39_limit() -> u64 {
    0x80_0000_0000
}

/// Two addresses of the lower half of the Sv39 address space lie in the
/// same page exactly when their three virtual page numbers agree; the leaf
/// made for the page of `va` gives `va` back.
proof fn lemma_page_numbers(va: u64, vb: u64)
    requires
        va < sv39_limit(),
        vb < sv39_limit(),
    ensures
        (va / 4096 == vb / 4096) == (vpn_of(va, 0) == vpn_of(vb, 0) && vpn_of(va, 1) == vpn_of(vb, 1)
            && vpn_of(va, 2) == vpn_of(vb, 2)),
        (((((va / 4096 * 4096) as u64) >> 12u64) & low_mask(FULL_PPN_BITS)) << 12u64) | (va & 0xfff) == va,
{
    lemma_masks();
    assert(((12 + 9 * 0nat) as u64) == 12u64);
    assert(((12 + 9 * 1nat) as u64) == 21u64);
    assert(((12 + 9 * 2nat) as u64) == 30u64);
    assert((va / 4096 == vb / 4096) == (field_of(va, 12, 9) == field_of(vb, 12, 9) && field_of(va, 21, 9)
        == field_of(vb, 21, 9) && field_of(va, 30, 9) == field_of(vb, 30, 9)) && (((((va / 4096 * 4096)
        as u64) >> 12u64) & 0xfffffffffffu64) << 12u64) | (va & 0xfff) == va) by (bit_vector)
        requires
            va < 0x80_0000_0000u64,
            vb < 0x80_0000_0000u64,
            low_mask(9) == 0x1ffu64,
    ;
}

/// The arena `r` keeps the level 0 leaves that the addresses outside the
/// `pages` pages from `addr` met in `e`.
pub open spec fn keeps_level0(e: Seq<TableEntry>, r: Seq<TableEntry>, addr: int, pages: nat) -> bool {
    forall|vb: u64|
        vb < sv39_limit() && reaches_level0(e, vb) && !(addr <= vb < addr + 4096 * pages)
            ==> #[trigger] reaches_level0(r, vb) && r[leaf_slot(r, 0, 2, vb)] == e[leaf_slot(e, 0, 2, vb)]
}

/// The arena `r` leads every address of the `pages` pages from `addr` to
/// the leaf made for its page.
pub open spec fn maps_identity(r: Seq<TableEntry>, addr: int, pages: nat, access: RWXFlags, flags: UGFlags) -> bool {
    forall|va: u64|
        addr <= va < addr + 4096 * pages ==> #[trigger] reaches_level0(r, va) && r[leaf_slot(r, 0, 2, va)]
            == leaf_entry((va / 4096 * 4096) as usize, access, flags)
}

/// The arena after an identity map of `pages` pages from `addr` keeps the
/// level 0 leaves met by addresses outside those pages, and leads every
/// address of those pages to the leaf made for its page.
#[verifier::spinoff_prover]
#[verifier::rlimit(40)]
proof fn lemma_identity_pages_walks(
    entries: Seq<TableEntry>,
    addr: usize,
    pages: nat,
    access: RWXFlags,
    flags: UGFlags,
)
    requires
        arena_wf(entries),
        unique_parents(entries),
        tables_in(entries) + 2 * pages + 2 < ppn_limit(),
        identity_path_ok(entries, addr, pages, access, flags),
        addr % 4096 == 0,
        addr + 4096 * pages <= sv39_limit(),
        addr + 4096 * pages <= usize::MAX,
    ensures
        arena_wf(identity_pages(entries, addr, pages, access, flags)),
        unique_parents(identity_pages(entries, addr, pages, access, flags)),
        keeps_level0(entries, identity_pages(entries, addr, pages, access, flags), addr as int, pages),
        maps_identity(identity_pages(entries, addr, pages, access, flags), addr as int, pages, access, flags),
    decreases pages,
{
    if pages > 0 {
        let a = addr as u64;
        let leaf = leaf_entry(addr, access, flags);
        lemma_entry_values(0, addr, access, flags);
        let r1 = map_walk(entries, 0, 2, 0, a, leaf);
        lemma_map_walk_frame(entries, 0, 2, 0, a, leaf);
        lemma_map_walk_writes(entries, 0, 2, a, leaf);
        assert(4096 * pages == 4096 * (pages - 1) + 4096) by (nonlinear_arith)
            requires
                pages > 0,
        ;
        assert(4096 * (pages - 1) >= 0) by (nonlinear_arith)
            requires
                pages > 0,
        ;
        let next = (addr + 4096) as usize;
        assert(next == addr + 4096);
        assert(next % 4096 == 0);
        assert(next + 4096 * (pages - 1) == addr + 4096 * pages);
        lemma_identity_pages_walks(r1, next, (pages - 1) as nat, access, flags);
        let r = identity_pages(entries, addr, pages, access, flags);
        assert(keeps_level0(r1, r, next as int, (pages - 1) as nat));
        assert(maps_identity(r, next as int, (pages - 1) as nat, access, flags));
        assert(r == identity_pages(r1, next, (pages - 1) as nat, access, flags));
        assert forall|vb: u64|
            vb < sv39_limit() && reaches_level0(entries, vb) && !(addr <= vb < addr + 4096 * pages)
                implies #[trigger] reaches_level0(r, vb) && r[leaf_slot(r, 0, 2, vb)] == entries[leaf_slot(
                entries,
                0,
                2,
                vb,
            )] by {
            lemma_page_numbers(a, vb);
            assert(!(a <= vb < a + 4096));
            assert(a / 4096 != vb / 4096) by (nonlinear_arith)
                requires
                    a % 4096 == 0,
                    !(a <= vb < a + 4096),
            ;
            lemma_map_keeps_level0(entries, a, vb, leaf);
            assert(reaches_level0(r1, vb));
            assert(!(next <= vb < next + 4096 * (pages - 1)));
            assert(reaches_level0(r, vb));
        }
        assert forall|va: u64| addr <= va < addr + 4096 * pages implies #[trigger] reaches_level0(r, va)
            && r[leaf_slot(r, 0, 2, va)] == leaf_entry((va / 4096 * 4096) as usize, access, flags) by {
            if va < next {
                lemma_page_numbers(a, va);
                assert(a / 4096 == va / 4096);
                assert(va / 4096 * 4096 == addr);
                reveal_with_fuel(leaf_slot, 3);
                reveal_with_fuel(dir_path, 3);
                assert(leaf_slot(r1, 0, 2, va) == leaf_slot(r1, 0, 2, a));
                assert(dir_path(r1, 0, 2, va));
                assert(reaches_level0(r1, va));
                assert(r1[leaf_slot(r1, 0, 2, va)] == leaf);
                assert(!(next <= va < next + 4096 * (pages - 1)));
                assert(va < sv39_limit());
                assert(reaches_level0(r, va));
                assert(r[leaf_slot(r, 0, 2, va)] == r1[leaf_slot(r1, 0, 2, va)]);
            } else {
                assert(next <= va < next + 4096 * (pages - 1));
                assert(reaches_level0(r, va));
            }
        }
        assert(arena_wf(r));
        assert(unique_parents(r));
        assert(keeps_level0(entries, r, addr as int, pages));
        assert(maps_identity(r, addr as int, pages, access, flags));
    } else {
        let r = identity_pages(entries, addr, pages, access, flags);
        assert(r == entries);
        assert(addr + 4096 * pages == addr);
        assert(maps_identity(r, addr as int, pages, access, flags));
        assert(keeps_level0(entries, r, addr as int, pages));
    }
}

/// After an identity map of the addresses `start ..= end` of the lower half
/// of the Sv39 address space into a table whose tables form a tree, every
/// address of the pages mapped translates to itself, through the leaf made
/// with the given access and flags for its page.
pub proof fn lemma_identity_map_translates(
    table: PageTable,
    start: usize,
    end: usize,
    access: RWXFlags,
    flags: UGFlags,
)
    requires
        table.wf(),
        unique_parents(table@),
        end < sv39_limit(),
        end <= usize::MAX - 4096,
        table.table_count() + 2 * identity_page_count(start, end) + 2 < ppn_limit(),
        identity_path_ok(
            table@,
            (start / 4096 * 4096) as usize,
            identity_page_count(start, end),
            access,
            flags,
        ),
    ensures
        ({
            let base = (start / 4096 * 4096) as usize;
            let r = identity_pages(table@, base, identity_page_count(start, end), access, flags);
            &&& unique_parents(r)
            &&& forall|va: u64|
                base <= va < base + 4096 * identity_page_count(start, end) ==> #[trigger] walk(r, 0, 2, va)
                    == Some((leaf_entry((va / 4096 * 4096) as usize, access, flags), va))
        }),
{
    let base = (start / 4096 * 4096) as usize;
    let count = identity_page_count(start, end);
    assert(base % 4096 == 0 && base <= start) by (nonlinear_arith)
        requires
            base == start / 4096 * 4096,
    ;
    if base <= end {
        let q = (end - base) / 4096;
        let m = base / 4096 + q;
        assert(4096 * q <= end - base && base + 4096 * q == 4096 * m) by (nonlinear_arith)
            requires
                q == (end - base) / 4096,
                m == base / 4096 + q,
                base % 4096 == 0,
                base <= end,
        ;
        assert(m < 0x800_0000) by (nonlinear_arith)
            requires
                4096 * m <= end,
                end < 0x80_0000_0000,
        ;
        assert(base + 4096 * count == 4096 * (m + 1)) by (nonlinear_arith)
            requires
                count == q + 1,
                base + 4096 * q == 4096 * m,
        ;
        assert(4096 * (m + 1) <= 0x80_0000_0000) by (nonlinear_arith)
            requires
                m < 0x800_0000,
        ;
        assert(base + 4096 * count <= end + 4096);
    } else {
        assert(count == 0);
        assert(identity_pages(table@, base, count, access, flags) == table@);
        table.lemma_table_count();
        return;
    }
    table.lemma_table_count();
    lemma_identity_pages_walks(table@, base, count, access, flags);
    let r = identity_pages(table@, base, count, access, flags);
    assert forall|va: u64| base <= va < base + 4096 * count implies #[trigger] walk(r, 0, 2, va) == Some(
        (leaf_entry((va / 4096 * 4096) as usize, access, flags), va),
    ) by {
        assert(maps_identity(r, base as int, count, access, flags));
        assert(reaches_level0(r, va));
        lemma_walk_level0(r, va);
        let leaf = leaf_entry((va / 4096 * 4096) as usize, access, flags);
        lemma_entry_values(0, (va / 4096 * 4096) as usize, access, flags);
        lemma_level0_leaf_address(leaf, va);
        lemma_page_numbers(va, va);
    }
}

impl PageTable {
    /// The table is a well formed arena of tables.
    pub closed spec fn wf(&self) -> bool {
        &&& self.entries@.len() == 512 * self.count
        &&& arena_wf(self.entries@)
    }

    /// The number of tables in the arena.
    pub closed spec fn table_count(&self) -> nat {
        self.count as nat
    }

    /// A well-formed page table counts the tables of its arena.
    pub proof fn lemma_table_count(&self)
        requires
            self.wf(),
        ensures
            self.table_count() == tables_in(self@),
    {
    }

    /// Construct a new, empty page table
    pub fn new() -> (r: Self)
        ensures
            r.wf(),
            r@ == zero_table(),
            r.table_count() == 1,
            unique_parents(r@),
    {
        let mut entries: Vec<TableEntry> = Vec::new();
        let mut k: usize = 0;
        while k < TABLE_ENTRIES
            invariant
                k <= TABLE_ENTRIES,
                entries@ == Seq::new(k as nat, |i: int| zero_entry()),
            decreases TABLE_ENTRIES - k,
        {
            let e = TableEntry::new();
            assert(e == zero_entry());
            entries.push(e);
            k = k + 1;
            assert(entries@ =~= Seq::new(k as nat, |i: int| zero_entry()));
        }
        proof {
            lemma_entry_values(0, 0, RWXFlags::ReadOnly, UGFlags::NoFlags);
            assert(entries@ =~= zero_table());
            assert(tables_in(entries@) == 1);
            assert forall|t: int, i: int| 0 <= t < 1 && 0 <= i < 512 implies !#[trigger] is_directory(entries@, t, i) by {
                assert(entry_at(entries@, t, i) == zero_entry());
            }
        }
        PageTable { entries, count: 1 }
    }
}

/// The result of a walk with the address made a `usize`.
pub open spec fn walk_result(w: Option<(TableEntry, u64)>) -> Option<(TableEntry, usize)> {
    match w {
        Some((e, a)) => Some((e, a as usize)),
        None => None,
    }
}

impl PageTable {
    /// Translate a virtual address to an entry and an address
    pub fn translate_to_entry(&self, virt: VirtualAddress) -> (r: Option<(TableEntry, usize)>)
        requires
            self.wf(),
        ensures
            r == walk_result(walk(self@, 0, 2, virt@)),
    {
        proof {
            lemma_masks();
            lemma_field_bound(virt@, 12, 9);
            lemma_field_bound(virt@, 21, 9);
            lemma_field_bound(virt@, 30, 9);
            reveal_with_fuel(walk, 3);
        }
        // Get the components of the virtual address
        let vpn2 = virt.vpn(MemoryPageLevel::Level2);
        let vpn1 = virt.vpn(MemoryPageLevel::Level1);
        let vpn0 = virt.vpn(MemoryPageLevel::Level0);

        // Next, start going down the table of entries at each level
        let entry_level2 = self.entries[(vpn2 % 512) as usize];
        // If the entry is not valid, we will return a page fault
        if entry_level2.valid() == false {
            return None;
        }
        // If the entry is a leaf, we will break out here, returning the physical address
         else if entry_level2.is_leaf() {
            let result = (entry_level2.ppn(MemoryPageLevel::Level2) << 30)
                | virt.page_offset_level(MemoryPageLevel::Level2);
            return Some((entry_level2, result as usize));
        }
        // Otherwise, the entry refers to the table of the next level

        proof {
            assert(is_directory(self@, 0, vpn2 as int));
            assert(512 * entry_level2.spec_full_ppn() + 512 <= self.entries.len());
        }
        let level2_table = entry_level2.full_ppn() as usize;

        // Next, start going down the table of entries at each level
        let entry_level1 = self.entries[TABLE_ENTRIES * level2_table + (vpn1 % 512) as usize];
        // If the entry is not valid, we will return a page fault
        if entry_level1.valid() == false {
            return None;
        }
        // If the entry is a leaf, we will break out here, returning the physical address
         else if entry_level1.is_leaf() {
            let result = (entry_level1.ppn(MemoryPageLevel::Level2) << 30) | (entry_level1.ppn(
                MemoryPageLevel::Level1,
            ) << 21) | virt.page_offset_level(MemoryPageLevel::Level1);
            return Some((entry_level1, result as usize));
        }
        // Otherwise, the entry refers to the table of the next level

        proof {
            assert(is_directory(self@, level2_table as int, vpn1 as int));
            assert(512 * entry_level1.spec_full_ppn() + 512 <= self.entries.len());
        }
        let level1_table = entry_level1.full_ppn() as usize;

        // Next, start going down the table of entries at each level
        let entry_level0 = self.entries[TABLE_ENTRIES * level1_table + (vpn0 % 512) as usize];
        // If the entry is not valid, we will return a page fault
        if entry_level0.valid() == false {
            return None;
        }
        // If the entry is a leaf, we will break out here, returning the physical address
         else if entry_level0.is_leaf() {
            let result = (entry_level0.ppn(MemoryPageLevel::Level2) << 30) | (entry_level0.ppn(
                MemoryPageLevel::Level1,
            ) << 21) | (entry_level0.ppn(MemoryPageLevel::Level0) << 12)
                | virt.page_offset_level(MemoryPageLevel::Level0);
            return Some((entry_level0, result as usize));
        }
        // If all else fails, and we are missing a leaf node, return a page fault

        None
    }

    /// Translate a virtual address to a physical address
    pub fn translate(&self, virt: VirtualAddress) -> (r: Option<usize>)
        requires
            self.wf(),
        ensures
            r == match walk(self@, 0, 2, virt@) {
                Some((e, a)) => Some(a as usize),
                None => None,
            },
    {
        match self.translate_to_entry(virt) {
            Some(v) => Some(v.1),
            None => None,
        }
    }
}

impl PageTable {
    /// Append an empty table to the arena, returning its number.
    fn push_table(&mut self) -> (n: usize)
        requires
            old(self).wf(),
            old(self).count + 1 < ppn_limit(),
        ensures
            n == old(self).count,
            final(self).count == old(self).count + 1,
            final(self)@ == old(self)@ + zero_table(),
            final(self).entries@.len() == 512 * final(self).count,
    {
        let n = self.count;
        let mut k: usize = 0;
        let ghost start = self.entries@;
        while k < TABLE_ENTRIES
            invariant
                k <= TABLE_ENTRIES,
                self.entries@ == start + Seq::new(k as nat, |i: int| zero_entry()),
                self.count == n,
                start.len() == 512 * n,
            decreases TABLE_ENTRIES - k,
        {
            let e = TableEntry::new();
            assert(e == zero_entry());
            self.entries.push(e);
            k = k + 1;
            assert(self.entries@ =~= start + Seq::new(k as nat, |i: int| zero_entry()));
        }
        assert(self.entries@ =~= start + zero_table());
        let len = self.entries.len();
        assert(len == 512 * (n + 1));
        self.count = n + 1;
        n
    }

    /// Map a virtual address to a physical address
    pub fn map(
        &mut self,
        virt: VirtualAddress,
        phys: usize,
        access_flags: RWXFlags,
        flags: UGFlags,
        level: MemoryPageLevel,
    )
        requires
            old(self).wf(),
            old(self).table_count() + 2 < ppn_limit(),
            map_path_ok(old(self)@, 0, 2, level.spec_index(), virt@),
        ensures
            final(self).wf(),
            final(self)@ == map_walk(
                old(self)@,
                0,
                2,
                level.spec_index(),
                virt@,
                leaf_entry(phys, access_flags, flags),
            ),
            final(self).table_count() <= old(self).table_count() + 2,
    {
        let ghost leaf = leaf_entry(phys, access_flags, flags);
        let ghost stop = level.spec_index();
        let ghost goal = map_walk(self@, 0, 2, stop, virt@, leaf);
        let ghost start_count = self.count;
        proof {
            lemma_masks();
            lemma_entry_values(0, phys, access_flags, flags);
        }
        // Get the current entry
        let mut t: usize = 0;
        let mut i: usize = virt.vpn(MemoryPageLevel::Level2) as usize;

        // Go backwards through the levels to the appropriate end point
        let steps = 2 - level.index();
        let mut k: usize = 0;
        while k < steps
            invariant
                self.wf(),
                steps == 2 - stop,
                stop <= 2,
                k <= steps,
                t < self.count,
                i == vpn_of(virt@, (2 - k) as nat),
                self.count <= start_count + k,
                start_count + 2 < ppn_limit(),
                goal == map_walk(self@, t as int, (2 - k) as nat, stop, virt@, leaf),
                map_path_ok(self@, t as int, (2 - k) as nat, stop, virt@),
                leaf.spec_valid(),
                leaf.spec_is_leaf(),
            decreases steps - k,
        {
            let next_level = if k == 0 {
                MemoryPageLevel::Level1
            } else {
                MemoryPageLevel::Level0
            };
            proof {
                lemma_masks();
                lemma_field_bound(virt@, (12 + 9 * (2 - k)) as u64, 9);
                lemma_field_bound(virt@, (12 + 9 * (1 - k)) as u64, 9);
            }
            let len = self.entries.len();
            assert(512 * t + i < len);
            let index = TABLE_ENTRIES * t + i;
            // If the current entry is invalid, we need to allocate a new table for the next level
            if self.entries[index].valid() == false {
                let ghost before = self@;
                // Allocate the next level
                let next_table = self.push_table();

                // Write the number of the next table into a cleared entry and validate it
                let mut entry = TableEntry::new();
                entry.set_full_ppn(next_table as u64);
                entry.set_valid(true);
                proof {
                    assert(entry == directory_entry(next_table as u64));
                    lemma_entry_values(next_table as u64, 0, access_flags, flags);
                    let nn = next_table as u64;
                    lemma_ppn_fits(nn);
                }
                self.entries.set(index, entry);
                proof {
                    let grown = (before + zero_table()).update(
                        512 * t + i,
                        directory_entry(next_table as u64),
                    );
                    assert(self@ =~= grown);
                    assert(tables_in(before) == next_table);
                    assert(tables_in(self@) == self.count);
                    assert forall|t2: int, i2: int|
                        0 <= t2 < tables_in(self@) && 0 <= i2 < 512 && #[trigger] is_directory(
                            self@,
                            t2,
                            i2,
                        ) implies t2 < entry_at(self@, t2, i2).spec_full_ppn() < tables_in(
                        self@,
                    ) by {
                        if 512 * t2 + i2 == 512 * t + i {
                            assert(t2 == t);
                        } else if t2 < next_table {
                            assert(entry_at(self@, t2, i2) == entry_at(before, t2, i2));
                            assert(is_directory(before, t2, i2));
                        } else {
                            assert(entry_at(self@, t2, i2) == zero_entry());
                        }
                    }
                    assert(entry_at(self@, next_table as int, vpn_of(virt@, (1 - k) as nat))
                        == zero_entry());
                }
            } else {
                proof {
                    assert(is_directory(self@, t as int, i as int));
                }
            }

            // Step to the next entry
            t = self.entries[index].full_ppn() as usize;
            i = virt.vpn(next_level) as usize;
            k = k + 1;
        }

        // Fill in the entry
        proof {
            lemma_field_bound(virt@, (12 + 9 * stop) as u64, 9);
        }
        let mut entry = TableEntry::new();
        entry.set_valid(true);
        entry.set_full_ppn(phys as u64 >> 12);

        entry.set_read(access_flags.read());
        entry.set_write(access_flags.write());
        entry.set_execute(access_flags.execute());

        entry.set_global(flags.global());
        entry.set_user(flags.user());

        entry.set_dirty(access_flags.write());
        entry.set_accessed(access_flags.read());
        assert(entry == leaf);

        let ghost before = self@;
        let len = self.entries.len();
        assert(512 * t + i < len);
        self.entries.set(TABLE_ENTRIES * t + i, entry);
        proof {
            assert(self@ == before.update(512 * t + i, leaf));
            assert forall|t2: int, i2: int|
                0 <= t2 < tables_in(self@) && 0 <= i2 < 512 && #[trigger] is_directory(
                    self@,
                    t2,
                    i2,
                ) implies t2 < entry_at(self@, t2, i2).spec_full_ppn() < tables_in(self@) by {
                assert(512 * t2 + i2 != 512 * t + i ==> entry_at(self@, t2, i2) == entry_at(before, t2, i2));
                assert(is_directory(before, t2, i2));
            }
        }
    }
}

/// The arena after identity mapping `pages` consecutive pages from `addr`
/// at level 0.
pub open spec fn identity_pages(
    entries: Seq<TableEntry>,
    addr: usize,
    pages: nat,
    access: RWXFlags,
    flags: UGFlags,
) -> Seq<TableEntry>
    decreases pages,
{
    if pages == 0 {
        entries
    } else {
        identity_pages(
            map_walk(entries, 0, 2, 0, addr as u64, leaf_entry(addr, access, flags)),
            (addr + 4096) as usize,
            (pages - 1) as nat,
            access,
            flags,
        )
    }
}

/// Every one of the level 0 mappings of an identity map meets only invalid
/// or directory entries on its way down, in the arena as the earlier
/// mappings left it.
pub open spec fn identity_path_ok(
    entries: Seq<TableEntry>,
    addr: usize,
    pages: nat,
    access: RWXFlags,
    flags: UGFlags,
) -> bool
    decreases pages,
{
    pages > 0 ==> {
        &&& map_path_ok(entries, 0, 2, 0, addr as u64)
        &&& identity_path_ok(
            map_walk(entries, 0, 2, 0, addr as u64, leaf_entry(addr, access, flags)),
            (addr + 4096) as usize,
            (pages - 1) as nat,
            access,
            flags,
        )
    }
}

/// The number of pages that an identity map of `start ..= end` maps.
pub open spec fn identity_page_count(start: usize, end: usize) -> nat {
    let base = start / 4096 * 4096;
    if base > end {
        0
    } else {
        ((end - base) / 4096 + 1) as nat
    }
}

/// An entry with its valid bit cleared, if it was set.
pub closed spec fn invalidated(e: TableEntry) -> TableEntry {
    if e.spec_valid() {
        TableEntry(with_bit(e@, 0, false))
    } else {
        e
    }
}

/// An invalidated entry is invalid and keeps every other bit.
pub proof fn lemma_invalidated(e: TableEntry)
    ensures
        !invalidated(e).spec_valid(),
        forall|j: u64| 0 < j < 64 ==> #[trigger] bit_of(invalidated(e)@, j) == bit_of(e@, j),
{
    lemma_set_clear_bit(e@, 0);
}

impl PageTable {
    /// Identity map a range of addresses
    pub fn identity_map(&mut self, start: usize, end: usize, access_flags: RWXFlags, flags: UGFlags)
        requires
            old(self).wf(),
            end <= usize::MAX - 4096,
            old(self).table_count() + 2 * identity_page_count(start, end) + 2 < ppn_limit(),
            identity_path_ok(
                old(self)@,
                (start / 4096 * 4096) as usize,
                identity_page_count(start, end),
                access_flags,
                flags,
            ),
        ensures
            final(self).wf(),
            final(self)@ == identity_pages(
                old(self)@,
                (start / 4096 * 4096) as usize,
                identity_page_count(start, end),
                access_flags,
                flags,
            ),
    {
        // Loop over the range in page sized chunks
        let mut walking_addr = start & !(4096 - 1);
        assert(walking_addr == start / 4096 * 4096) by (bit_vector)
            requires
                walking_addr == start & !4095usize,
        ;
        let ghost goal = identity_pages(
            self@,
            walking_addr,
            identity_page_count(start, end),
            access_flags,
            flags,
        );
        let ghost mut remaining: nat = identity_page_count(start, end);
        while walking_addr <= end
            invariant
                self.wf(),
                end <= usize::MAX - 4096,
                walking_addr % 4096 == 0,
                remaining == if walking_addr > end {
                    0
                } else {
                    ((end - walking_addr) / 4096 + 1) as nat
                },
                self.table_count() + 2 * remaining + 2 < ppn_limit(),
                identity_path_ok(self@, walking_addr, remaining, access_flags, flags),
                goal == identity_pages(self@, walking_addr, remaining, access_flags, flags),
            decreases remaining,
        {
            // Map each page sized chunk
            self.map(
                VirtualAddress(walking_addr as u64),
                walking_addr,
                access_flags,
                flags,
                MemoryPageLevel::Level0,
            );

            walking_addr += super::PAGE_SIZE;
            proof {
                remaining = (remaining - 1) as nat;
            }
        }
    }

    /// Clear the valid bit of every valid entry of table `t` and, first, of
    /// the tables its directory entries refer to.
    fn unmap_table(&mut self, t: usize)
        requires
            old(self).wf(),
            t < old(self).count,
        ensures
            final(self).wf(),
            final(self).count == old(self).count,
            forall|k: int| 0 <= k < 512 * t ==> #[trigger] final(self)@[k] == old(self)@[k],
            forall|i: int|
                0 <= i < 512 ==> #[trigger] entry_at(final(self)@, t as int, i) == invalidated(
                    entry_at(old(self)@, t as int, i),
                ),
        decreases old(self).count - t,
    {
        let ghost start = self@;
        let mut i: usize = 0;
        while i < TABLE_ENTRIES
            invariant
                self.wf(),
                self.count == old(self).count,
                t < self.count,
                i <= TABLE_ENTRIES,
                start == old(self)@,
                forall|k: int| 0 <= k < 512 * t ==> #[trigger] self@[k] == start[k],
                forall|i2: int|
                    0 <= i2 < i ==> #[trigger] entry_at(self@, t as int, i2) == invalidated(
                        entry_at(start, t as int, i2),
                    ),
                forall|i2: int|
                    i <= i2 < 512 ==> #[trigger] entry_at(self@, t as int, i2) == entry_at(
                        start,
                        t as int,
                        i2,
                    ),
            decreases TABLE_ENTRIES - i,
        {
            let len = self.entries.len();
            assert(512 * t + i < len);
            let index = TABLE_ENTRIES * t + i;
            let entry = self.entries[index];
            let ghost at_start = self@;
            if entry.valid() {
                // If it is not a leaf, it refers to another table, which we need to clear
                if !entry.is_leaf() {
                    proof {
                        assert(is_directory(self@, t as int, i as int));
                    }
                    let next_level = entry.full_ppn() as usize;
                    let ghost mid = self@;
                    self.unmap_table(next_level);
                    proof {
                        assert forall|k: int| 0 <= k < 512 * t + 512 implies #[trigger] self@[k]
                            == mid[k] by {
                            assert(k < 512 * next_level);
                        }
                    }
                }
                // Invalidate the entry
                let ghost before = self@;
                self.entries[index].set_valid(false);
                proof {
                    assert(self@ == before.update(index as int, self@[index as int]));
                    assert(before[index as int] == entry);
                    lemma_set_clear_bit(entry@, 0);
                    assert(self@[512 * t + i] == invalidated(entry));
                    assert forall|t2: int, i2: int|
                        0 <= t2 < tables_in(self@) && 0 <= i2 < 512 && #[trigger] is_directory(
                            self@,
                            t2,
                            i2,
                        ) implies t2 < entry_at(self@, t2, i2).spec_full_ppn() < tables_in(
                        self@,
                    ) by {
                        assert(512 * t2 + i2 != 512 * t + i ==> entry_at(self@, t2, i2) == entry_at(before, t2, i2));
                        assert(is_directory(before, t2, i2));
                    }
                }
            }
            proof {
                assert(entry == entry_at(start, t as int, i as int));
                assert(self@[512 * t + i] == invalidated(entry));
                assert forall|i2: int| 0 <= i2 < 512 && i2 != i implies #[trigger] entry_at(
                    self@,
                    t as int,
                    i2,
                ) == entry_at(at_start, t as int, i2) by {}
                assert forall|k: int| 0 <= k < 512 * t implies #[trigger] self@[k] == at_start[k] by {}
            }
            i = i + 1;
        }
    }

    /// Remove all of the tables below the root and invalidate the entries of
    /// the root.
    pub fn unmap_all(&mut self)
        requires
            old(self).wf(),
        ensures
            final(self).wf(),
            final(self).table_count() == 1,
            final(self)@ == Seq::new(512, |i: int| invalidated(old(self)@[i])),
    {
        self.unmap_table(0);
        let ghost cleared = self@;
        // The tables below the root are released
        self.entries.truncate(TABLE_ENTRIES);
        self.count = 1;
        proof {
            assert forall|i: int| 0 <= i < 512 implies #[trigger] self@[i] == invalidated(old(self)@[i]) by {
                assert(entry_at(cleared, 0, i) == cleared[i]);
                assert(entry_at(old(self)@, 0, i) == old(self)@[i]);
            }
            assert(self@ =~= Seq::new(512, |i: int| invalidated(old(self)@[i])));
            assert forall|t2: int, i2: int|
                0 <= t2 < tables_in(self@) && 0 <= i2 < 512 && #[trigger] is_directory(
                    self@,
                    t2,
                    i2,
                ) implies t2 < entry_at(self@, t2, i2).spec_full_ppn() < tables_in(self@) by {
                lemma_invalidated(old(self)@[i2]);
            }
        }
    }
}

/// A page number under 2^44 fits the page-number field.
proof fn lemma_ppn_fits(nn: u64)
    by (bit_vector)
    requires
        nn < 0x1000_0000_0000,
        low_mask(FULL_PPN_BITS) == 0xfffffffffff,
    ensures
        nn & low_mask(FULL_PPN_BITS) == nn,
{
}

/// The zero entry is not valid.
proof fn lemma_zero_entry()
    by (bit_vector)
    ensures
        !bit_of(0, 0),
{
}

} // verus!
