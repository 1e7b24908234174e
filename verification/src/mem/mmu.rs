//! Sv39 address and entry helpers of the memory management unit.
use vstd::prelude::*;

use super::bits::{
    field_of, lemma_disjoint_fields, lemma_field_bound, lemma_masks, lemma_shift_zero,
    lemma_with_field, low_mask, with_field,
};

verus! {

/// Virtual Address Translation Error
#[derive(Clone, Copy, Debug, PartialEq, Eq, Structural)]
pub enum TranslationError {
    InvalidPage(usize),
    NoLeaf,
}

/// Sv39 Virtual Address
#[derive(Clone, Copy, Debug, PartialEq, Eq, Structural)]
pub struct VirtualAddress(u64);

impl View for VirtualAddress {
    type V = u64;

    closed spec fn view(&self) -> u64 {
        self.0
    }
}

/// Where virtual page number `index` starts in an address.
pub open spec fn vpn_position(index: usize) -> u64 {
    (12 + 9 * index) as u64
}

impl VirtualAddress {
    /// Wrap an address.
    pub fn new(addr: u64) -> (r: Self)
        ensures
            r@ == addr,
    {
        Self(addr)
    }

    /// Get the page offset
    pub fn page_offset(&self) -> (r: usize)
        ensures
            r == field_of(self@, 0, 12),
    {
        proof {
            lemma_masks();
            lemma_shift_zero(self@);
            lemma_field_bound(self@, 0, 12);
        }
        // The offset is stored in the lower 12 bits
        (self.0 & 0xfff) as usize
    }

    /// Get the given virtual page number
    pub fn virtual_page_number(&self, index: usize) -> (r: usize)
        requires
            index < 4,
        ensures
            r == field_of(self@, vpn_position(index), 9),
    {
        proof {
            lemma_masks();
            lemma_field_bound(self@, vpn_position(index), 9);
        }
        ((self.0 >> (12 + 9 * index as u64)) & 0x1ff) as usize
    }

    /// Set the page offset
    pub fn set_page_offset(&mut self, page_offset: usize)
        ensures
            final(self)@ == with_field(old(self)@, 0, 12, page_offset as u64),
            field_of(final(self)@, 0, 12) == (page_offset as u64) & 0xfff,
            forall|index: usize|
                index < 4 ==> #[trigger] field_of(final(self)@, vpn_position(index), 9)
                    == field_of(old(self)@, vpn_position(index), 9),
    {
        proof {
            lemma_masks();
            lemma_shift_zero(self@);
            lemma_shift_zero((page_offset as u64) & 0xfff);
            lemma_shift_zero(0xfff);
            lemma_with_field(self@, 0, 12, page_offset as u64);
            assert forall|index: usize| index < 4 implies #[trigger] field_of(
                with_field(self@, 0, 12, page_offset as u64),
                vpn_position(index),
                9,
            ) == field_of(self@, vpn_position(index), 9) by {
                lemma_disjoint_fields(self@, 0, 12, page_offset as u64, vpn_position(index), 9);
            }
        }
        self.0 &= !0xfff;
        self.0 |= page_offset as u64 & 0xfff;
    }

    /// Set the virtual page number
    pub fn set_virtual_page_number(&mut self, index: usize, number: usize)
        requires
            index < 4,
        ensures
            final(self)@ == with_field(old(self)@, vpn_position(index), 9, number as u64),
            field_of(final(self)@, vpn_position(index), 9) == (number as u64) & 0x1ff,
            field_of(final(self)@, 0, 12) == field_of(old(self)@, 0, 12),
            forall|other: usize|
                other < 4 && other != index ==> #[trigger] field_of(
                    final(self)@,
                    vpn_position(other),
                    9,
                ) == field_of(old(self)@, vpn_position(other), 9),
    {
        proof {
            lemma_masks();
            lemma_with_field(self@, vpn_position(index), 9, number as u64);
            lemma_disjoint_fields(self@, vpn_position(index), 9, number as u64, 0, 12);
            assert forall|other: usize| other < 4 && other != index implies #[trigger] field_of(
                with_field(self@, vpn_position(index), 9, number as u64),
                vpn_position(other),
                9,
            ) == field_of(self@, vpn_position(other), 9) by {
                lemma_disjoint_fields(
                    self@,
                    vpn_position(index),
                    9,
                    number as u64,
                    vpn_position(other),
                    9,
                );
            }
        }
        self.0 &= !(0x1ff << (12 + 9 * index as u64));
        self.0 |= (number as u64 & 0x1ff) << (12 + 9 * index as u64);
    }
}

/// Sv39 Page Table Entry Flag
#[derive(Clone, Copy, Debug, PartialEq, Eq, Structural)]
pub struct PageTableEntryFlags(u8);

impl View for PageTableEntryFlags {
    type V = u8;

    closed spec fn view(&self) -> u8 {
        self.0
    }
}

impl PageTableEntryFlags {
    /// Valid Flag
    pub fn valid() -> (r: Self)
        ensures
            r@ == 1,
    {
        Self(1)
    }

    /// Readable Flag
    pub fn readable() -> (r: Self)
        ensures
            r@ == 2,
    {
        Self(2)
    }

    /// Writable Flag
    pub fn writable() -> (r: Self)
        ensures
            r@ == 4,
    {
        Self(4)
    }

    /// Executable Flag
    pub fn executable() -> (r: Self)
        ensures
            r@ == 8,
    {
        Self(8)
    }

    /// User Flag
    pub fn user() -> (r: Self)
        ensures
            r@ == 16,
    {
        Self(16)
    }

    /// Global Flag
    pub fn global() -> (r: Self)
        ensures
            r@ == 32,
    {
        Self(32)
    }

    /// Accessed Flag
    pub fn accessed() -> (r: Self)
        ensures
            r@ == 64,
    {
        Self(64)
    }

    /// Dirty Flag
    pub fn dirty() -> (r: Self)
        ensures
            r@ == 128,
    {
        Self(128)
    }

    /// The flags set in either operand
    pub fn bitor(self, rhs: PageTableEntryFlags) -> (r: PageTableEntryFlags)
        ensures
            r@ == self@ | rhs@,
    {
        PageTableEntryFlags(self.0 | rhs.0)
    }

    /// Whether the operands share a flag
    pub fn bitand(self, rhs: PageTableEntryFlags) -> (r: bool)
        ensures
            r == (self@ & rhs@ != 0),
    {
        self.0 & rhs.0 > 0
    }
}

/// Sv39 Page Table Entry
#[derive(Clone, Copy, Debug, PartialEq, Eq, Structural)]
pub struct PageTableEntry(u64);

impl View for PageTableEntry {
    type V = u64;

    closed spec fn view(&self) -> u64 {
        self.0
    }
}

impl PageTableEntry {
    /// Create a new Page Table Entry
    pub fn new(physical_address: usize, flags: PageTableEntryFlags) -> (r: Self)
        ensures
            r@ == ((physical_address as u64) << 10u64) | (flags@ as u64),
    {
        PageTableEntry(((physical_address as u64) << 10) | flags.0 as u64)
    }

    /// Get the flag portion of the entry
    pub fn flag(&self) -> (r: PageTableEntryFlags)
        ensures
            r@ == self@ as u8,
    {
        proof {
            let v = self@ as u8;
            assert(v & 0xff == v) by (bit_vector);
        }
        PageTableEntryFlags(self.0 as u8 & 0xFF)
    }

    /// Get the given Physical Page Number of the entry
    pub fn ppn(&self, index: usize) -> (r: usize)
        requires
            10 + 9 * index < usize::BITS,
        ensures
            r == ((self@ as usize) >> (10 + 9 * index) as usize) & 0x1ff,
    {
        let shift = 10 + 9 * index;
        (self.0 as usize >> shift) & 0x1ff
    }
}

/// The entry is valid.
pub open spec fn pte_valid(e: PageTableEntry) -> bool {
    e@ & 1 != 0
}

/// The entry is a leaf: it grants read, write or execute access.
pub open spec fn pte_leaf(e: PageTableEntry) -> bool {
    e@ & 0xe != 0
}

/// The address an entry holds: its physical page number shifted into
/// place (bits past the top are dropped).
pub open spec fn pte_address(e: PageTableEntry) -> u64 {
    ((e@ & !0x3ffu64) << 2u64) as u64
}

/// The table an entry links to: its address in pages.
pub open spec fn pte_table(e: PageTableEntry) -> int {
    (pte_address(e) >> 12u64) as int
}

/// Virtual page number `level` of `vaddr`.
pub open spec fn vpn(vaddr: u64, level: int) -> int {
    ((vaddr >> ((12 + 9 * level) as u64)) & 0x1ff) as int
}

/// Entry `i` of table `t` of the arena.
pub open spec fn pte_at(entries: Seq<PageTableEntry>, t: int, i: int) -> PageTableEntry {
    entries[512 * t + i]
}

/// The number of tables of the arena.
pub open spec fn table_total(entries: Seq<PageTableEntry>) -> int {
    (entries.len() / 512) as int
}

/// The arena holds whole tables, at least the root, and every valid entry
/// that is not a leaf links to a table of the arena.
pub open spec fn tables_wf(entries: Seq<PageTableEntry>) -> bool {
    &&& entries.len() % 512 == 0
    &&& entries.len() >= 512
    &&& entries.len() <= usize::MAX
    &&& table_total(entries) < 0x10_0000_0000_0000
    &&& forall|t: int, i: int|
        0 <= t < table_total(entries) && 0 <= i < 512 && pte_valid(#[trigger] pte_at(entries, t, i)) && !pte_leaf(
            pte_at(entries, t, i),
        ) ==> 0 <= pte_table(pte_at(entries, t, i)) < table_total(entries)
}

/// The entry that links to table `n`.
pub open spec fn link_entry(n: int) -> u64 {
    ((n as u64) << 10u64) | 1
}

/// The table entries of a fresh table.
pub closed spec fn empty_table() -> Seq<PageTableEntry> {
    Seq::new(512, |i: int| PageTableEntry(0))
}

/// A fresh table is 512 entries, none of them valid.
pub proof fn lemma_empty_table()
    ensures
        empty_table().len() == 512,
        forall|i: int| 0 <= i < 512 ==> #[trigger] empty_table()[i]@ == 0,
        forall|i: int| 0 <= i < 512 ==> !pte_valid(#[trigger] empty_table()[i]),
{
    assert forall|i: int| 0 <= i < 512 implies !pte_valid(#[trigger] empty_table()[i]) by {
        assert(empty_table()[i]@ == 0);
        assert(0u64 & 1 == 0) by (bit_vector);
    }
}

/// Mapping at `stop` from table `t` on `level` meets no leaf on the way.
pub open spec fn mmu_path_ok(entries: Seq<PageTableEntry>, t: int, level: int, stop: int, vaddr: u64) -> bool
    decreases level,
{
    let e = pte_at(entries, t, vpn(vaddr, level));
    level > stop ==> (pte_valid(e) ==> !pte_leaf(e) && (level > 0 ==> mmu_path_ok(entries, pte_table(e), level - 1, stop, vaddr)))
}

/// The arena after writing the entry `leaf` for `vaddr` at level `stop`,
/// from table `t` on `level`: a missing table on the way is added at the end
/// of the arena and linked in.
pub closed spec fn mmu_map(entries: Seq<PageTableEntry>, t: int, level: int, stop: int, vaddr: u64, leaf: u64) -> Seq<PageTableEntry>
    decreases level,
{
    let i = vpn(vaddr, level);
    let e = pte_at(entries, t, i);
    if level <= stop || level <= 0 {
        entries.update(512 * t + i, PageTableEntry(leaf))
    } else if pte_valid(e) {
        mmu_map(entries, pte_table(e), level - 1, stop, vaddr, leaf)
    } else {
        let n = table_total(entries);
        mmu_map(
            entries.update(512 * t + i, PageTableEntry(link_entry(n))) + empty_table(),
            n,
            level - 1,
            stop,
            vaddr,
            leaf,
        )
    }
}

/// Sv39 Page Table: its tables in an arena, table `t` at entries
/// `512 * t ..`, at address `4096 * t`; table 0 is the root.
pub struct PageTable {
    entries: Vec<PageTableEntry>,
}

impl View for PageTable {
    type V = Seq<PageTableEntry>;

    closed spec fn view(&self) -> Seq<PageTableEntry> {
        self.entries@
    }
}

impl PageTable {
    /// The tables are well formed.
    pub open spec fn wf(&self) -> bool {
        tables_wf(self@)
    }

    /// Allocate a new page table: one empty root table.
    pub fn allocate() -> (r: Self)
        ensures
            r.wf(),
            tables_ascend(r@),
            r@ == empty_table(),
            r@.len() == 512,
            forall|i: int| 0 <= i < 512 ==> !pte_valid(#[trigger] r@[i]),
            forall|stop: int, vaddr: u64| #[trigger] mmu_path_ok(r@, 0, 2, stop, vaddr),
            forall|vaddr: u64|
                #[trigger] translation(r@, 0, 2, vaddr) == Some(Err::<u64, TranslationError>(TranslationError::InvalidPage(2))),
    {
        let mut entries: Vec<PageTableEntry> = Vec::new();
        let mut i: usize = 0;
        while i < 512
            invariant
                i <= 512,
                entries@ == Seq::new(i as nat, |k: int| PageTableEntry(0)),
            decreases 512 - i,
        {
            entries.push(PageTableEntry(0));
            i = i + 1;
            assert(entries@ =~= Seq::new(i as nat, |k: int| PageTableEntry(0)));
        }
        let r = PageTable { entries };
        proof {
            assert(r@ =~= empty_table());
            lemma_empty_table();
            assert forall|t: int, i: int|
                0 <= t < table_total(r@) && 0 <= i < 512 && pte_valid(#[trigger] pte_at(r@, t, i)) implies false by {
                assert(t == 0);
                assert(pte_at(r@, t, i) == r@[i]);
            }
            assert forall|stop: int, vaddr: u64| #[trigger] mmu_path_ok(r@, 0, 2, stop, vaddr) by {
                lemma_vpn_bound(vaddr, 2);
                assert(pte_at(r@, 0, vpn(vaddr, 2)) == r@[vpn(vaddr, 2)]);
            }
            assert forall|vaddr: u64|
                #[trigger] translation(r@, 0, 2, vaddr) == Some(Err::<u64, TranslationError>(TranslationError::InvalidPage(2))) by {
                lemma_vpn_bound(vaddr, 2);
                assert(pte_at(r@, 0, vpn(vaddr, 2)) == r@[vpn(vaddr, 2)]);
            }
        }
        r
    }
}

/// The leaf entry mapping to `paddr` with `flags`, made valid.
pub open spec fn leaf_value(paddr: u64, flags: PageTableEntryFlags) -> u64 {
    (((paddr >> 12u64) << 10u64) | ((flags@ | 1u8) as u64)) as u64
}

/// A link entry leads back to its table; a leaf value is a valid leaf.
proof fn lemma_entry_bits(n: u64, paddr: u64, f: u8)
    by (bit_vector)
    ensures
        n < 0x10_0000_0000_0000 ==> (((((n << 10u64) | 1u64) & !0x3ffu64) << 2u64) >> 12u64) == n,
        ((n << 10u64) | 1u64) & 1 != 0,
        ((n << 10u64) | 1u64) & 0xe == 0,
        f & 0xe != 0 ==> ((((paddr >> 12u64) << 10u64) | ((f | 1u8) as u64)) & 0xe) != 0,
        (((paddr >> 12u64) << 10u64) | ((f | 1u8) as u64)) & 1 != 0,
        0u64 & 1 == 0,
{
}

/// The three virtual page numbers of an address are each under 512.
proof fn lemma_vpn_bounds(vaddr: u64)
    by (bit_vector)
    ensures
        ((vaddr >> 12u64) & 0x1ffu64) < 512,
        ((vaddr >> 21u64) & 0x1ffu64) < 512,
        ((vaddr >> 30u64) & 0x1ffu64) < 512,
{
}

impl PageTable {
    /// Inner mapping implementation: write the leaf entry for `vaddr` at
    /// `level` (0 for 4 KiB, 1 for 2 MiB, 2 for 1 GiB pages), adding the
    /// tables missing on the way.
    fn inner_map(&mut self, vaddr: u64, paddr: u64, flags: PageTableEntryFlags, level: usize)
        requires
            old(self).wf(),
            level < 3,
            flags@ & 0xe != 0,
            mmu_path_ok(old(self)@, 0, 2, level as int, vaddr),
            old(self)@.len() + 1024 <= usize::MAX,
            table_total(old(self)@) + 2 < 0x10_0000_0000_0000,
        ensures
            final(self).wf(),
            final(self)@ == mmu_map(old(self)@, 0, 2, level as int, vaddr, leaf_value(paddr, flags)),
            table_total(final(self)@) <= table_total(old(self)@) + 2,
    {
        let ghost leaf = leaf_value(paddr, flags);
        let ghost goal = mmu_map(old(self)@, 0, 2, level as int, vaddr, leaf);
        let vpns: [u64; 3] = [(vaddr >> 12) & 0x1ff, (vaddr >> 21) & 0x1ff, (vaddr >> 30) & 0x1ff];
        let mut t: usize = 0;
        let mut lvl: usize = 2;
        proof {
            lemma_entry_bits(0, paddr, flags@);
            lemma_vpn_bounds(vaddr);
        }
        while lvl > level
            invariant
                tables_wf(self@),
                level < 3,
                level <= lvl <= 2,
                vpns@ == seq![vpn(vaddr, 0) as u64, vpn(vaddr, 1) as u64, vpn(vaddr, 2) as u64],
                0 <= vpn(vaddr, 0) < 512,
                0 <= vpn(vaddr, 1) < 512,
                0 <= vpn(vaddr, 2) < 512,
                0 <= t < table_total(self@),
                mmu_map(self@, t as int, lvl as int, level as int, vaddr, leaf) == goal,
                mmu_path_ok(self@, t as int, lvl as int, level as int, vaddr),
                self@.len() + 512 * (lvl - level) <= old(self)@.len() + 1024,
                old(self)@.len() + 1024 <= usize::MAX,
                table_total(self@) + (lvl - level) <= table_total(old(self)@) + 2,
                table_total(old(self)@) + 2 < 0x10_0000_0000_0000,
            decreases lvl,
        {
            let idx = 512 * t + vpns[lvl] as usize;
            let e = self.entries[idx];
            if e.0 & 1 == 0 {
                let n = self.entries.len() / 512;
                proof {
                    lemma_entry_bits(n as u64, paddr, flags@);
                }
                let ghost before = self@;
                self.entries.set(idx, PageTableEntry(((n as u64) << 10) | 1));
                let mut k: usize = 0;
                while k < 512
                    invariant
                        k <= 512,
                        self@ =~= before.update(idx as int, PageTableEntry(link_entry(n as int))) + Seq::new(
                            k as nat,
                            |j: int| PageTableEntry(0),
                        ),
                    decreases 512 - k,
                {
                    self.entries.push(PageTableEntry(0));
                    k = k + 1;
                }
                proof {
                    assert(Seq::new(512, |j: int| PageTableEntry(0)) =~= empty_table());
                    let after = self@;
                    assert(table_total(after) == n + 1);
                    assert forall|u: int, i: int|
                        0 <= u < table_total(after) && 0 <= i < 512 && pte_valid(#[trigger] pte_at(after, u, i)) && !pte_leaf(
                            pte_at(after, u, i),
                        ) implies 0 <= pte_table(pte_at(after, u, i)) < table_total(after) by {
                        if u == n {
                            assert(pte_at(after, u, i)@ == 0);
                        } else if 512 * u + i == idx {
                        } else {
                            assert(pte_at(after, u, i) == pte_at(before, u, i));
                        }
                    }
                    assert(pte_at(after, n as int, vpn(vaddr, lvl - 1))@ == 0);
                }
                t = n;
            } else {
                proof {
                    assert(pte_valid(e));
                    assert(e == pte_at(self@, t as int, vpn(vaddr, lvl as int)));
                    assert(!pte_leaf(e));
                    assert(0 <= pte_table(e) < table_total(self@));
                }
                t = ((((e.0 & !0x3ff) << 2) >> 12) as usize);
            }
            lvl = lvl - 1;
        }
        let ghost before_leaf = self@;
        self.entries.set(512 * t + vpns[level] as usize, PageTableEntry(((paddr >> 12) << 10) | ((flags.0 | 1) as u64)));
        proof {
            lemma_entry_bits(0, paddr, flags@);
            let after = self@;
            assert forall|u: int, i: int|
                0 <= u < table_total(after) && 0 <= i < 512 && pte_valid(#[trigger] pte_at(after, u, i)) && !pte_leaf(
                    pte_at(after, u, i),
                ) implies 0 <= pte_table(pte_at(after, u, i)) < table_total(after) by {
                if 512 * u + i != 512 * t + vpn(vaddr, level as int) {
                    assert(pte_at(after, u, i) == pte_at(before_leaf, u, i));
                } else {
                    assert(pte_at(after, u, i)@ == leaf_value(paddr, flags));
                }
            }
        }
    }
}

/// Every link of the arena goes to a later table.
pub open spec fn tables_ascend(entries: Seq<PageTableEntry>) -> bool {
    forall|t: int, i: int|
        0 <= t < table_total(entries) && 0 <= i < 512 && pte_valid(#[trigger] pte_at(entries, t, i)) && !pte_leaf(
            pte_at(entries, t, i),
        ) ==> t < pte_table(pte_at(entries, t, i))
}

/// The address an entry of value `v` holds (as `pte_address`).
pub open spec fn value_address(v: u64) -> u64 {
    ((v & !0x3ffu64) << 2u64) as u64
}

/// What translating `vaddr` gives where the leaf of value `leaf` is met at
/// `level`.
pub open spec fn leaf_translation(vaddr: u64, level: int, leaf: u64) -> Option<Result<u64, TranslationError>> {
    if translated(vaddr, level, value_address(leaf)) <= u64::MAX {
        Some(Ok(translated(vaddr, level, value_address(leaf)) as u64))
    } else {
        None
    }
}

/// A virtual page number is under 512.
proof fn lemma_vpn_bound(vaddr: u64, level: int)
    requires
        0 <= level <= 2,
    ensures
        0 <= vpn(vaddr, level) < 512,
{
    lemma_vpn_bounds(vaddr);
    if level == 0 {
        assert(((12 + 9 * level) as u64) == 12u64);
    } else if level == 1 {
        assert(((12 + 9 * level) as u64) == 21u64);
    } else {
        assert(((12 + 9 * level) as u64) == 30u64);
    }
}

/// Mapping from table `t` keeps the arena well formed with its links going
/// to later tables, only adds tables (at most one a level), and leaves the
/// tables before `t` as they were.
pub proof fn lemma_mmu_map_frame(entries: Seq<PageTableEntry>, t: int, level: int, stop: int, vaddr: u64, leaf: u64)
    requires
        tables_wf(entries),
        tables_ascend(entries),
        0 <= t < table_total(entries),
        0 <= level <= 2,
        mmu_path_ok(entries, t, level, stop, vaddr),
        table_total(entries) + level < 0x10_0000_0000_0000,
        entries.len() + 512 * level <= usize::MAX,
        leaf & 1 != 0 ==> leaf & 0xe != 0,
    ensures
        tables_wf(mmu_map(entries, t, level, stop, vaddr, leaf)),
        tables_ascend(mmu_map(entries, t, level, stop, vaddr, leaf)),
        mmu_map(entries, t, level, stop, vaddr, leaf).len() >= entries.len(),
        table_total(mmu_map(entries, t, level, stop, vaddr, leaf)) <= table_total(entries) + level,
        forall|k: int| 0 <= k < 512 * t ==> #[trigger] mmu_map(entries, t, level, stop, vaddr, leaf)[k] == entries[k],
    decreases level,
{
    let i = vpn(vaddr, level);
    lemma_vpn_bound(vaddr, level);
    let e = pte_at(entries, t, i);
    if level <= stop || level <= 0 {
        let r = entries.update(512 * t + i, PageTableEntry(leaf));
        assert(table_total(r) == table_total(entries));
        assert forall|t2: int, i2: int|
            0 <= t2 < table_total(r) && 0 <= i2 < 512 && pte_valid(#[trigger] pte_at(r, t2, i2)) && !pte_leaf(
                pte_at(r, t2, i2),
            ) implies 0 <= pte_table(pte_at(r, t2, i2)) < table_total(r) && t2 < pte_table(pte_at(r, t2, i2)) by {
            assert(512 * t2 + i2 != 512 * t + i);
            assert(pte_at(r, t2, i2) == pte_at(entries, t2, i2));
        }
    } else if pte_valid(e) {
        let c = pte_table(e);
        assert(t < c < table_total(entries));
        lemma_mmu_map_frame(entries, c, level - 1, stop, vaddr, leaf);
    } else {
        let n = table_total(entries);
        lemma_entry_bits(n as u64, 0, 0);
        let link = PageTableEntry(link_entry(n));
        assert(pte_valid(link) && !pte_leaf(link) && pte_table(link) == n);
        let grown = entries.update(512 * t + i, link) + empty_table();
        assert(grown.len() == entries.len() + 512);
        assert(table_total(grown) == n + 1);
        assert forall|t2: int, i2: int|
            0 <= t2 < table_total(grown) && 0 <= i2 < 512 && pte_valid(#[trigger] pte_at(grown, t2, i2)) && !pte_leaf(
                pte_at(grown, t2, i2),
            ) implies 0 <= pte_table(pte_at(grown, t2, i2)) < table_total(grown) && t2 < pte_table(pte_at(grown, t2, i2)) by {
            if 512 * t2 + i2 == 512 * t + i {
                assert(t2 == t);
            } else if t2 < n {
                assert(pte_at(grown, t2, i2) == pte_at(entries, t2, i2));
            } else {
                assert(pte_at(grown, t2, i2) == PageTableEntry(0));
                assert(0u64 & 1 == 0);
            }
        }
        lemma_vpn_bound(vaddr, level - 1);
        assert(pte_at(grown, n, vpn(vaddr, level - 1)) == PageTableEntry(0));
        lemma_mmu_map_frame(grown, n, level - 1, stop, vaddr, leaf);
    }
}

/// Mapping `vaddr` from table `t` and translating an address `addr` of the
/// same page from `t` meets the leaf written, at the level it was written.
pub proof fn lemma_mmu_map_reads_back(entries: Seq<PageTableEntry>, t: int, level: int, stop: int, vaddr: u64, addr: u64, leaf: u64)
    requires
        tables_wf(entries),
        tables_ascend(entries),
        0 <= t < table_total(entries),
        0 <= stop <= level <= 2,
        mmu_path_ok(entries, t, level, stop, vaddr),
        table_total(entries) + level < 0x10_0000_0000_0000,
        entries.len() + 512 * level <= usize::MAX,
        leaf & 1 != 0,
        leaf & 0xe != 0,
        forall|l: int| stop <= l <= level ==> #[trigger] vpn(addr, l) == vpn(vaddr, l),
    ensures
        translation(mmu_map(entries, t, level, stop, vaddr, leaf), t, level, addr) == leaf_translation(addr, stop, leaf),
    decreases level,
{
    let i = vpn(vaddr, level);
    lemma_vpn_bound(vaddr, level);
    let e = pte_at(entries, t, i);
    let r = mmu_map(entries, t, level, stop, vaddr, leaf);
    assert(vpn(addr, level) == vpn(vaddr, level));
    if level <= stop || level <= 0 {
        assert(pte_at(r, t, i) == PageTableEntry(leaf));
        assert(pte_address(PageTableEntry(leaf)) == value_address(leaf));
    } else if pte_valid(e) {
        let c = pte_table(e);
        lemma_mmu_map_frame(entries, c, level - 1, stop, vaddr, leaf);
        assert(r[512 * t + i] == entries[512 * t + i]);
        lemma_mmu_map_reads_back(entries, c, level - 1, stop, vaddr, addr, leaf);
    } else {
        let n = table_total(entries);
        lemma_entry_bits(n as u64, 0, 0);
        let link = PageTableEntry(link_entry(n));
        assert(pte_valid(link) && !pte_leaf(link) && pte_table(link) == n);
        let grown = entries.update(512 * t + i, link) + empty_table();
        assert(grown.len() == entries.len() + 512);
        assert(table_total(grown) == n + 1);
        lemma_mmu_map_frame(entries, t, level, stop, vaddr, leaf);
        assert(tables_wf(grown) && tables_ascend(grown)) by {
            assert forall|t2: int, i2: int|
                0 <= t2 < table_total(grown) && 0 <= i2 < 512 && pte_valid(#[trigger] pte_at(grown, t2, i2)) && !pte_leaf(
                    pte_at(grown, t2, i2),
                ) implies 0 <= pte_table(pte_at(grown, t2, i2)) < table_total(grown) && t2 < pte_table(pte_at(grown, t2, i2)) by {
                if 512 * t2 + i2 == 512 * t + i {
                    assert(t2 == t);
                } else if t2 < n {
                    assert(pte_at(grown, t2, i2) == pte_at(entries, t2, i2));
                } else {
                    assert(pte_at(grown, t2, i2) == PageTableEntry(0));
                    assert(0u64 & 1 == 0);
                }
            }
        }
        lemma_vpn_bound(vaddr, level - 1);
        assert(pte_at(grown, n, vpn(vaddr, level - 1)) == PageTableEntry(0));
        lemma_mmu_map_frame(grown, n, level - 1, stop, vaddr, leaf);
        assert(r[512 * t + i] == grown[512 * t + i]);
        lemma_mmu_map_reads_back(grown, n, level - 1, stop, vaddr, addr, leaf);
    }
}

/// Two addresses in the same page of level `level` share the virtual page
/// numbers from that level up.
proof fn lemma_same_page(vaddr: u64, addr: u64, level: int)
    requires
        0 <= level <= 2,
        addr >> ((12 + 9 * level) as u64) == vaddr >> ((12 + 9 * level) as u64),
    ensures
        forall|l: int| level <= l <= 2 ==> #[trigger] vpn(addr, l) == vpn(vaddr, l),
{
    assert(((addr >> 12u64 == vaddr >> 12u64) ==> (addr >> 21u64 == vaddr >> 21u64)) && ((addr >> 21u64 == vaddr
        >> 21u64) ==> (addr >> 30u64 == vaddr >> 30u64))) by (bit_vector);
    assert(((12 + 9 * 0int) as u64) == 12u64);
    assert(((12 + 9 * 1int) as u64) == 21u64);
    assert(((12 + 9 * 2int) as u64) == 30u64);
}

/// The address a leaf value holds is the page of the address it was made
/// from.
proof fn lemma_leaf_address(paddr: u64, f: u8)
    ensures
        ((((((paddr >> 12u64) << 10u64) | ((f | 1u8) as u64)) as u64) & !0x3ffu64) << 2u64) as u64 == paddr
            & !0xfffu64,
{
    assert(((((((paddr >> 12u64) << 10u64) | ((f | 1u8) as u64)) as u64) & !0x3ffu64) << 2u64) as u64 == paddr
        & !0xfffu64) by (bit_vector);
}

/// Mapping a virtual address at a level and then translating any address
/// `addr` of the page mapped gives the physical page plus the offset of
/// `addr` in that page, and the arena's links still go to later tables.
pub proof fn lemma_mmu_map_then_translate(
    entries: Seq<PageTableEntry>,
    vaddr: u64,
    addr: u64,
    paddr: u64,
    flags: PageTableEntryFlags,
    level: usize,
)
    requires
        tables_wf(entries),
        tables_ascend(entries),
        level < 3,
        flags@ & 0xe != 0,
        mmu_path_ok(entries, 0, 2, level as int, vaddr),
        entries.len() + 1024 <= usize::MAX,
        table_total(entries) + 2 < 0x10_0000_0000_0000,
        addr >> ((12 + 9 * level) as u64) == vaddr >> ((12 + 9 * level) as u64),
    ensures
        translation(mmu_map(entries, 0, 2, level as int, vaddr, leaf_value(paddr, flags)), 0, 2, addr)
            == leaf_translation(addr, level as int, leaf_value(paddr, flags)),
        value_address(leaf_value(paddr, flags)) == paddr & !0xfffu64,
        leaf_translation(addr, level as int, leaf_value(paddr, flags)) == if (paddr & !0xfffu64) + (addr
            & offset_mask(level as int)) <= u64::MAX {
            Some(Ok::<u64, TranslationError>(((paddr & !0xfffu64) + (addr & offset_mask(level as int))) as u64))
        } else {
            None
        },
        tables_ascend(mmu_map(entries, 0, 2, level as int, vaddr, leaf_value(paddr, flags))),
{
    lemma_entry_bits(0, paddr, flags@);
    lemma_mmu_map_frame(entries, 0, 2, level as int, vaddr, leaf_value(paddr, flags));
    lemma_same_page(vaddr, addr, level as int);
    lemma_mmu_map_reads_back(entries, 0, 2, level as int, vaddr, addr, leaf_value(paddr, flags));
    lemma_leaf_address(paddr, flags@);
}

/// Virtual page number `j` of `vaddr` in its own place in an address.
pub open spec fn vpn_part(vaddr: u64, j: int) -> int {
    ((((vaddr >> ((12 + 9 * j) as u64)) & 0x1ff) as u64) << ((12 + 9 * j) as u64)) as int
}

/// The bits of an address that lie inside a page mapped by a leaf at level
/// `i`: 4 KiB, 2 MiB or 1 GiB.
pub open spec fn offset_mask(i: int) -> u64 {
    if i <= 0 {
        0xfff
    } else if i == 1 {
        0x1f_ffff
    } else {
        0x3fff_ffff
    }
}

/// The address a leaf of address `phys` met at level `i` gives to `vaddr`:
/// the leaf's address plus the offset of `vaddr` inside the page it maps.
pub open spec fn translated(vaddr: u64, i: int, phys: u64) -> int {
    phys + (vaddr & offset_mask(i))
}

/// The offset inside a page is the page offset plus the lower virtual page
/// numbers, each in its own place.
proof fn lemma_offset_parts(vaddr: u64)
    ensures
        (vaddr & 0xfff) + vpn_part(vaddr, 0) == vaddr & offset_mask(1),
        (vaddr & 0xfff) + vpn_part(vaddr, 0) + vpn_part(vaddr, 1) == vaddr & offset_mask(2),
        vpn_part(vaddr, 0) < 0x20_0000,
        vpn_part(vaddr, 1) < 0x4000_0000,
        vaddr & offset_mask(0) <= vaddr & offset_mask(1),
        vaddr & offset_mask(1) <= vaddr & offset_mask(2),
{
    assert((vaddr & 0xfff) <= (vaddr & 0x1f_ffff) && (vaddr & 0x1f_ffff) <= (vaddr & 0x3fff_ffff))
        by (bit_vector);
    assert((vaddr & 0xfff) + ((((vaddr >> 12u64) & 0x1ff) as u64) << 12u64) == vaddr & 0x1f_ffff
        && (vaddr & 0xfff) + ((((vaddr >> 12u64) & 0x1ff) as u64) << 12u64) + ((((vaddr >> 21u64)
        & 0x1ff) as u64) << 21u64) == vaddr & 0x3fff_ffff && ((((vaddr >> 12u64) & 0x1ff) as u64)
        << 12u64) < 0x20_0000 && ((((vaddr >> 21u64) & 0x1ff) as u64) << 21u64) < 0x4000_0000)
        by (bit_vector);
}

/// The translation of `vaddr` from table `t` at level `i`: the error at an
/// invalid entry, the address at a leaf, or nothing where a level 0 entry
/// links further or the address does not fit in 64 bits.
pub open spec fn translation(entries: Seq<PageTableEntry>, t: int, i: int, vaddr: u64) -> Option<Result<u64, TranslationError>>
    decreases i,
{
    let e = pte_at(entries, t, vpn(vaddr, i));
    if i < 0 {
        None
    } else if !pte_valid(e) {
        Some(Err(TranslationError::InvalidPage(i as usize)))
    } else if pte_leaf(e) {
        if translated(vaddr, i, pte_address(e)) <= u64::MAX {
            Some(Ok(translated(vaddr, i, pte_address(e)) as u64))
        } else {
            None
        }
    } else if i == 0 {
        None
    } else {
        translation(entries, pte_table(e), i - 1, vaddr)
    }
}

impl PageTable {
    /// Add a new mapping to the page table
    pub fn map(&mut self, vaddr: u64, paddr: u64, flags: PageTableEntryFlags, level: usize)
        requires
            old(self).wf(),
            level < 3,
            flags@ & 0xe != 0,
            mmu_path_ok(old(self)@, 0, 2, level as int, vaddr),
            old(self)@.len() + 1024 <= usize::MAX,
            table_total(old(self)@) + 2 < 0x10_0000_0000_0000,
        ensures
            final(self).wf(),
            final(self)@ == mmu_map(old(self)@, 0, 2, level as int, vaddr, leaf_value(paddr, flags)),
            table_total(final(self)@) <= table_total(old(self)@) + 2,
    {
        self.inner_map(vaddr, paddr, flags, level);
    }

    /// Convert a virtual address to a physical address
    pub fn virt_to_phys(&self, vaddr: u64) -> (r: Result<u64, TranslationError>)
        requires
            self.wf(),
            translation(self@, 0, 2, vaddr) is Some,
        ensures
            r == translation(self@, 0, 2, vaddr)->Some_0,
    {
        // Separate out the virtual page numbers
        let vpns: [u64; 3] = [(vaddr >> 12) & 0x1ff, (vaddr >> 21) & 0x1ff, (vaddr >> 30) & 0x1ff];
        proof {
            lemma_vpn_bounds(vaddr);
        }
        // Get the offset from the vaddr
        let offset = vaddr & 0xfff;

        let mut t: usize = 0;
        let mut i: usize = 2;
        loop
            invariant
                self.wf(),
                i <= 2,
                vpns@ == seq![vpn(vaddr, 0) as u64, vpn(vaddr, 1) as u64, vpn(vaddr, 2) as u64],
                0 <= vpn(vaddr, 0) < 512,
                0 <= vpn(vaddr, 1) < 512,
                0 <= vpn(vaddr, 2) < 512,
                offset == vaddr & 0xfff,
                0 <= t < table_total(self@),
                translation(self@, t as int, i as int, vaddr) == translation(self@, 0, 2, vaddr),
                translation(self@, 0, 2, vaddr) is Some,
            decreases i,
        {
            let v = self.entries[512 * t + vpns[i] as usize];
            let phys_addr = (v.0 & !0x3ff) << 2;

            // If this entry is invalid, return an error
            if v.0 & 1 == 0 {
                return Err(TranslationError::InvalidPage(i));
            } else if v.0 & 0xE != 0 {
                // Check if the given level is a leaf
                let mut result = offset;
                proof {
                    lemma_offset_parts(vaddr);
                }
                let mut j: usize = 0;
                while j <= 2
                    invariant_except_break
                        result == (vaddr & 0xfff) + (if j >= 1 { vpn_part(vaddr, 0) } else { 0 }) + (if j >= 2 {
                            vpn_part(vaddr, 1)
                        } else {
                            0
                        }),
                    invariant
                        j <= 3,
                        i <= 2,
                        vpns@ == seq![vpn(vaddr, 0) as u64, vpn(vaddr, 1) as u64, vpn(vaddr, 2) as u64],
                        0 <= vpn(vaddr, 0) < 512,
                        0 <= vpn(vaddr, 1) < 512,
                        offset == vaddr & 0xfff,
                        translated(vaddr, i as int, phys_addr) <= u64::MAX,
                        j <= i,
                        (vaddr & 0xfff) + vpn_part(vaddr, 0) == vaddr & offset_mask(1),
                        (vaddr & 0xfff) + vpn_part(vaddr, 0) + vpn_part(vaddr, 1) == vaddr & offset_mask(2),
                        vaddr & offset_mask(0) <= vaddr & offset_mask(1),
                        vaddr & offset_mask(1) <= vaddr & offset_mask(2),
                    ensures
                        result == translated(vaddr, i as int, phys_addr),
                    decreases 3 - j,
                {
                    if j < i {
                        // This level comes from the virtual address
                        result = result + (vpns[j] << (12 + 9 * j as u64));
                        j = j + 1;
                    } else {
                        // This level comes from the physical address
                        result = result + phys_addr;
                        break;
                    }
                }
                return Ok(result);
            } else {
                // Otherwise, this is not a leaf: go down a level
                proof {
                    assert(v == pte_at(self@, t as int, vpn(vaddr, i as int)));
                }
                t = ((((v.0 & !0x3ff) << 2) >> 12) as usize);
                i = i - 1;
            }
        }
    }
}

/// Mapping `cur` to itself at `level` can be done in `entries`: the walk
/// meets no leaf and there is room for the tables it may add.
pub open spec fn map_ok(entries: Seq<PageTableEntry>, cur: u64, level: int) -> bool {
    &&& mmu_path_ok(entries, 0, 2, level, cur)
    &&& entries.len() + 1024 <= usize::MAX
    &&& table_total(entries) + 2 < 0x10_0000_0000_0000
}

/// One step of the identity map at `cur`, at `level`, with `size` bytes
/// left: the page table after it, where it can be done.
pub open spec fn id_step(entries: Seq<PageTableEntry>, cur: u64, level: int, flags: PageTableEntryFlags) -> Option<
    Seq<PageTableEntry>,
> {
    if tables_wf(entries) && map_ok(entries, cur, level) {
        Some(mmu_map(entries, 0, 2, level, cur, leaf_value(cur, flags)))
    } else {
        None
    }
}

/// The identity map of `length` bytes from the page `cur` on: while bytes
/// are left, a 1 GiB page where one fits and is aligned, else a 2 MiB page
/// where one fits and is aligned, else a 4 KiB page; nothing where a step
/// cannot be done or runs past the end of the address space.
pub open spec fn identity_steps(entries: Seq<PageTableEntry>, cur: u64, length: u64, flags: PageTableEntryFlags) -> Option<
    Seq<PageTableEntry>,
>
    decreases length,
{
    if length == 0 {
        Some(entries)
    } else {
        let level: int = if length >= 0x4000_0000 && cur & 0x3fff_ffff == 0 {
            2
        } else if length >= 0x20_0000 && cur & 0x1f_ffff == 0 {
            1
        } else {
            0
        };
        let size: int = if level == 2 {
            0x4000_0000
        } else if level == 1 {
            0x20_0000
        } else {
            0x1000
        };
        if cur + size > u64::MAX || length < size {
            None
        } else {
            match id_step(entries, cur, level, flags) {
                Some(next) => identity_steps(next, (cur + size) as u64, (length - size) as u64, flags),
                None => None,
            }
        }
    }
}

impl PageTable {
    /// Internal identity map helper: map the pages from the one holding
    /// `start_addr` to the one holding `end_addr` to themselves.
    fn identity_map_helper(&mut self, start_addr: u64, end_addr: u64, flags: PageTableEntryFlags)
        requires
            old(self).wf(),
            flags@ & 0xe != 0,
            (end_addr & !0xfffu64) + 4096 - (start_addr & !0xfffu64) >= 0,
            (end_addr & !0xfffu64) + 4096 <= u64::MAX,
            identity_steps(
                old(self)@,
                start_addr & !0xfffu64,
                ((end_addr & !0xfffu64) + 4096 - (start_addr & !0xfffu64)) as u64,
                flags,
            ) is Some,
        ensures
            final(self).wf(),
            Some(final(self)@) == identity_steps(
                old(self)@,
                start_addr & !0xfffu64,
                ((end_addr & !0xfffu64) + 4096 - (start_addr & !0xfffu64)) as u64,
                flags,
            ),
    {
        // Convert the addresses to pages to map
        let start_page = start_addr & !(4096 - 1);
        let end_page = end_addr & !(4096 - 1);

        // Get the length of the region in bytes
        let mut length = 4096 + end_page - start_page;

        // Running page pointer
        let mut current_page = start_page;
        let ghost goal = identity_steps(self@, current_page, length, flags);

        while length > 0
            invariant
                self.wf(),
                flags@ & 0xe != 0,
                goal is Some,
                identity_steps(self@, current_page, length, flags) == goal,
            decreases length,
        {
            let ghost s0 = self@;
            let ghost c0 = current_page;
            let ghost l0 = length;
            if length >= 0x4000_0000 && current_page & (0x4000_0000 - 1) == 0 {
                // The length is at least one GiB and is aligned to a 1 GiB
                // boundary: map a one GiB page
                self.inner_map(current_page, current_page, flags, 2);
                current_page = current_page + 0x4000_0000;
                length = length - 0x4000_0000;
            } else if length >= 0x20_0000 && current_page & (0x20_0000 - 1) == 0 {
                // The length is at least 2 MiB and is aligned to a 2 MiB
                // boundary: map a 2 MiB page
                self.inner_map(current_page, current_page, flags, 1);
                current_page = current_page + 0x20_0000;
                length = length - 0x20_0000;
            } else {
                // Otherwise, map a single 4 KiB page
                self.inner_map(current_page, current_page, flags, 0);
                current_page = current_page + 0x1000;
                length = length - 0x1000;
            }
        }
    }

    /// Whether mapping `vaddr` at `level` meets no leaf on the way down.
    fn path_clear(&self, vaddr: u64, level: usize) -> (r: bool)
        requires
            self.wf(),
            level < 3,
        ensures
            r == mmu_path_ok(self@, 0, 2, level as int, vaddr),
    {
        let vpns: [u64; 3] = [(vaddr >> 12) & 0x1ff, (vaddr >> 21) & 0x1ff, (vaddr >> 30) & 0x1ff];
        proof {
            lemma_vpn_bounds(vaddr);
        }
        let mut t: usize = 0;
        let mut lvl: usize = 2;
        loop
            invariant
                self.wf(),
                level < 3,
                level <= lvl <= 2,
                vpns@ == seq![vpn(vaddr, 0) as u64, vpn(vaddr, 1) as u64, vpn(vaddr, 2) as u64],
                0 <= vpn(vaddr, 0) < 512,
                0 <= vpn(vaddr, 1) < 512,
                0 <= vpn(vaddr, 2) < 512,
                0 <= t < table_total(self@),
                mmu_path_ok(self@, t as int, lvl as int, level as int, vaddr) == mmu_path_ok(self@, 0, 2, level as int, vaddr),
            decreases lvl,
        {
            if lvl <= level {
                return true;
            }
            let e = self.entries[512 * t + vpns[lvl] as usize];
            proof {
                assert(e == pte_at(self@, t as int, vpn(vaddr, lvl as int)));
            }
            if e.0 & 1 == 0 {
                return true;
            }
            if e.0 & 0xE != 0 {
                return false;
            }
            t = ((((e.0 & !0x3ff) << 2) >> 12) as usize);
            lvl = lvl - 1;
        }
    }

    /// Identity map a region of memory where that can be done: each step
    /// is first checked to meet no leaf on its way down and to leave room
    /// for the tables it may add. Returns whether the whole region was
    /// mapped; where it was not, the identity map cannot be done on the
    /// table as it was.
    pub fn try_identity_map(&mut self, start_addr: u64, end_addr: u64, flags: PageTableEntryFlags) -> (r: bool)
        requires
            old(self).wf(),
            flags@ & 0xe != 0,
            (end_addr & !0xfffu64) + 4096 - (start_addr & !0xfffu64) >= 0,
            (end_addr & !0xfffu64) + 4096 <= u64::MAX,
        ensures
            final(self).wf(),
            r == identity_steps(
                old(self)@,
                start_addr & !0xfffu64,
                ((end_addr & !0xfffu64) + 4096 - (start_addr & !0xfffu64)) as u64,
                flags,
            ) is Some,
            r ==> Some(final(self)@) == identity_steps(
                old(self)@,
                start_addr & !0xfffu64,
                ((end_addr & !0xfffu64) + 4096 - (start_addr & !0xfffu64)) as u64,
                flags,
            ),
    {
        let start_page = start_addr & !(4096 - 1);
        let end_page = end_addr & !(4096 - 1);
        let mut length = 4096 + end_page - start_page;
        let mut current_page = start_page;
        let ghost goal = identity_steps(self@, current_page, length, flags);

        while length > 0
            invariant
                self.wf(),
                flags@ & 0xe != 0,
                identity_steps(self@, current_page, length, flags) == goal,
                goal == identity_steps(
                    old(self)@,
                    start_addr & !0xfffu64,
                    ((end_addr & !0xfffu64) + 4096 - (start_addr & !0xfffu64)) as u64,
                    flags,
                ),
            decreases length,
        {
            let (level, size): (usize, u64) = if length >= 0x4000_0000 && current_page & (0x4000_0000 - 1) == 0 {
                (2, 0x4000_0000)
            } else if length >= 0x20_0000 && current_page & (0x20_0000 - 1) == 0 {
                (1, 0x20_0000)
            } else {
                (0, 0x1000)
            };
            proof {
                assert(level == (if length >= 0x4000_0000 && current_page & 0x3fff_ffff == 0 {
                    2int
                } else if length >= 0x20_0000 && current_page & 0x1f_ffff == 0 {
                    1int
                } else {
                    0int
                }));
                assert(size == (if level == 2 {
                    0x4000_0000int
                } else if level == 1 {
                    0x20_0000int
                } else {
                    0x1000int
                }));
            }
            if current_page > u64::MAX - size || length < size {
                assert(identity_steps(self@, current_page, length, flags) is None);
                return false;
            }
            if self.entries.len() > usize::MAX - 1024 || (self.entries.len() / 512) as u64 >= 0x10_0000_0000_0000u64 - 2 {
                assert(!map_ok(self@, current_page, level as int));
                assert(identity_steps(self@, current_page, length, flags) is None);
                return false;
            }
            if !self.path_clear(current_page, level) {
                assert(identity_steps(self@, current_page, length, flags) is None);
                return false;
            }
            self.inner_map(current_page, current_page, flags, level);
            current_page = current_page + size;
            length = length - size;
        }
        true
    }

    /// Identity map a region of memory
    pub fn identity_map(&mut self, start_addr: u64, end_addr: u64, flags: PageTableEntryFlags)
        requires
            old(self).wf(),
            flags@ & 0xe != 0,
            (end_addr & !0xfffu64) + 4096 - (start_addr & !0xfffu64) >= 0,
            (end_addr & !0xfffu64) + 4096 <= u64::MAX,
            identity_steps(
                old(self)@,
                start_addr & !0xfffu64,
                ((end_addr & !0xfffu64) + 4096 - (start_addr & !0xfffu64)) as u64,
                flags,
            ) is Some,
        ensures
            final(self).wf(),
            Some(final(self)@) == identity_steps(
                old(self)@,
                start_addr & !0xfffu64,
                ((end_addr & !0xfffu64) + 4096 - (start_addr & !0xfffu64)) as u64,
                flags,
            ),
    {
        self.identity_map_helper(start_addr, end_addr, flags);
    }
}

/// The addresses of the tables dropped with table `t` at `level`: those
/// the links among its first `k` slots lead to, below level 0. A leaf maps
/// memory that is no table and is passed over.
pub open spec fn children_dropped(entries: Seq<PageTableEntry>, t: int, level: int, k: int) -> Seq<u64>
    decreases level, k,
{
    if k <= 0 || level <= 0 {
        Seq::empty()
    } else {
        children_dropped(entries, t, level, k - 1) + if pte_valid(pte_at(entries, t, k - 1)) && !pte_leaf(
            pte_at(entries, t, k - 1),
        ) {
            dropped(entries, pte_table(pte_at(entries, t, k - 1)), level - 1)
        } else {
            Seq::empty()
        }
    }
}

/// The addresses of the tables dropped with table `t` at `level`, in the
/// order they are freed: the tables below it first, then itself.
pub open spec fn dropped(entries: Seq<PageTableEntry>, t: int, level: int) -> Seq<u64>
    decreases level, 513int,
{
    children_dropped(entries, t, level, 512).push((t * 4096) as u64)
}

impl PageTable {
    /// Drop the table `t`, taken to be at the given level: the addresses of
    /// the tables freed are appended to `freed`, the tables below first.
    fn drop_level(&self, t: usize, level: usize, freed: &mut Vec<u64>)
        requires
            self.wf(),
            t < table_total(self@),
        ensures
            final(freed)@ == old(freed)@ + dropped(self@, t as int, level as int),
        decreases level,
    {
        let ghost start = freed@;
        // If not at the lowest level, drop all the lower ones
        if level > 0 {
            let mut i: usize = 0;
            while i < 512
                invariant
                    self.wf(),
                    t < table_total(self@),
                    level > 0,
                    i <= 512,
                    freed@ == start + children_dropped(self@, t as int, level as int, i as int),
                decreases 512 - i,
            {
                let entry = self.entries[512 * t + i];
                proof {
                    assert(entry == pte_at(self@, t as int, i as int));
                }
                // If the entry links to a table, drop that table
                if entry.0 & 1 != 0 && entry.0 & 0xE == 0 {
                    let table = ((((entry.0 & !0x3ff) << 2) >> 12) as usize);
                    self.drop_level(table, level - 1, freed);
                    proof {
                        assert(freed@ =~= start + children_dropped(self@, t as int, level as int, i + 1));
                    }
                } else {
                    proof {
                        assert(freed@ =~= start + children_dropped(self@, t as int, level as int, i + 1));
                    }
                }
                i = i + 1;
            }
        } else {
            assert(freed@ =~= start + children_dropped(self@, t as int, level as int, 512));
        }
        // Drop the current table
        freed.push((t as u64) * 4096);
        assert(freed@ =~= start + dropped(self@, t as int, level as int));
    }

    /// Drop a top level table: the addresses of all the tables to free, the
    /// lower levels first and the root last.
    pub fn drop(&self) -> (r: Vec<u64>)
        requires
            self.wf(),
        ensures
            r@ == dropped(self@, 0, 2),
    {
        let mut freed: Vec<u64> = Vec::new();
        self.drop_level(0, 2, &mut freed);
        assert(freed@ =~= dropped(self@, 0, 2));
        freed
    }
}

} // verus!
