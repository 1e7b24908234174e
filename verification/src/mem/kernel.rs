//! The identity map of the kernel's own memory.
use vstd::prelude::*;

use super::pagetable::{
    identity_page_count, identity_pages, identity_path_ok, ppn_limit, tables_in, PageTable, RWXFlags, TableEntry,
    UGFlags,
};

verus! {

/// The address ranges of the kernel's sections, first and last byte of
/// each.
#[derive(Clone, Copy, Debug)]
pub struct KernelSections {
    pub text: (usize, usize),
    pub rodata: (usize, usize),
    pub data: (usize, usize),
    pub bss: (usize, usize),
    pub stack: (usize, usize),
    pub heap: (usize, usize),
}

/// A region to identity map: first and last byte, and access.
pub type Region = (usize, usize, RWXFlags);

/// The regions the kernel maps for itself: its sections, then the test
/// device, the real time clock, the CLINT, the PLIC, the UART and VirtIO.
pub open spec fn kernel_regions(s: KernelSections) -> Seq<Region> {
    seq![
        (s.text.0, s.text.1, RWXFlags::ReadExecute),
        (s.rodata.0, s.rodata.1, RWXFlags::ReadExecute),
        (s.data.0, s.data.1, RWXFlags::ReadWrite),
        (s.bss.0, s.bss.1, RWXFlags::ReadWrite),
        (s.stack.0, s.stack.1, RWXFlags::ReadWrite),
        (s.heap.0, s.heap.1, RWXFlags::ReadWrite),
        (0x10_0000usize, 0x10_0fffusize, RWXFlags::ReadWrite),
        (0x10_1000usize, 0x10_1fffusize, RWXFlags::ReadWrite),
        (0x200_0000usize, 0x200_b000usize, RWXFlags::ReadWrite),
        (0xc00_0000usize, 0xc00_2000usize, RWXFlags::ReadWrite),
        (0xc20_0000usize, 0xc20_2000usize, RWXFlags::ReadWrite),
        (0x1000_0000usize, 0x1000_0000usize, RWXFlags::ReadWrite),
        (0x1000_1000usize, 0x1000_8000usize, RWXFlags::ReadWrite),
    ]
}

/// The page table after identity mapping region `r`.
pub open spec fn map_region(entries: Seq<TableEntry>, r: Region) -> Seq<TableEntry> {
    identity_pages(entries, (r.0 / 4096 * 4096) as usize, identity_page_count(r.0, r.1), r.2, UGFlags::NoFlags)
}

/// Region `r` can be identity mapped in the page table `entries`.
pub open spec fn region_ok(entries: Seq<TableEntry>, r: Region) -> bool {
    &&& r.1 <= usize::MAX - 4096
    &&& tables_in(entries) + 2 * identity_page_count(r.0, r.1) + 2 < ppn_limit()
    &&& identity_path_ok(entries, (r.0 / 4096 * 4096) as usize, identity_page_count(r.0, r.1), r.2, UGFlags::NoFlags)
}

/// The page table after identity mapping the first `k` regions of `rs`.
pub open spec fn map_regions(entries: Seq<TableEntry>, rs: Seq<Region>, k: nat) -> Seq<TableEntry>
    decreases k,
{
    if k == 0 {
        entries
    } else {
        map_region(map_regions(entries, rs, (k - 1) as nat), rs[k - 1])
    }
}

/// Each of the first `k` regions of `rs` can be mapped after those before
/// it.
pub open spec fn regions_ok(entries: Seq<TableEntry>, rs: Seq<Region>, k: nat) -> bool
    decreases k,
{
    k == 0 || (regions_ok(entries, rs, (k - 1) as nat) && region_ok(map_regions(entries, rs, (k - 1) as nat), rs[k - 1]))
}

proof fn lemma_regions_ok_prefix(entries: Seq<TableEntry>, rs: Seq<Region>, k: nat, m: nat)
    requires
        regions_ok(entries, rs, k),
        m <= k,
    ensures
        regions_ok(entries, rs, m),
    decreases k - m,
{
    if m < k {
        lemma_regions_ok_prefix(entries, rs, (k - 1) as nat, m);
    }
}

/// Identity map the kernel: its sections and the devices it talks to.
pub fn identity_map_kernel(page_table: &mut PageTable, sections: &KernelSections)
    requires
        old(page_table).wf(),
        regions_ok(old(page_table)@, kernel_regions(*sections), 13),
    ensures
        final(page_table).wf(),
        final(page_table)@ == map_regions(old(page_table)@, kernel_regions(*sections), 13),
{
    let regions: Vec<Region> = vec![
        (sections.text.0, sections.text.1, RWXFlags::ReadExecute),
        (sections.rodata.0, sections.rodata.1, RWXFlags::ReadExecute),
        (sections.data.0, sections.data.1, RWXFlags::ReadWrite),
        (sections.bss.0, sections.bss.1, RWXFlags::ReadWrite),
        (sections.stack.0, sections.stack.1, RWXFlags::ReadWrite),
        (sections.heap.0, sections.heap.1, RWXFlags::ReadWrite),
        // Identity map test handle
        (0x10_0000, 0x10_0fff, RWXFlags::ReadWrite),
        // Identity map the real time clock
        (0x10_1000, 0x10_1fff, RWXFlags::ReadWrite),
        // Identity map the CLINT
        (0x200_0000, 0x200_b000, RWXFlags::ReadWrite),
        // Identity map the PLIC
        (0xc00_0000, 0xc00_2000, RWXFlags::ReadWrite),
        (0xc20_0000, 0xc20_2000, RWXFlags::ReadWrite),
        // Identity map UART
        (0x1000_0000, 0x1000_0000, RWXFlags::ReadWrite),
        // Identity map VirtIO
        (0x1000_1000, 0x1000_8000, RWXFlags::ReadWrite),
    ];
    let ghost rs = kernel_regions(*sections);
    assert(regions@ =~= rs);
    let ghost start = page_table@;
    let mut i: usize = 0;
    while i < regions.len()
        invariant
            regions@ == rs,
            rs.len() == 13,
            i <= 13,
            page_table.wf(),
            start == old(page_table)@,
            regions_ok(start, rs, 13),
            page_table@ == map_regions(start, rs, i as nat),
        decreases 13 - i,
    {
        proof {
            lemma_regions_ok_prefix(start, rs, 13, (i + 1) as nat);
            page_table.lemma_table_count();
        }
        let (first, last, access) = regions[i];
        page_table.identity_map(first, last, access, UGFlags::NoFlags);
        i = i + 1;
    }
}

} // verus!
