use qor_os::mem::kernel::{identity_map_kernel, KernelSections};
use qor_os::mem::mmu;
use qor_os::mem::mmu::{PageTableEntry, PageTableEntryFlags, TranslationError};
use qor_os::mem::pagetable;
use qor_os::mem::pagetable::{MemoryPageLevel, RWXFlags, TableEntry, UGFlags};
use qor_os::mem::units::MemoryUnit;

fn rwx() -> PageTableEntryFlags {
    PageTableEntryFlags::readable()
        .bitor(PageTableEntryFlags::writable())
        .bitor(PageTableEntryFlags::executable())
}

// ---------------------------------------------------------------- Sv39 helpers

#[test]
fn test_page_offset_extraction() {
    assert_eq!(mmu::VirtualAddress::new(0x46F45E).page_offset(), 0x45E);
    assert_eq!(mmu::VirtualAddress::new(0xE).page_offset(), 0xE);
    assert_eq!(mmu::VirtualAddress::new(0xFFFFFFFFFF).page_offset(), 0xFFF);
    assert_eq!(mmu::VirtualAddress::new(0x0).page_offset(), 0);

    let mut value = mmu::VirtualAddress::new(0xFFFFFFFFFFFFFFFF);
    value.set_page_offset(0x9A8);
    assert_eq!(value.page_offset(), 0x9A8);
}

#[test]
fn test_virtual_page_number_extraction() {
    assert_eq!(mmu::VirtualAddress::new(0xA6B46CF45E).virtual_page_number(0), 0xCF);
    assert_eq!(mmu::VirtualAddress::new(0xA6B46CF45E).virtual_page_number(1), 0x1A3);
    assert_eq!(mmu::VirtualAddress::new(0xA6B46CF45E).virtual_page_number(2), 0x9A);

    let mut value = mmu::VirtualAddress::new(0xFFFFFFFFFFFFFFFF);
    value.set_virtual_page_number(0, 0x1A8);
    assert_eq!(value.virtual_page_number(0), 0x1A8);

    value.set_virtual_page_number(1, 0x8D);
    assert_eq!(value.virtual_page_number(1), 0x8D);

    value.set_virtual_page_number(2, 0x1A8);
    assert_eq!(value.virtual_page_number(2), 0x1A8);

    assert_eq!(value.virtual_page_number(1), 0x8D);
    assert_eq!(value.virtual_page_number(0), 0x1A8);
}

#[test]
fn setting_the_offset_keeps_the_page_numbers() {
    let mut value = mmu::VirtualAddress::new(0xA6B46CF45E);
    value.set_page_offset(0x123);
    assert_eq!(value.page_offset(), 0x123);
    assert_eq!(value.virtual_page_number(0), 0xCF);
    assert_eq!(value.virtual_page_number(1), 0x1A3);
    assert_eq!(value.virtual_page_number(2), 0x9A);
}

#[test]
fn entry_flags_and_page_numbers() {
    let flags = PageTableEntryFlags::valid().bitor(PageTableEntryFlags::readable());
    assert!(flags.bitand(PageTableEntryFlags::valid()));
    assert!(!flags.bitand(PageTableEntryFlags::writable()));
    let entry = PageTableEntry::new(0x1_2345, flags);
    assert!(entry.flag().bitand(PageTableEntryFlags::readable()));
    assert_eq!(entry.ppn(0), 0x145);
    assert_eq!(entry.ppn(1), 0x91);
}

#[test]
fn test_mapping_virtual_address_translation() {
    let mut table = mmu::PageTable::allocate();

    table.map(0x3F_0000_0000, 0x1_0000_0000, rwx(), 0);

    let ptr = 0x3F_0000_0123;
    let next_ptr = table.virt_to_phys(ptr).unwrap();

    assert_eq!(next_ptr, 0x1_0000_0123);

    // the tables are freed lower levels first, the root last
    assert_eq!(table.drop(), vec![0x2000, 0x1000, 0x0]);
}

#[test]
fn unmapped_address_is_an_invalid_page() {
    let table = mmu::PageTable::allocate();
    assert_eq!(table.virt_to_phys(0x1000), Err(TranslationError::InvalidPage(2)));
    assert_eq!(table.drop(), vec![0x0]);
}

#[test]
fn dropping_a_table_with_a_gigapage_frees_only_the_root() {
    let mut table = mmu::PageTable::allocate();
    table.map(0x4000_0000, 0x8000_0000, rwx(), 2);
    assert_eq!(table.drop(), vec![0x0]);
}

#[test]
fn dropping_a_table_with_a_megapage_frees_the_tables_above_it() {
    let mut table = mmu::PageTable::allocate();
    table.map(0x4000_0000, 0x8000_0000, rwx(), 1);
    assert_eq!(table.drop(), vec![0x1000, 0x0]);
}

#[test]
fn megapage_translation_keeps_the_offset_in_the_page() {
    let mut table = mmu::PageTable::allocate();
    table.map(0x4000_0000, 0x8000_0000, rwx(), 1);
    // a 2 MiB leaf gives its address plus the offset inside the 2 MiB page
    assert_eq!(table.virt_to_phys(0x4000_3456), Ok(0x8000_3456));
}

#[test]
fn megapage_translation_of_a_second_megapage() {
    let mut table = mmu::PageTable::allocate();
    table.map(0x4020_0000, 0x8020_0000, rwx(), 1);
    assert_eq!(table.virt_to_phys(0x4020_1234), Ok(0x8020_1234));
}

#[test]
fn gigapage_translation_keeps_the_offset_in_the_page() {
    let mut table = mmu::PageTable::allocate();
    table.map(0x4000_0000, 0x8000_0000, rwx(), 2);
    assert_eq!(table.virt_to_phys(0x4765_4321), Ok(0x8765_4321));
}

#[test]
fn identity_map_of_one_megapage_maps_exactly_the_range() {
    let mut table = mmu::PageTable::allocate();
    table.identity_map(0x20_0000, 0x3F_F000, rwx());
    assert_eq!(table.virt_to_phys(0x20_0000), Ok(0x20_0000));
    assert_eq!(table.virt_to_phys(0x3F_F123), Ok(0x3F_F123));
    assert!(table.virt_to_phys(0x40_0000).is_err());
}

#[test]
fn identity_map_of_two_pages() {
    let mut table = mmu::PageTable::allocate();
    table.identity_map(0x8000_0000, 0x8000_1000, rwx());
    assert_eq!(table.virt_to_phys(0x8000_0123), Ok(0x8000_0123));
    assert_eq!(table.virt_to_phys(0x8000_1456), Ok(0x8000_1456));
    assert_eq!(table.virt_to_phys(0x8000_2000), Err(TranslationError::InvalidPage(0)));
}

// ---------------------------------------------------------------- table entries

#[test]
fn table_entry_bits() {
    let mut e = TableEntry::new();
    assert!(!e.valid());
    e.set_valid(true);
    e.set_read(true);
    e.set_write(true);
    assert!(e.valid());
    assert!(e.read());
    assert!(e.write());
    assert!(!e.execute());
    assert!(e.is_leaf());
    e.set_read(false);
    e.set_write(false);
    assert!(!e.is_leaf());
    e.set_full_ppn(0x12345);
    assert_eq!(e.full_ppn(), 0x12345);
    assert_eq!(e.ppn(MemoryPageLevel::Level0), 0x145);
    e.set_ppn(MemoryPageLevel::Level1, 0x3);
    assert_eq!(e.ppn(MemoryPageLevel::Level1), 0x3);
    assert_eq!(e.ppn(MemoryPageLevel::Level0), 0x145);
    e.set_rsw(2);
    assert_eq!(e.rsw(), 2);
    assert!(e.valid());
}

#[test]
fn table_virtual_address_fields() {
    let v = pagetable::VirtualAddress::new(0xA6B46CF45E);
    assert_eq!(v.page_offset(), 0x45E);
    assert_eq!(v.vpn(MemoryPageLevel::Level0), 0xCF);
    assert_eq!(v.vpn(MemoryPageLevel::Level1), 0x1A3);
    assert_eq!(v.vpn(MemoryPageLevel::Level2), 0x9A);
    assert_eq!(v.get(), 0xA6B46CF45E);
}

#[test]
fn access_flags() {
    assert!(RWXFlags::ReadWrite.read());
    assert!(RWXFlags::ReadWrite.write());
    assert!(!RWXFlags::ReadWrite.execute());
    assert!(RWXFlags::Execute.execute());
    assert!(!RWXFlags::Execute.read());
    assert!(UGFlags::UserGlobal.user());
    assert!(UGFlags::UserGlobal.global());
    assert!(!UGFlags::NoFlags.user());
    assert_eq!(MemoryPageLevel::Level2.index(), 2);
}

#[test]
fn table_map_then_translate() {
    let mut table = pagetable::PageTable::new();
    let virt = pagetable::VirtualAddress::new(0x3F_0000_0000);
    table.map(virt, 0x1_0000_0000, RWXFlags::ReadWrite, UGFlags::NoFlags, MemoryPageLevel::Level0);
    assert_eq!(table.translate(pagetable::VirtualAddress::new(0x3F_0000_0123)), Some(0x1_0000_0123));
    assert_eq!(table.translate(pagetable::VirtualAddress::new(0x3F_0000_1123)), None);
    let (entry, addr) = table.translate_to_entry(pagetable::VirtualAddress::new(0x3F_0000_0123)).unwrap();
    assert!(entry.read());
    assert!(entry.write());
    assert!(!entry.user());
    assert_eq!(addr, 0x1_0000_0123);
}

#[test]
fn table_identity_map_and_unmap() {
    let mut table = pagetable::PageTable::new();
    table.identity_map(0x8000_0000, 0x8000_1fff, RWXFlags::ReadExecute, UGFlags::Global);
    assert_eq!(table.translate(pagetable::VirtualAddress::new(0x8000_0010)), Some(0x8000_0010));
    assert_eq!(table.translate(pagetable::VirtualAddress::new(0x8000_1ff0)), Some(0x8000_1ff0));
    table.unmap_all();
    assert_eq!(table.translate(pagetable::VirtualAddress::new(0x8000_0010)), None);
}

#[test]
fn kernel_sections_are_identity_mapped() {
    let mut table = pagetable::PageTable::new();
    let sections = KernelSections {
        text: (0x8000_0000, 0x8000_0fff),
        rodata: (0x8000_1000, 0x8000_1fff),
        data: (0x8000_2000, 0x8000_2fff),
        bss: (0x8000_3000, 0x8000_3fff),
        stack: (0x8000_4000, 0x8000_4fff),
        heap: (0x8000_5000, 0x8000_5fff),
    };
    identity_map_kernel(&mut table, &sections);
    assert_eq!(table.translate(pagetable::VirtualAddress::new(0x8000_0044)), Some(0x8000_0044));
    assert_eq!(table.translate(pagetable::VirtualAddress::new(0x8000_5044)), Some(0x8000_5044));
}

// ---------------------------------------------------------------- units

#[test]
fn memory_units() {
    let kib: MemoryUnit<1024> = MemoryUnit::new(3);
    assert_eq!(kib.raw(), 3);
    assert_eq!(kib.raw_bytes(), 3072);
    let bytes: MemoryUnit<1> = kib.convert::<1>();
    assert_eq!(bytes.raw(), 3072);
    let mut m = kib;
    *m.mut_raw() = 5;
    assert_eq!(m.raw(), 5);
}

#[test]
fn sv39_identity_map_translates_every_page_to_itself() {
    let mut table = pagetable::PageTable::new();
    table.identity_map(0x1234, 0x5678, RWXFlags::ReadWrite, UGFlags::User);
    for page in 1..6u64 {
        for off in [0u64, 0x1, 0x7ff, 0xfff] {
            let va = page * 0x1000 + off;
            let (e, pa) = table.translate_to_entry(pagetable::VirtualAddress::new(va)).unwrap();
            assert_eq!(pa as u64, va);
            assert!(e.valid() && e.read() && e.write() && !e.execute() && e.user());
        }
    }
    assert!(table.translate_to_entry(pagetable::VirtualAddress::new(0x6000)).is_none());
    assert!(table.translate_to_entry(pagetable::VirtualAddress::new(0x0fff)).is_none());
}

#[test]
fn checked_identity_map_refuses_to_map_under_a_leaf() {
    let mut table = mmu::PageTable::allocate();
    assert!(table.try_identity_map(0x20_0000, 0x3F_F000, rwx()));
    assert_eq!(table.virt_to_phys(0x20_0123), Ok(0x20_0123));
    // a 4 KiB page inside the 2 MiB page just mapped would go through its leaf
    assert!(!table.try_identity_map(0x20_1000, 0x20_1000, rwx()));
    let mut fresh = mmu::PageTable::allocate();
    assert!(fresh.try_identity_map(0x8000_0000, 0x8000_1fff, rwx()));
    assert_eq!(fresh.virt_to_phys(0x8000_1456), Ok(0x8000_1456));
}
