use qor_os::mem::allocator::{AllocationChunk, Allocator, GlobalAllocator};
use qor_os::mem::byte_alloc::{init_kernel_global_allocator, AllocationFlags, AllocationHeader, ALLOCATION_NODES};
use qor_os::mem::page::bitmap::{KernelPageBitmapAllocator, KernelPageBitmapAllocatorError};
use qor_os::mem::page::bump::{
    initialize_kernel_bump_allocator, KernelPageStaticBumpAllocator, KernelPageStaticBumpAllocatorError,
};
use qor_os::mem::error::GlobalPageAllocatorError;
use qor_os::mem::page_map::PageMap;
use qor_os::mem::pages::GlobalPageAllocator;
use qor_os::mem::PAGE_SIZE;

const BASE: usize = 0x8000_0000;

// ---------------------------------------------------------------- bitmap

#[test]
fn allocate_to_empty() {
    let mut allocator = KernelPageBitmapAllocator::new();

    assert!(allocator.allocate_pages(4).is_err());
    assert!(allocator.allocate_pages(2).is_err());
    assert!(allocator.allocate_pages(1).is_err());
}

#[test]
fn allocate_and_free_single() {
    let mut allocator = KernelPageBitmapAllocator::new();
    allocator.initialize(BASE, BASE + 6 * PAGE_SIZE);

    let first_page = allocator.allocate_pages(4).expect("Unable to initialize expected memory");

    assert!(allocator.allocate_pages(1).is_ok());
    assert!(allocator.allocate_pages(4).is_err());
    assert!(allocator.allocate_pages(2).is_err());
    allocator.free_pages(first_page, 4).unwrap();

    let second_page = allocator.allocate_pages(4).expect("Unable to initialize expected memory");

    assert_eq!(first_page, second_page);
}

#[test]
fn bitmap_hands_out_pages_after_the_bitmap() {
    let mut allocator = KernelPageBitmapAllocator::new();
    allocator.initialize(BASE, BASE + 6 * PAGE_SIZE);
    // one page holds the bitmap, the next is the first handed out
    assert_eq!(allocator.allocate_pages(1), Ok(BASE + PAGE_SIZE));
    assert_eq!(allocator.allocate_pages(2), Ok(BASE + 2 * PAGE_SIZE));
}

#[test]
fn bitmap_out_of_memory_error() {
    let mut allocator = KernelPageBitmapAllocator::new();
    allocator.initialize(BASE, BASE + 3 * PAGE_SIZE);
    assert_eq!(allocator.allocate_pages(3), Err(KernelPageBitmapAllocatorError::OutOfMemory { requested: 3 }));
}

#[test]
fn bitmap_free_of_unmapped_region_is_refused() {
    let mut allocator = KernelPageBitmapAllocator::new();
    allocator.initialize(BASE, BASE + 6 * PAGE_SIZE);
    assert!(allocator.free_pages(BASE + 100 * PAGE_SIZE, 1).is_err());
}

// ---------------------------------------------------------------- bump

#[test]
fn success() {
    let mut allocator = KernelPageStaticBumpAllocator::new(BASE, BASE + 5 * PAGE_SIZE);

    assert!(allocator.alloc_pages(4).is_ok());
    assert!(allocator.alloc_pages(1).is_ok());
}

#[test]
fn out_of_memory() {
    let mut allocator = KernelPageStaticBumpAllocator::new(BASE, BASE + 5 * PAGE_SIZE);

    assert_eq!(
        allocator.alloc_pages(8),
        Err(KernelPageStaticBumpAllocatorError::OutOfMemoryError { requested: 8, remaining: 5, total: 5 })
    );
}

#[test]
fn many_allocations() {
    let mut allocator = KernelPageStaticBumpAllocator::new(BASE, BASE + 8 * PAGE_SIZE);

    assert!(allocator.alloc_pages(4).is_ok());
    assert_eq!(
        allocator.alloc_pages(8),
        Err(KernelPageStaticBumpAllocatorError::OutOfMemoryError { requested: 8, remaining: 4, total: 8 })
    );
    assert!(allocator.alloc_pages(1).is_ok());
    assert_eq!(
        allocator.alloc_pages(4),
        Err(KernelPageStaticBumpAllocatorError::OutOfMemoryError { requested: 4, remaining: 3, total: 8 })
    );
    assert!(allocator.alloc_pages(1).is_ok());
    assert!(allocator.alloc_pages(2).is_ok());
    assert_eq!(
        allocator.alloc_pages(1),
        Err(KernelPageStaticBumpAllocatorError::OutOfMemoryError { requested: 1, remaining: 0, total: 8 })
    );
}

#[test]
fn bump_allocations_follow_each_other() {
    let mut allocator = KernelPageStaticBumpAllocator::new(BASE, BASE + 8 * PAGE_SIZE);
    let a = allocator.alloc_pages(3).unwrap();
    let b = allocator.alloc_pages(2).unwrap();
    assert_eq!(a, BASE);
    assert_eq!(b, a + 3 * PAGE_SIZE);
    assert_eq!(allocator.free(), 3);
    assert_eq!(allocator.total(), 8);
}

#[test]
fn kernel_bump_allocator_covers_the_heap() {
    let mut allocator = KernelPageStaticBumpAllocator::new(BASE, BASE);
    initialize_kernel_bump_allocator(&mut allocator, BASE + PAGE_SIZE, BASE + 7 * PAGE_SIZE);
    assert_eq!(allocator.total(), 6);
    assert_eq!(allocator.free(), 6);
    assert_eq!(allocator.alloc_pages(2), Ok(BASE + PAGE_SIZE));
    assert_eq!(allocator.free(), 4);
    assert!(allocator.alloc_pages(5).is_err());
}

// ---------------------------------------------------------------- page map

#[test]
fn page_map_first_fit_and_free() {
    let mut map = PageMap::initialize(BASE, 17);
    // the map itself takes the first page
    assert_eq!(map.page_to_address(0), Some(BASE + PAGE_SIZE));
    assert_eq!(map.total_pages(), 16);
    assert_eq!(map.total_alloc_pages(), 0);

    let a = map.alloc_pages(2).unwrap();
    assert_eq!(a, BASE + PAGE_SIZE);
    let b = map.alloc_pages(3).unwrap();
    assert_eq!(b, BASE + 3 * PAGE_SIZE);
    assert_eq!(map.total_alloc_pages(), 5);
    assert_eq!(map.check_allocation(0), Some(true));
    assert_eq!(map.check_allocation(5), Some(false));

    map.free_page(a).unwrap();
    assert_eq!(map.check_allocation(0), Some(false));
    assert_eq!(map.check_allocation(1), Some(true));
    assert_eq!(map.alloc_pages(1), Ok(a));
}

#[test]
fn page_map_uses_the_pages_past_the_last_whole_byte() {
    // eleven pages: one full byte of the bitmap and three pages after it
    let mut map = PageMap::initialize(BASE, 12);
    assert_eq!(map.total_pages(), 11);
    assert_eq!(map.alloc_pages(8), Ok(BASE + PAGE_SIZE));
    assert_eq!(map.alloc_pages(3), Ok(BASE + 9 * PAGE_SIZE));
    assert_eq!(map.check_allocation(10), Some(true));
    assert!(map.alloc_pages(1).is_err());
}

#[test]
fn page_map_addresses() {
    let map = PageMap::initialize(BASE, 17);
    assert_eq!(map.address_to_page(BASE + 3 * PAGE_SIZE), Some(2));
    assert_eq!(map.address_to_page(BASE + 3 * PAGE_SIZE + 1), None);
    assert_eq!(map.address_to_page(BASE), None);
    assert!(map.address_in_map(BASE + 2 * PAGE_SIZE));
    assert!(!map.address_in_map(BASE));
    assert_eq!(map.page_to_address(16), None);
    assert_eq!(map.check_allocation(16), None);
}

#[test]
fn page_map_free_pages_releases_all() {
    let mut map = PageMap::initialize(BASE, 17);
    let a = map.alloc_pages(4).unwrap();
    assert_eq!(map.total_alloc_pages(), 4);
    map.free_pages(a, 4).unwrap();
    assert_eq!(map.total_alloc_pages(), 0);
}

#[test]
fn page_map_out_of_pages() {
    let mut map = PageMap::initialize(BASE, 17);
    assert!(map.alloc_pages(17).is_err());
}

// ---------------------------------------------------------------- chunk allocator

#[test]
fn chunk_new_is_free() {
    let c = AllocationChunk::new(0x1000, 0x100);
    assert!(c.free);
    assert_eq!(c.ptr, 0x1000);
    assert_eq!(c.size, 0x100);
    assert!(c.next.is_none());
}

#[test]
fn chunk_split_keeps_the_rest_free() {
    let mut c = AllocationChunk::new(0x1000, 0x100);
    let mut other = None;
    c.split(0x40, &mut other, 3);
    assert!(!c.free);
    assert_eq!(c.size, 0x40);
    assert_eq!(c.next, Some(3));
    let o = other.unwrap();
    assert!(o.free);
    assert_eq!(o.ptr, 0x1040);
    assert_eq!(o.size, 0xc0);
}

#[test]
fn chunk_split_whole_marks_allocated() {
    let mut c = AllocationChunk::new(0x1000, 0x100);
    let mut other = None;
    c.split(0x100, &mut other, 3);
    assert!(!c.free);
    assert_eq!(c.size, 0x100);
    assert!(other.is_none());
}

#[test]
fn chunk_contains_and_layout() {
    let c = AllocationChunk::new(0x1004, 0x20);
    assert!(c.contains_ptr(0x1004));
    assert!(c.contains_ptr(0x1023));
    assert!(!c.contains_ptr(0x1024));
    assert!(!c.contains_ptr(0x1003));
    // 12 bytes of padding move 0x1004 up to 0x1010
    assert_eq!(c.check_layout(8, 16), Some(20));
    assert_eq!(c.check_layout(0x20, 16), None);
}

#[test]
fn chunk_combine_with_free_next() {
    let mut slots = vec![None, Some(AllocationChunk { next: None, ptr: 0x1010, size: 0x10, free: true })];
    let mut c = AllocationChunk { next: Some(1), ptr: 0x1000, size: 0x10, free: true };
    c.attempt_combine(&mut slots);
    assert_eq!(c.size, 0x20);
    assert!(c.next.is_none());
    assert!(slots[1].is_none());
}

#[test]
fn chunk_combine_skips_allocated_next() {
    let mut slots = vec![None, Some(AllocationChunk { next: None, ptr: 0x1010, size: 0x10, free: false })];
    let mut c = AllocationChunk { next: Some(1), ptr: 0x1000, size: 0x10, free: true };
    c.attempt_combine(&mut slots);
    assert_eq!(c.size, 0x10);
    assert_eq!(c.next, Some(1));
    assert!(slots[1].is_some());
}

#[test]
fn chunk_allocator_allocate_free_reuse() {
    let mut allocator = Allocator::new(vec![None; 8], 0x1000, 0x1000);
    let a = allocator.allocate_memory(16, 8);
    assert_eq!(a, Some(0x1000));
    let b = allocator.allocate_memory(32, 16);
    assert_eq!(b, Some(0x1010));
    // 0x1030 is aligned to 16 already
    let c = allocator.allocate_memory(4, 16);
    assert_eq!(c, Some(0x1030));
    allocator.free_memory(0x1000);
    // the freed chunk is the first that fits again
    assert_eq!(allocator.allocate_memory(8, 8), Some(0x1000));
    allocator.free_memory(0x1010);
    allocator.clean_up();
    // the clean-up merged the free chunk at 0x1008 with the one freed
    // after it, whose slot is empty again
    assert_eq!(allocator.find_free_chunk(), Some(0));
    assert_eq!(allocator.allocate_memory(40, 8), Some(0x1008));
}

#[test]
fn chunk_allocator_padding() {
    let mut allocator = Allocator::new(vec![None; 4], 0x1001, 0x100);
    // one byte allocated, then a 16-aligned request is padded
    assert_eq!(allocator.allocate_memory(1, 1), Some(0x1001));
    assert_eq!(allocator.allocate_memory(8, 16), Some(0x1010));
}

#[test]
fn global_allocator_starts_uninitialized() {
    let g = GlobalAllocator::new();
    assert!(g.allocator.is_none());
}

// ---------------------------------------------------------------- byte allocator

#[test]
fn test_kernel_byte_allocator_simple() {
    let mut heap = init_kernel_global_allocator(0x10_0000, 2);
    let p = heap.allocate(8, 8);
    assert_eq!(p, 0x10_0000);
    heap.deallocate(p, 8, 8);
    let first = heap.ref_node(0).unwrap();
    assert!(first.flags.is_free());
    assert_eq!(first.size as usize, 2 * PAGE_SIZE);
}

#[test]
fn test_kernel_byte_allocator_multiple() {
    let mut heap = init_kernel_global_allocator(0x10_0000, 2);
    let a = heap.allocate(8, 8);
    let b = heap.allocate(24, 8);
    let c = heap.allocate(16, 16);
    assert_eq!(a, 0x10_0000);
    assert_eq!(b, 0x10_0008);
    assert_eq!(c, 0x10_0020);
    heap.deallocate(b, 24, 8);
    // the freed block is the first that fits
    assert_eq!(heap.allocate(16, 8), b);
    heap.deallocate(a, 8, 8);
    heap.deallocate(b, 16, 8);
    heap.deallocate(c, 16, 16);
}

#[test]
fn byte_allocator_new_layout() {
    let heap = AllocationHeader::new(0x20_0000, 1, 2);
    let first = heap.ref_node(0).unwrap();
    assert_eq!(first.ptr, 0x20_0000);
    assert_eq!(first.size as usize, PAGE_SIZE);
    assert!(first.flags.is_valid());
    assert!(first.flags.is_free());
    assert!(first.next.is_none());
    // the other nodes are unused
    assert!(!heap.ref_node(1).unwrap().flags.is_valid());
    assert!(heap.ref_node(2 * ALLOCATION_NODES).is_none());
    assert_eq!(heap.get_free(), Some(1));
}

#[test]
fn byte_allocator_allocate_then_deallocate_gives_the_heap_back() {
    let mut heap = AllocationHeader::new(0x20_0004, 2, 1);
    let p = heap.allocate(100, 16);
    assert_eq!(p, 0x20_0010);
    assert!(heap.ref_node(1).unwrap().flags.is_valid());
    heap.deallocate(p, 100, 16);
    let first = heap.ref_node(0).unwrap();
    assert_eq!(first.ptr, 0x20_0004);
    assert_eq!(first.size as usize, 2 * PAGE_SIZE);
    assert!(first.next.is_none());
    assert!(first.flags.is_valid());
    assert!(first.flags.is_free());
    assert!(!heap.ref_node(1).unwrap().flags.is_valid());
}

#[test]
fn byte_allocator_alignment_padding() {
    let mut heap = AllocationHeader::new(0x20_0004, 1, 1);
    let p = heap.allocate(8, 16);
    assert_eq!(p, 0x20_0010);
}

#[test]
fn allocation_flags() {
    let f = AllocationFlags::valid().bitor(AllocationFlags::free());
    assert!(f.is_valid());
    assert!(f.is_free());
    assert!(!f.is_taken());
    let mut g = f;
    g.set_taken();
    assert!(g.is_taken());
    g.set_invalid();
    assert!(!g.is_valid());
}

#[test]
fn global_allocator_serves_and_takes_back() {
    let mut g = GlobalAllocator::new();
    g.initialize(0x10_0000, 1);
    assert!(g.allocator.is_some());
    let a = g.allocate(16, 8);
    assert_eq!(a, 0x10_0000);
    let b = g.allocate(8, 8);
    assert_eq!(b, 0x10_0010);
    g.deallocate(a);
    // the freed chunk is the first that fits again
    assert_eq!(g.allocate(16, 16), 0x10_0000);
}

// ---------------------------------------------------------------- global page allocator

#[test]
fn global_pages_uninitialized() {
    let mut g = GlobalPageAllocator::new();
    assert_eq!(g.allocate_pages_raw(1), Err(GlobalPageAllocatorError::NotInitialized));
    assert_eq!(g.free_pages_unchecked(BASE, 1), Err(GlobalPageAllocatorError::NotInitialized));
}

#[test]
fn global_pages_bitmap_needs_room() {
    let mut g = GlobalPageAllocator::new();
    assert_eq!(g.initialize(BASE, BASE + PAGE_SIZE), Err(GlobalPageAllocatorError::BitmapSpaceError));
}

#[test]
fn global_pages_allocate_free_reuse() {
    let mut g = GlobalPageAllocator::new();
    g.initialize(BASE, BASE + 9 * PAGE_SIZE).unwrap();
    // one page holds the bitmap, eight are handed out
    let (a, n) = g.allocate_pages_raw(3).unwrap();
    assert_eq!((a, n), (BASE + PAGE_SIZE, 3));
    let (b, _) = g.allocate_pages_raw(2).unwrap();
    assert_eq!(b, BASE + 4 * PAGE_SIZE);
    assert_eq!(g.allocate_pages_raw(4), Err(GlobalPageAllocatorError::OutOfMemory));
    g.free_pages_unchecked(a, 3).unwrap();
    assert_eq!(g.allocate_pages_raw(3).unwrap().0, a);
    assert_eq!(g.free_pages_unchecked(BASE + 7 * PAGE_SIZE, 1), Err(GlobalPageAllocatorError::MemoryNotAllocated(BASE + 7 * PAGE_SIZE, 1)));
}
