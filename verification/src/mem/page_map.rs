//! Page grain memory allocation: a chain of page maps, each holding one bit
//! per page it manages.
use vstd::prelude::*;

verus! {

/// Size of the system pages
pub const PAGE_SIZE: usize = 4096;

/// Bytes of a page left for the bitmap once the map's header is stored
pub const PAGE_MAP_EXCESS: usize = 4072;

/// Number of pages one page map can manage
pub const PAGE_MAP_ENTRIES: usize = 32576;

/// Kernel Page Allocation Errors
#[derive(Clone, Copy, Debug, PartialEq, Eq, Structural)]
pub enum KernelPageAllocationError {
    NotInTable(usize),
    NotAllocated(usize),
    NotAligned(usize),
    NotEnoughPages(usize),
}

/// Page Map Structure: `number` pages from the address `ptr` on, one bit per
/// page in `data`, the most significant bit of a byte first, and the next map
/// of the chain.
pub struct PageMap {
    ptr: usize,
    next_page: Option<Box<PageMap>>,
    number: usize,
    data: Vec<u8>,
}

/// What one page map of a chain holds.
pub struct MapSegment {
    pub ptr: usize,
    pub number: usize,
    pub data: Seq<u8>,
}

/// Whether bit `k` of a byte, counted from the most significant bit, is set.
pub open spec fn page_bit(b: u8, k: u8) -> bool {
    (b >> ((7 - k) as u8)) & 1u8 == 1u8
}

/// Whether page `pn` is marked allocated in the bitmap `data`.
pub open spec fn allocated(data: Seq<u8>, pn: int) -> bool {
    page_bit(data[pn / 8], (pn % 8) as u8)
}

/// The bit arithmetic of the page bitmap.
proof fn lemma_page_bits(b: u8, k: u8)
    requires
        k < 8,
    ensures
        ((b << k) & 128u8 != 0u8) == page_bit(b, k),
        page_bit(b | (128u8 >> k), k),
        !page_bit(b & !(128u8 >> k), k),
        forall|j: u8| j < 8 && j != k ==> #[trigger] page_bit(b | (128u8 >> k), j) == page_bit(b, j),
        forall|j: u8| j < 8 && j != k ==> #[trigger] page_bit(b & !(128u8 >> k), j) == page_bit(b, j),
        b == 0xffu8 ==> forall|j: u8| j < 8 ==> #[trigger] page_bit(b, j),
{
    assert(((b << k) & 128u8 != 0u8) == page_bit(b, k) && page_bit(b | (128u8 >> k), k) && !page_bit(
        b & !(128u8 >> k),
        k,
    )) by (bit_vector)
        requires
            k < 8,
    ;
    assert(forall|j: u8|
        j < 8 && j != k ==> #[trigger] page_bit(b | (128u8 >> k), j) == page_bit(b, j))
        by (bit_vector)
        requires
            k < 8,
    ;
    assert(forall|j: u8|
        j < 8 && j != k ==> #[trigger] page_bit(b & !(128u8 >> k), j) == page_bit(b, j))
        by (bit_vector)
        requires
            k < 8,
    ;
    assert(b == 0xffu8 ==> forall|j: u8| j < 8 ==> #[trigger] page_bit(b, j)) by (bit_vector);
}

/// A segment whose bitmap is of the right size and whose pages lie in the
/// address space.
pub open spec fn segment_wf(s: MapSegment) -> bool {
    &&& s.data.len() == PAGE_MAP_EXCESS
    &&& s.number <= PAGE_MAP_ENTRIES
    &&& s.ptr + s.number * PAGE_SIZE <= usize::MAX
}

/// Whether `address` lies within the pages of a segment.
pub open spec fn in_segment(s: MapSegment, address: usize) -> bool {
    address >= s.ptr && (address - s.ptr) / (PAGE_SIZE as int) < s.number
}

/// The number of bitmap bytes that hold the bits of `pages` pages.
pub open spec fn map_bytes(pages: int) -> int {
    (pages + 7) / 8
}

/// The first-fit search of a page map of `pages` pages: walking the pages
/// from `p` with `found` free pages in a row so far, the first of which is
/// `start`, the start of the first run of `count` free pages. A byte whose
/// pages are all allocated is passed over as a whole, and the bits past the
/// last page of the map count as taken.
pub open spec fn scan(data: Seq<u8>, pages: int, count: int, p: int, found: int, start: int) -> Option<
    int,
>
    decreases 8 * map_bytes(pages) - p,
{
    if p < 0 || p >= 8 * map_bytes(pages) {
        None
    } else if p % 8 == 0 && data[p / 8] == 0xffu8 {
        scan(data, pages, count, p + 8, 0, start)
    } else {
        let free = p < pages && !allocated(data, p);
        let found2 = if free {
            found + 1
        } else {
            0
        };
        let start2 = if free && found == 0 {
            p
        } else {
            start
        };
        if found2 == count {
            Some(start2)
        } else {
            scan(data, pages, count, p + 1, found2, start2)
        }
    }
}

/// Page `q` is one of the `pages` pages of the map and is free in `data`.
pub open spec fn page_free(data: Seq<u8>, pages: int, q: int) -> bool {
    0 <= q < pages && !allocated(data, q)
}

/// The `count` pages from `s` on are pages of the map, all free.
pub open spec fn free_run(data: Seq<u8>, pages: int, s: int, count: int) -> bool {
    &&& 0 <= s
    &&& s + count <= pages
    &&& forall|q: int| s <= q < s + count ==> #[trigger] page_free(data, pages, q)
}

/// The first-fit search finds the lowest start of a run of `count` free
/// pages, and finds nothing only where the map has no such run. Walking from
/// `p` with the free pages just before `p` counted in `found` (from
/// `start`), where no run ends before `p`.
proof fn lemma_scan_first_fit(data: Seq<u8>, pages: int, count: int, p: int, found: int, start: int)
    requires
        count > 0,
        0 <= pages,
        8 * map_bytes(pages) <= 8 * data.len(),
        0 <= p,
        0 <= found < count,
        found > 0 ==> start + found == p && start >= 0 && forall|q: int| start <= q < p ==> #[trigger] page_free(data, pages, q),
        found > 0 ==> start == 0 || !page_free(data, pages, start - 1),
        found == 0 ==> p == 0 || !page_free(data, pages, p - 1),
        forall|s: int| s + count <= p ==> !#[trigger] free_run(data, pages, s, count),
    ensures
        match scan(data, pages, count, p, found, start) {
            Some(x) => free_run(data, pages, x, count) && forall|s: int| s < x ==> !#[trigger] free_run(data, pages, s, count),
            None => forall|s: int| !#[trigger] free_run(data, pages, s, count),
        },
    decreases 8 * map_bytes(pages) - p,
{
    if p >= 8 * map_bytes(pages) {
        assert forall|s: int| !#[trigger] free_run(data, pages, s, count) by {
            if free_run(data, pages, s, count) {
                assert(s + count <= p);
            }
        }
    } else if p % 8 == 0 && data[p / 8] == 0xffu8 {
        lemma_page_bits(data[p / 8], 0);
        assert forall|q: int| p <= q < p + 8 implies !#[trigger] page_free(data, pages, q) by {
            assert(q / 8 == p / 8);
            assert(page_bit(data[q / 8], (q % 8) as u8));
        }
        assert forall|s: int| s + count <= p + 8 implies !#[trigger] free_run(data, pages, s, count) by {
            if free_run(data, pages, s, count) && s + count > p {
                let q = s + count - 1;
                if q >= p {
                    assert(page_free(data, pages, q));
                } else {
                    assert(s + count <= p);
                }
            }
        }
        assert(!page_free(data, pages, p + 7));
        lemma_scan_first_fit(data, pages, count, p + 8, 0, start);
    } else {
        let free = p < pages && !allocated(data, p);
        assert(free == page_free(data, pages, p));
        let found2 = if free { found + 1 } else { 0 };
        let start2 = if free && found == 0 { p } else { start };
        if found2 == count {
            assert(free_run(data, pages, start2, count)) by {
                assert forall|q: int| start2 <= q < start2 + count implies #[trigger] page_free(data, pages, q) by {
                    if q < p {
                        assert(found > 0);
                    }
                }
            }
            assert forall|s: int| s < start2 implies !#[trigger] free_run(data, pages, s, count) by {
                if free_run(data, pages, s, count) && s + count > p {
                    // the run would hold page start2 - 1, which is not free
                    assert(start2 > 0);
                    assert(s <= start2 - 1 < s + count);
                    assert(page_free(data, pages, start2 - 1));
                    if found == 0 {
                        assert(start2 == p);
                    }
                }
            }
        } else {
            assert forall|s: int| s + count <= p + 1 implies !#[trigger] free_run(data, pages, s, count) by {
                if free_run(data, pages, s, count) && s + count == p + 1 {
                    assert(page_free(data, pages, p));
                    assert(free);
                    // a run of count pages ends at p, but the free pages
                    // ending at p are found2 < count from start2 on
                    assert(start2 + found2 == p + 1);
                    assert(s < start2);
                    assert(page_free(data, pages, start2 - 1));
                    if found == 0 {
                        assert(start2 == p);
                        assert(page_free(data, pages, p - 1));
                    }
                }
            }
            if free {
                assert forall|q: int| start2 <= q < p + 1 implies #[trigger] page_free(data, pages, q) by {
                    if q < p {
                        assert(found > 0);
                    }
                }
                if found == 0 {
                    assert(start2 == p);
                }
            }
            lemma_scan_first_fit(data, pages, count, p + 1, found2, start2);
        }
    }
}

/// Freeing an address of a map: an address not on a page boundary and a
/// page that is not allocated are refused and change nothing; otherwise
/// the address's page becomes free and every other page keeps its state.
pub proof fn lemma_segment_free_page(seg: MapSegment, address: usize)
    requires
        segment_wf(seg),
        in_segment(seg, address),
    ensures
        ({
            let pn = (address - seg.ptr) / (PAGE_SIZE as int);
            let (new, r) = segment_free(seg, address);
            &&& address % PAGE_SIZE != 0 ==> r == Err::<(), KernelPageAllocationError>(
                KernelPageAllocationError::NotAligned(address),
            ) && new == seg
            &&& address % PAGE_SIZE == 0 && !allocated(seg.data, pn) ==> r == Err::<(), KernelPageAllocationError>(
                KernelPageAllocationError::NotAllocated(address),
            ) && new == seg
            &&& address % PAGE_SIZE == 0 && allocated(seg.data, pn) ==> {
                &&& r == Ok::<(), KernelPageAllocationError>(())
                &&& new.ptr == seg.ptr && new.number == seg.number && new.data.len() == seg.data.len()
                &&& !allocated(new.data, pn)
                &&& forall|q: int| 0 <= q < 8 * seg.data.len() && q != pn ==> #[trigger] allocated(new.data, q) == allocated(seg.data, q)
            }
        }),
{
    let pn = (address - seg.ptr) / (PAGE_SIZE as int);
    assert(0 <= pn < seg.number);
    let k = (pn % 8) as u8;
    lemma_page_bits(seg.data[pn / 8], k);
    let (new, r) = segment_free(seg, address);
    if address % PAGE_SIZE == 0 && allocated(seg.data, pn) {
        assert forall|q: int| 0 <= q < 8 * seg.data.len() && q != pn implies #[trigger] allocated(new.data, q) == allocated(seg.data, q) by {
            if q / 8 == pn / 8 {
                assert((q % 8) as u8 != k);
            }
        }
    }
}

/// The `count` pages from `s` on are pages of the map segment, all free.
pub open spec fn segment_run(seg: MapSegment, s: int, count: int) -> bool {
    free_run(seg.data, seg.number as int, s, count)
}

/// Page allocation on a chain of maps is first fit: it fails only where no
/// map holds a run of `count` free pages; otherwise the first map that
/// holds one marks the lowest such run and hands out its address, and the
/// other maps are unchanged.
pub proof fn lemma_alloc_first_fit(
    old: Seq<MapSegment>,
    new: Seq<MapSegment>,
    count: usize,
    r: Result<usize, KernelPageAllocationError>,
)
    requires
        count > 0,
        forall|j: int| 0 <= j < old.len() ==> segment_wf(#[trigger] old[j]),
        alloc_outcome(old, new, count, r),
    ensures
        r is Err ==> r == Err::<usize, KernelPageAllocationError>(KernelPageAllocationError::NotEnoughPages(count))
            && new == old && forall|j: int, s: int| 0 <= j < old.len() ==> !#[trigger] segment_run(old[j], s, count as int),
        r is Ok ==> exists|j: int, s: int|
            #![trigger segment_run(old[j], s, count as int)]
            {
                &&& 0 <= j < old.len()
                &&& segment_run(old[j], s, count as int)
                &&& forall|s2: int| s2 < s ==> !#[trigger] segment_run(old[j], s2, count as int)
                &&& forall|j2: int, s2: int| 0 <= j2 < j ==> !#[trigger] segment_run(old[j2], s2, count as int)
                &&& r == Ok::<usize, KernelPageAllocationError>((old[j].ptr + s * PAGE_SIZE) as usize)
                &&& pages_marked(old[j], new[j], s, count as int)
                &&& new.len() == old.len()
                &&& forall|j2: int| 0 <= j2 < old.len() && j2 != j ==> #[trigger] new[j2] == old[j2]
            },
    decreases old.len(),
{
    if old.len() == 0 {
        assert(new =~= old);
    } else {
        let seg = old[0];
        assert(segment_wf(seg));
        lemma_scan_first_fit(seg.data, seg.number as int, count as int, 0, 0, 0);
        match scan(seg.data, seg.number as int, count as int, 0, 0, 0) {
            Some(x) => {
                assert(segment_run(old[0], x, count as int));
                assert forall|j2: int| 0 <= j2 < old.len() && j2 != 0 implies #[trigger] new[j2] == old[j2] by {
                    assert(new.drop_first()[j2 - 1] == old.drop_first()[j2 - 1]);
                }
            },
            None => {
                assert(new[0] == old[0]);
                assert forall|j: int| 0 <= j < old.drop_first().len() implies segment_wf(#[trigger] old.drop_first()[j]) by {
                    assert(old.drop_first()[j] == old[j + 1]);
                }
                lemma_alloc_first_fit(old.drop_first(), new.drop_first(), count, r);
                if r is Err {
                    assert(new =~= old) by {
                        assert(new.len() == old.len());
                        assert forall|j: int| 0 <= j < new.len() implies new[j] == old[j] by {
                            if j > 0 {
                                assert(new[j] == new.drop_first()[j - 1]);
                                assert(old[j] == old.drop_first()[j - 1]);
                            }
                        }
                    }
                    assert forall|j: int, s: int| 0 <= j < old.len() implies !#[trigger] segment_run(old[j], s, count as int) by {
                        if j > 0 {
                            assert(old[j] == old.drop_first()[j - 1]);
                        }
                    }
                } else {
                    let o = old.drop_first();
                    let n = new.drop_first();
                    let (j, s) = choose|j: int, s: int|
                        #![trigger segment_run(o[j], s, count as int)]
                        {
                            &&& 0 <= j < o.len()
                            &&& segment_run(o[j], s, count as int)
                            &&& forall|s2: int| s2 < s ==> !#[trigger] segment_run(o[j], s2, count as int)
                            &&& forall|j2: int, s2: int| 0 <= j2 < j ==> !#[trigger] segment_run(o[j2], s2, count as int)
                            &&& r == Ok::<usize, KernelPageAllocationError>((o[j].ptr + s * PAGE_SIZE) as usize)
                            &&& pages_marked(o[j], n[j], s, count as int)
                            &&& n.len() == o.len()
                            &&& forall|j2: int| 0 <= j2 < o.len() && j2 != j ==> #[trigger] n[j2] == o[j2]
                        };
                    assert(old[j + 1] == o[j] && new[j + 1] == n[j]);
                    assert(segment_run(old[j + 1], s, count as int));
                    assert forall|j2: int, s2: int| 0 <= j2 < j + 1 implies !#[trigger] segment_run(old[j2], s2, count as int) by {
                        if j2 > 0 {
                            assert(old[j2] == o[j2 - 1]);
                        }
                    }
                    assert forall|j2: int| 0 <= j2 < old.len() && j2 != j + 1 implies #[trigger] new[j2] == old[j2] by {
                        if j2 > 0 {
                            assert(new[j2] == n[j2 - 1]);
                            assert(old[j2] == o[j2 - 1]);
                        }
                    }
                }
            },
        }
    }
}

/// The segment's pages from `start` on, `count` of them, are marked
/// allocated and no other bit changed.
pub open spec fn pages_marked(old: MapSegment, new: MapSegment, start: int, count: int) -> bool {
    &&& new.ptr == old.ptr
    &&& new.number == old.number
    &&& new.data.len() == old.data.len()
    &&& forall|pn: int|
        0 <= pn < 8 * old.data.len() ==> #[trigger] allocated(new.data, pn) == (allocated(
            old.data,
            pn,
        ) || start <= pn < start + count)
}

/// The chain after allocating `count` pages: the first map whose search
/// finds a run marks it and gives its address; with no such map the chain
/// is unchanged and the allocation fails.
pub open spec fn alloc_outcome(
    old: Seq<MapSegment>,
    new: Seq<MapSegment>,
    count: usize,
    r: Result<usize, KernelPageAllocationError>,
) -> bool
    decreases old.len(),
{
    if old.len() == 0 {
        new.len() == 0 && r == Err::<usize, KernelPageAllocationError>(
            KernelPageAllocationError::NotEnoughPages(count),
        )
    } else if new.len() != old.len() {
        false
    } else {
        match scan(old[0].data, old[0].number as int, count as int, 0, 0, 0) {
            Some(start) => {
                &&& pages_marked(old[0], new[0], start, count as int)
                &&& new.drop_first() == old.drop_first()
                &&& r == Ok::<usize, KernelPageAllocationError>(
                    (old[0].ptr + start * PAGE_SIZE) as usize,
                )
            },
            None => {
                &&& new[0] == old[0]
                &&& alloc_outcome(old.drop_first(), new.drop_first(), count, r)
            },
        }
    }
}

/// Freeing `address` in one segment that holds it.
pub open spec fn segment_free(s: MapSegment, address: usize) -> (MapSegment, Result<
    (),
    KernelPageAllocationError,
>) {
    let pn = (address - s.ptr) / (PAGE_SIZE as int);
    if address % PAGE_SIZE != 0 {
        (s, Err(KernelPageAllocationError::NotAligned(address)))
    } else if !allocated(s.data, pn) {
        (s, Err(KernelPageAllocationError::NotAllocated(address)))
    } else {
        (
            MapSegment {
                data: s.data.update(pn / 8, s.data[pn / 8] & !(128u8 >> ((pn % 8) as u8))),
                ..s
            },
            Ok(()),
        )
    }
}

/// The chain after freeing `address`: the first map that holds the address
/// frees it there.
pub open spec fn chain_free(segs: Seq<MapSegment>, address: usize) -> (Seq<MapSegment>, Result<
    (),
    KernelPageAllocationError,
>)
    decreases segs.len(),
{
    if segs.len() == 0 {
        (segs, Err(KernelPageAllocationError::NotInTable(address)))
    } else if !in_segment(segs[0], address) {
        let rest = chain_free(segs.drop_first(), address);
        (seq![segs[0]] + rest.0, rest.1)
    } else {
        let first = segment_free(segs[0], address);
        (seq![first.0] + segs.drop_first(), first.1)
    }
}

/// The chain after freeing the `count - i` pages from page `i` of the region
/// at `address`, stopping at the first failure.
pub open spec fn chain_free_range(segs: Seq<MapSegment>, address: usize, i: int, count: int) -> (Seq<
    MapSegment,
>, Result<(), KernelPageAllocationError>)
    decreases count - i,
{
    if i >= count {
        (segs, Ok(()))
    } else {
        let step = chain_free(segs, (address + i * PAGE_SIZE) as usize);
        if step.1 is Err {
            step
        } else {
            chain_free_range(step.0, address, i + 1, count)
        }
    }
}

/// The number of pages marked allocated among the first `n` pages.
pub open spec fn count_allocated(data: Seq<u8>, n: int) -> int
    decreases n,
{
    if n <= 0 {
        0
    } else {
        count_allocated(data, n - 1) + if allocated(data, n - 1) {
            1int
        } else {
            0
        }
    }
}

/// The number of pages managed by a chain.
pub open spec fn chain_pages(segs: Seq<MapSegment>) -> int
    decreases segs.len(),
{
    if segs.len() == 0 {
        0
    } else {
        segs[0].number + chain_pages(segs.drop_first())
    }
}

/// The number of pages marked allocated in a chain.
pub open spec fn chain_allocated(segs: Seq<MapSegment>) -> int
    decreases segs.len(),
{
    if segs.len() == 0 {
        0
    } else {
        count_allocated(segs[0].data, segs[0].number as int) + chain_allocated(segs.drop_first())
    }
}

/// A run found by the first-fit search is `count` free pages of the map.
proof fn lemma_scan_found(data: Seq<u8>, pages: int, count: int, p: int, found: int, start: int)
    requires
        count > 0,
        0 <= found < count,
        0 <= p,
        found > 0 ==> 0 <= start && start + found == p && forall|q: int|
            start <= q < p ==> q < pages && !#[trigger] allocated(data, q),
        scan(data, pages, count, p, found, start) is Some,
    ensures
        ({
            let s = scan(data, pages, count, p, found, start)->Some_0;
            &&& 0 <= s
            &&& s + count <= pages
            &&& forall|q: int| s <= q < s + count ==> !#[trigger] allocated(data, q)
        }),
    decreases 8 * map_bytes(pages) - p,
{
    if p < 0 || p >= 8 * map_bytes(pages) {
    } else if p % 8 == 0 && data[p / 8] == 0xffu8 {
        lemma_scan_found(data, pages, count, p + 8, 0, start);
    } else {
        let free = p < pages && !allocated(data, p);
        let found2 = if free { found + 1 } else { 0 };
        let start2 = if free && found == 0 { p } else { start };
        assert(found2 > 0 ==> start2 + found2 == p + 1);
        assert forall|q: int| found2 > 0 && start2 <= q < p + 1 implies q < pages && !#[trigger] allocated(data, q) by {
            if q < p {
                assert(found > 0);
            }
        }
        if found2 == count {
            let s = start2;
            assert(s + count - 1 < pages);
        } else {
            lemma_scan_found(data, pages, count, p + 1, found2, start2);
        }
    }
}

/// The count of allocated pages among the first `n` depends only on which
/// of them are allocated.
proof fn lemma_count_allocated_same(a: Seq<u8>, b: Seq<u8>, n: int)
    requires
        forall|pn: int| 0 <= pn < n ==> #[trigger] allocated(a, pn) == allocated(b, pn),
    ensures
        count_allocated(a, n) == count_allocated(b, n),
    decreases n,
{
    if n > 0 {
        lemma_count_allocated_same(a, b, n - 1);
    }
}

/// Freeing pages `i ..` of a run of pages marked allocated in a single map
/// clears them one by one.
proof fn lemma_free_run(old: MapSegment, s: MapSegment, start: int, count: int, i: int, address: usize)
    requires
        segment_wf(old),
        old.ptr % PAGE_SIZE == 0,
        0 <= start,
        0 <= i <= count,
        start + count <= old.number,
        address == old.ptr + start * PAGE_SIZE,
        forall|q: int| start <= q < start + count ==> !#[trigger] allocated(old.data, q),
        s.ptr == old.ptr,
        s.number == old.number,
        s.data.len() == old.data.len(),
        forall|pn: int|
            0 <= pn < 8 * old.data.len() ==> #[trigger] allocated(s.data, pn) == (allocated(old.data, pn) || start + i <= pn
                < start + count),
    ensures
        ({
            let (segs, r) = chain_free_range(seq![s], address, i, count);
            &&& r == Ok::<(), KernelPageAllocationError>(())
            &&& segs.len() == 1
            &&& segs[0].ptr == old.ptr
            &&& segs[0].number == old.number
            &&& segs[0].data.len() == old.data.len()
            &&& forall|pn: int| 0 <= pn < 8 * old.data.len() ==> #[trigger] allocated(segs[0].data, pn) == allocated(old.data, pn)
        }),
    decreases count - i,
{
    if i < count {
        let a = (address + i * PAGE_SIZE) as usize;
        let pn = start + i;
        assert(8 * (old.number / 8) <= old.number);
        assert(old.number <= PAGE_MAP_ENTRIES);
        assert(pn * PAGE_SIZE + PAGE_SIZE <= old.number * PAGE_SIZE) by (nonlinear_arith)
            requires
                pn + 1 <= old.number,
        ;
        assert(a == old.ptr + pn * PAGE_SIZE) by (nonlinear_arith)
            requires
                address == old.ptr + start * PAGE_SIZE,
                pn == start + i,
                a == address + i * PAGE_SIZE,
        ;
        assert((a - s.ptr) / (PAGE_SIZE as int) == pn) by (nonlinear_arith)
            requires
                a - s.ptr == pn * PAGE_SIZE,
                pn >= 0,
        ;
        assert(a % PAGE_SIZE == 0) by (nonlinear_arith)
            requires
                a == old.ptr + pn * PAGE_SIZE,
                old.ptr % PAGE_SIZE == 0,
                pn >= 0,
        ;
        assert(in_segment(s, a));
        assert(pn < 8 * old.data.len());
        assert(allocated(s.data, pn));
        let k = (pn % 8) as u8;
        let byte = s.data[pn / 8];
        lemma_page_bits(byte, k);
        let s2 = MapSegment { data: s.data.update(pn / 8, byte & !(128u8 >> k)), ..s };
        assert(segment_free(s, a) == (s2, Ok::<(), KernelPageAllocationError>(())));
        assert(chain_free(seq![s], a) == (seq![s2], Ok::<(), KernelPageAllocationError>(()))) by {
            assert(seq![s].drop_first() =~= Seq::<MapSegment>::empty());
            assert(seq![s2] + Seq::<MapSegment>::empty() =~= seq![s2]);
        }
        assert forall|q: int| 0 <= q < 8 * old.data.len() implies #[trigger] allocated(s2.data, q) == (allocated(old.data, q)
            || start + i + 1 <= q < start + count) by {
            assert(allocated(s.data, q) == (allocated(old.data, q) || start + i <= q < start + count));
            if q / 8 == pn / 8 {
                assert(0 <= q % 8 < 8);
                assert(s2.data[q / 8] == byte & !(128u8 >> k));
                assert(s.data[q / 8] == byte);
                if q == pn {
                    assert(!allocated(old.data, pn));
                    assert(!page_bit(byte & !(128u8 >> k), k));
                } else {
                    assert((q % 8) as u8 != k);
                    assert(page_bit(byte & !(128u8 >> k), (q % 8) as u8) == page_bit(byte, (q % 8) as u8));
                    assert(allocated(s2.data, q) == allocated(s.data, q));
                }
            } else {
                assert(s2.data[q / 8] == s.data[q / 8]);
                assert(allocated(s2.data, q) == allocated(s.data, q));
            }
        }
        lemma_free_run(old, s2, start, count, i + 1, address);
    }
}

/// Freeing the pages just allocated from a single map whose first page is
/// aligned marks every page as it was before the allocation, and the count
/// of allocated pages is back to what it was.
pub proof fn lemma_free_undoes_alloc(old: Seq<MapSegment>, mid: Seq<MapSegment>, count: usize, addr: usize)
    requires
        old.len() == 1,
        segment_wf(old[0]),
        old[0].ptr % PAGE_SIZE == 0,
        count > 0,
        alloc_outcome(old, mid, count, Ok(addr)),
    ensures
        chain_free_range(mid, addr, 0, count as int).1 == Ok::<(), KernelPageAllocationError>(()),
        chain_free_range(mid, addr, 0, count as int).0.len() == 1,
        forall|pn: int|
            0 <= pn < 8 * old[0].data.len() ==> #[trigger] allocated(chain_free_range(mid, addr, 0, count as int).0[0].data, pn)
                == allocated(old[0].data, pn),
        chain_allocated(chain_free_range(mid, addr, 0, count as int).0) == chain_allocated(old),
{
    let s0 = old[0];
    let found = scan(s0.data, s0.number as int, count as int, 0, 0, 0);
    assert(found is Some) by {
        if found is None {
            assert(alloc_outcome(old.drop_first(), mid.drop_first(), count, Ok(addr)));
        }
    }
    let start = found->Some_0;
    lemma_scan_found(s0.data, s0.number as int, count as int, 0, 0, 0);
    assert(pages_marked(s0, mid[0], start, count as int));
    assert(mid.len() == 1);
    assert(mid =~= seq![mid[0]]);
    assert forall|pn: int| 0 <= pn < 8 * s0.data.len() implies #[trigger] allocated(mid[0].data, pn) == (allocated(s0.data, pn)
        || start + 0 <= pn < start + count) by {}
    lemma_free_run(s0, mid[0], start, count as int, 0, addr);
    let segs = chain_free_range(mid, addr, 0, count as int).0;
    assert(s0.number <= 8 * s0.data.len());
    lemma_count_allocated_same(segs[0].data, s0.data, s0.number as int);
    assert(segs.drop_first() =~= Seq::<MapSegment>::empty());
    assert(old.drop_first() =~= Seq::<MapSegment>::empty());
}

impl PageMap {
    /// What this map holds.
    pub closed spec fn segment(&self) -> MapSegment {
        MapSegment { ptr: self.ptr, number: self.number, data: self.data@ }
    }

    /// The maps of the chain from this one on.
    pub closed spec fn segments(&self) -> Seq<MapSegment>
        decreases self,
    {
        match &self.next_page {
            Some(next) => seq![self.segment()] + next.segments(),
            None => seq![self.segment()],
        }
    }

    /// Every map of the chain is well formed.
    pub closed spec fn wf(&self) -> bool
        decreases self,
    {
        &&& segment_wf(self.segment())
        &&& match &self.next_page {
            Some(next) => next.wf(),
            None => true,
        }
    }

    /// Check if the given page is allocated, returns None if the page doesn't
    /// exist
    pub fn check_allocation(&self, page_number: usize) -> (r: Option<bool>)
        requires
            segment_wf(self.segment()),
        ensures
            r == if page_number < self.segment().number {
                Some(allocated(self.segment().data, page_number as int))
            } else {
                None::<bool>
            },
    {
        if page_number < self.number {
            proof {
                lemma_page_bits(self.data@[(page_number / 8) as int], (page_number % 8) as u8);
            }
            Some((self.data[page_number / 8] << (page_number % 8) as u8) & 128 != 0)
        } else {
            None
        }
    }

    /// Get the address for a given page
    pub fn page_to_address(&self, page_number: usize) -> (r: Option<usize>)
        requires
            segment_wf(self.segment()),
        ensures
            r == if page_number < self.segment().number {
                Some((self.segment().ptr + page_number * PAGE_SIZE) as usize)
            } else {
                None::<usize>
            },
    {
        if page_number < self.number {
            proof {
                assert(page_number * PAGE_SIZE <= self.number * PAGE_SIZE) by (nonlinear_arith)
                    requires
                        page_number < self.number,
                ;
            }
            Some(self.ptr + page_number * PAGE_SIZE)
        } else {
            None
        }
    }

    /// Get the page number for a given address
    pub fn address_to_page(&self, address: usize) -> (r: Option<usize>)
        ensures
            r == if address % PAGE_SIZE != 0 || address < self.segment().ptr || (address
                - self.segment().ptr) / (PAGE_SIZE as int) >= self.segment().number {
                None::<usize>
            } else {
                Some(((address - self.segment().ptr) / (PAGE_SIZE as int)) as usize)
            },
    {
        assert(address & 4095usize == address % 4096usize) by (bit_vector);
        if address & (PAGE_SIZE - 1) != 0 {
            return None;
        }
        if address < self.ptr {
            return None;
        }
        let addr = address - self.ptr;
        let num = addr / PAGE_SIZE;

        if num < self.number {
            Some(num)
        } else {
            None
        }
    }

    /// Check if an address is in this map
    pub fn address_in_map(&self, address: usize) -> (r: bool)
        ensures
            r == in_segment(self.segment(), address),
    {
        if address < self.ptr {
            false
        } else if (address - self.ptr) / PAGE_SIZE >= self.number {
            false
        } else {
            true
        }
    }
}

impl PageMap {
    /// A well formed chain has well formed maps.
    proof fn lemma_wf_segments(&self)
        requires
            self.wf(),
        ensures
            self.segments().len() >= 1,
            self.segments()[0] == self.segment(),
            forall|k: int| 0 <= k < self.segments().len() ==> #[trigger] segment_wf(self.segments()[k]),
        decreases self,
    {
        match &self.next_page {
            Some(next) => {
                next.lemma_wf_segments();
                assert forall|k: int| 0 <= k < self.segments().len() implies #[trigger] segment_wf(
                    self.segments()[k],
                ) by {
                    if k > 0 {
                        assert(self.segments()[k] == next.segments()[k - 1]);
                    }
                }
            },
            None => {},
        }
    }

    /// Free a page
    pub fn free_page(&mut self, addr: usize) -> (r: Result<(), KernelPageAllocationError>)
        requires
            old(self).wf(),
        ensures
            final(self).wf(),
            (final(self).segments(), r) == chain_free(old(self).segments(), addr),
        decreases *old(self),
    {
        let ghost old_segs = self.segments();
        if !self.address_in_map(addr) {
            // If the address is not in this map, skip to the next page
            match &mut self.next_page {
                Some(next) => {
                    let r = next.free_page(addr);
                    proof {
                        assert(old_segs.drop_first() =~= old(self).next_page->0.segments());
                        assert(self.segments() =~= seq![self.segment()] + next.segments());
                    }
                    r
                },
                None => {
                    proof {
                        reveal_with_fuel(chain_free, 2);
                        assert(old_segs.drop_first() =~= Seq::<MapSegment>::empty());
                        assert(self.segments() =~= old_segs);
                        assert(old_segs =~= seq![old_segs[0]] + old_segs.drop_first());
                    }
                    Err(KernelPageAllocationError::NotInTable(addr))
                },
            }
        } else {
            // Get the page number
            match self.address_to_page(addr) {
                Some(page_number) => {
                    // Ensure the page is allocated
                    match self.check_allocation(page_number) {
                        Some(true) => {
                            // Set the proper bit to 0
                            let byte = self.data[page_number / 8] & !(128u8 >> (page_number
                                % 8) as u8);
                            self.data.set(page_number / 8, byte);
                            proof {
                                let first = segment_free(old_segs[0], addr);
                                assert(self.segment().data =~= first.0.data);
                                assert(self.segments() =~= seq![first.0] + old_segs.drop_first());
                            }
                            Ok(())
                        },
                        _ => {
                            proof {
                                assert(self.segments() =~= old_segs);
                            }
                            Err(KernelPageAllocationError::NotAllocated(addr))
                        },
                    }
                },
                None => {
                    proof {
                        assert(self.segments() =~= old_segs);
                    }
                    Err(KernelPageAllocationError::NotAligned(addr))
                },
            }
        }
    }
}

/// The maps that initialization lays out for `remaining` pages from the
/// address `current`: a map takes one page and manages up to
/// `PAGE_MAP_ENTRIES` of the pages after it; the next map is placed that
/// many bytes further on.
pub open spec fn init_segments(current: usize, remaining: usize) -> Seq<MapSegment>
    decreases remaining,
{
    if remaining == 0 {
        Seq::empty()
    } else {
        let current2 = current + PAGE_SIZE;
        let rem2 = remaining - 1;
        let this = if rem2 < PAGE_MAP_ENTRIES {
            rem2
        } else {
            PAGE_MAP_ENTRIES as int
        };
        let seg = MapSegment {
            ptr: current2 as usize,
            number: this as usize,
            data: Seq::new(PAGE_MAP_EXCESS as nat, |i: int| 0u8),
        };
        if rem2 - this == 0 {
            seq![seg]
        } else {
            seq![seg] + init_segments((current2 + this) as usize, (rem2 - this) as usize)
        }
    }
}

impl PageMap {
    /// Initialize the kernel page map over `num_pages` pages from `ptr`
    pub fn initialize(ptr: usize, num_pages: usize) -> (r: PageMap)
        requires
            ptr % PAGE_SIZE == 0,
            num_pages > 0,
            ptr + num_pages * PAGE_SIZE <= usize::MAX,
        ensures
            r.wf(),
            r.segments() == init_segments(ptr, num_pages),
    {
        Self::initialize_from(ptr, num_pages)
    }

    /// Lay out the maps for `num_pages` pages from `ptr`, the first map at `ptr`
    fn initialize_from(ptr: usize, num_pages: usize) -> (r: PageMap)
        requires
            num_pages > 0,
            ptr + num_pages * PAGE_SIZE <= usize::MAX,
        ensures
            r.wf(),
            r.segments() == init_segments(ptr, num_pages),
        decreases num_pages,
    {
        // Step past the map
        let current_ptr = ptr + PAGE_SIZE;
        let remaining = num_pages - 1;

        // Get the number of pages to give to this page map
        let this_number = if remaining < PAGE_MAP_ENTRIES {
            remaining
        } else {
            PAGE_MAP_ENTRIES
        };

        // Set the map to have all pages free
        let mut data: Vec<u8> = Vec::new();
        let mut k: usize = 0;
        while k < PAGE_MAP_EXCESS
            invariant
                k <= PAGE_MAP_EXCESS,
                data@ == Seq::new(k as nat, |i: int| 0u8),
            decreases PAGE_MAP_EXCESS - k,
        {
            data.push(0);
            k = k + 1;
            assert(data@ =~= Seq::new(k as nat, |i: int| 0u8));
        }

        // Step past the data
        let next_ptr = current_ptr + this_number;
        let next_remaining = remaining - this_number;

        // Set the next map to nothing if no pages are remaining, otherwise
        // initialize the next map
        let next_page = if next_remaining == 0 {
            None
        } else {
            Some(Box::new(PageMap::initialize_from(next_ptr, next_remaining)))
        };
        let map = PageMap { ptr: current_ptr, next_page, number: this_number, data };
        proof {
            assert(map.segment() == init_segments(ptr, num_pages)[0]);
            if next_remaining != 0 {
                assert(map.segments() =~= init_segments(ptr, num_pages));
            } else {
                assert(map.segments() =~= init_segments(ptr, num_pages));
            }
        }
        map
    }

    /// Free consecutive pages
    pub fn free_pages(&mut self, addr: usize, count: usize) -> (r: Result<(), KernelPageAllocationError>)
        requires
            old(self).wf(),
            addr + count * PAGE_SIZE <= usize::MAX,
        ensures
            final(self).wf(),
            (final(self).segments(), r) == chain_free_range(old(self).segments(), addr, 0, count as int),
    {
        let mut i: usize = 0;
        // Loop over all involved pages
        while i < count
            invariant
                self.wf(),
                i <= count,
                addr + count * PAGE_SIZE <= usize::MAX,
                chain_free_range(self.segments(), addr, i as int, count as int) == chain_free_range(
                    old(self).segments(),
                    addr,
                    0,
                    count as int,
                ),
            decreases count - i,
        {
            proof {
                assert(i * PAGE_SIZE <= count * PAGE_SIZE) by (nonlinear_arith)
                    requires
                        i <= count,
                ;
            }
            // Attempt to free the page
            match self.free_page(addr + i * PAGE_SIZE) {
                Ok(()) => {},
                Err(e) => {
                    return Err(e);
                },
            }
            i = i + 1;
        }

        Ok(())
    }

    /// Total pages linked
    pub fn total_pages(&self) -> (r: usize)
        requires
            self.wf(),
            chain_pages(self.segments()) <= usize::MAX,
        ensures
            r == chain_pages(self.segments()),
        decreases self,
    {
        proof {
            reveal_with_fuel(chain_pages, 2);
        }
        match &self.next_page {
            Some(next) => {
                proof {
                    assert(self.segments().drop_first() =~= next.segments());
                }
                next.total_pages() + self.number
            },
            None => {
                proof {
                    assert(self.segments().drop_first() =~= Seq::<MapSegment>::empty());
                }
                self.number
            },
        }
    }

    /// Total allocated pages
    pub fn total_alloc_pages(&self) -> (r: usize)
        requires
            self.wf(),
            chain_pages(self.segments()) <= usize::MAX,
        ensures
            r == chain_allocated(self.segments()),
            r <= chain_pages(self.segments()),
        decreases self,
    {
        let mut total: usize = 0;
        let mut i: usize = 0;
        while i < self.number
            invariant
                self.wf(),
                i <= self.number,
                total == count_allocated(self.data@, i as int),
                total <= i,
            decreases self.number - i,
        {
            match self.check_allocation(i) {
                Some(true) => {
                    total = total + 1;
                },
                _ => {},
            }
            i = i + 1;
        }
        proof {
            reveal_with_fuel(chain_pages, 2);
            reveal_with_fuel(chain_allocated, 2);
        }
        match &self.next_page {
            Some(next) => {
                proof {
                    assert(self.segments().drop_first() =~= next.segments());
                }
                next.total_alloc_pages() + total
            },
            None => {
                proof {
                    assert(self.segments().drop_first() =~= Seq::<MapSegment>::empty());
                }
                total
            },
        }
    }
}

impl PageMap {
    /// Allocate consecutive pages
    pub fn alloc_pages(&mut self, count: usize) -> (r: Result<usize, KernelPageAllocationError>)
        requires
            old(self).wf(),
        ensures
            final(self).wf(),
            alloc_outcome(old(self).segments(), final(self).segments(), count, r),
        decreases *old(self),
    {
        let ghost old_segs = self.segments();
        proof {
            self.lemma_wf_segments();
        }
        let ghost data0 = old_segs[0].data;
        let ghost nb = map_bytes(old_segs[0].number as int);
        assert(data0 == self.data@ && old_segs[0].number == self.number);
        let ghost target = scan(data0, old_segs[0].number as int, count as int, 0, 0, 0);
        assert(target == scan(old_segs[0].data, old_segs[0].number as int, count as int, 0, 0, 0));
        let mut found: usize = 0;
        let mut start_page: usize = 0;
        let mut i: usize = 0;
        let bytes = (self.number + 7) / 8;
        while i < bytes
            invariant
                self.wf(),
                self.data@ == data0,
                self.segments() == old_segs,
                *self == *old(self),
                old_segs[0] == self.segment(),
                old_segs.len() >= 1,
                target == scan(old_segs[0].data, old_segs[0].number as int, count as int, 0, 0, 0),
                bytes == nb,
                nb <= data0.len(),
                nb == map_bytes(self.number as int),
                i <= bytes,
                found == 0 || start_page + found <= self.number,
                found <= 8 * i,
                found == 0 || start_page + found == 8 * i,
                start_page <= 8 * i,
                start_page <= self.number,
                scan(data0, self.number as int, count as int, 8 * i, found as int, start_page as int) == target,
            decreases bytes - i,
        {
            // Skip if the given block of pages is fully allocated
            if self.data[i] == 0xFF {
                found = 0;
                i = i + 1;
                continue ;
            }
            // Loop over each page and check if it was allocated

            let mut j: usize = 0;
            while j < 8
                invariant
                    self.wf(),
                    self.data@ == data0,
                    self.segments() == old_segs,
                    *self == *old(self),
                    old_segs[0] == self.segment(),
                    old_segs.len() >= 1,
                    target == scan(old_segs[0].data, old_segs[0].number as int, count as int, 0, 0, 0),
                    bytes == nb,
                    nb <= data0.len(),
                    nb == map_bytes(self.number as int),
                    i < bytes,
                    found == 0 || start_page + found <= self.number,
                    data0[i as int] != 0xffu8,
                    j <= 8,
                    found <= 8 * i + j,
                    found == 0 || start_page + found == 8 * i + j,
                    start_page <= 8 * i + j,
                    start_page <= self.number,
                    j > 0 ==> scan(data0, self.number as int, count as int, 8 * i + j, found as int, start_page as int)
                        == target,
                    j == 0 ==> scan(data0, self.number as int, count as int, 8 * i, found as int, start_page as int)
                        == target,
                decreases 8 - j,
            {
                let p = i * 8 + j;
                let ghost found0 = found as int;
                let ghost start0 = start_page as int;
                proof {
                    assert(p / 8 == i);
                    assert(p % 8 == j);
                    assert(p < 8 * map_bytes(self.number as int));
                    assert(data0[(p / 8) as int] != 0xffu8);
                    assert(scan(data0, self.number as int, count as int, p as int, found0, start0) == target);
                }
                match self.check_allocation(p) {
                    Some(false) => {
                        assert(p < self.number);
                        if found == 0 {
                            start_page = p;
                            found = found + 1;
                        } else {
                            found = found + 1;
                        }
                    },
                    _ => {
                        found = 0;
                    },
                }

                proof {
                    let free = p < self.number && !allocated(data0, p as int);
                    assert(found == if free { found0 + 1 } else { 0 });
                    assert(start_page == if free && found0 == 0 { p as int } else { start0 });
                    assert(found > 0 ==> free && start_page + found == p + 1);
                }
                if found == count {
                    let ghost marked_from = start_page as int;
                    proof {
                        assert(target == Some(marked_from));
                    }
                    let mut k = start_page;
                    while k < start_page + count
                        invariant
                            segment_wf(self.segment()),
                            self.segment().ptr == old_segs[0].ptr,
                            self.segment().number == old_segs[0].number,
                            old_segs[0].data == data0,
                            old_segs.len() >= 1,
                            target == Some(marked_from),
                            marked_from == start_page,
                            target == scan(old_segs[0].data, old_segs[0].number as int, count as int, 0, 0, 0),
                            self.next_page == old(self).next_page,
                            start_page + count <= self.number,
                            data0.len() == PAGE_MAP_EXCESS,
                            start_page <= k <= start_page + count,
                            forall|pn: int|
                                0 <= pn < 8 * data0.len() ==> #[trigger] allocated(self.data@, pn)
                                    == (allocated(data0, pn) || start_page <= pn < k),
                        decreases start_page + count - k,
                    {
                        let ghost before = self.data@;
                        let b = self.data[k / 8] | (128u8 >> (k % 8) as u8);
                        self.data.set(k / 8, b);
                        proof {
                            assert(self.data@ == before.update((k / 8) as int, b));
                            lemma_page_bits(before[(k / 8) as int], (k % 8) as u8);
                            assert forall|pn: int| 0 <= pn < 8 * data0.len() implies #[trigger] allocated(
                                self.data@,
                                pn,
                            ) == (allocated(data0, pn) || start_page <= pn < k + 1) by {
                                if pn / 8 == k / 8 {
                                    assert(allocated(before, pn) == (allocated(data0, pn) || start_page <= pn < k));
                                    if pn != k {
                                        assert((pn % 8) as u8 != (k % 8) as u8);
                                    }
                                } else {
                                    assert(self.data@[pn / 8] == before[pn / 8]);
                                    assert(allocated(before, pn) == (allocated(data0, pn) || start_page <= pn < k));
                                }
                            }
                        }
                        k = k + 1;
                    }
                    proof {
                        assert(old_segs[0].data == data0);
                        assert(pages_marked(old_segs[0], self.segment(), marked_from, count as int));
                        assert(self.segments().drop_first() =~= old_segs.drop_first()) by {
                            match &self.next_page {
                                Some(next) => {
                                    assert(self.segments() =~= seq![self.segment()] + next.segments());
                                    assert(old_segs =~= seq![old_segs[0]] + next.segments());
                                },
                                None => {},
                            }
                        }
                        assert(start_page * PAGE_SIZE <= self.number * PAGE_SIZE) by (nonlinear_arith)
                            requires
                                start_page <= self.number,
                        ;
                        assert(self.segments()[0] == self.segment());
                        assert(self.segments().len() == old_segs.len());
                        assert(old_segs[0].ptr == self.ptr);
                        assert(scan(old_segs[0].data, old_segs[0].number as int, count as int, 0, 0, 0) == Some(marked_from));
                        assert(pages_marked(old_segs[0], self.segments()[0], marked_from, count as int));
                        assert(self.ptr + start_page * PAGE_SIZE == old_segs[0].ptr + marked_from * PAGE_SIZE);
                    }
                    return Ok(self.ptr + start_page * PAGE_SIZE);
                }
                j = j + 1;
            }
            i = i + 1;
        }
        proof {
            assert(target == None::<int>);
        }

        // If the pages were not found in this map, go on to the next map
        match &mut self.next_page {
            Some(next) => {
                let r = next.alloc_pages(count);
                proof {
                    assert(old_segs.drop_first() =~= old(self).next_page->0.segments());
                    assert(self.segments() =~= seq![self.segment()] + next.segments());
                    assert(self.segments().drop_first() =~= next.segments());
                }
                r
            },
            None => {
                proof {
                    reveal_with_fuel(alloc_outcome, 2);
                    assert(old_segs.drop_first() =~= Seq::<MapSegment>::empty());
                    assert(self.segments() =~= old_segs);
                }
                Err(KernelPageAllocationError::NotEnoughPages(count))
            },
        }
    }
}

} // verus!
