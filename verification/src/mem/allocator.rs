//! The kernel heap allocator: a list of chunks over the heap, each free or
//! allocated, kept in a fixed set of chunk slots.
use vstd::prelude::*;

verus! {

/// Allocation Chunk Metadata: the slot of the next chunk, where the chunk
/// starts, its size and whether it is free.
#[derive(Clone, Copy, Debug)]
pub struct AllocationChunk {
    pub next: Option<usize>,
    pub ptr: usize,
    pub size: usize,
    pub free: bool,
}

/// The padding that moves `ptr` up to a multiple of `align` (a power of
/// two).
pub open spec fn chunk_padding(ptr: usize, align: usize) -> int {
    ((align - (ptr & ((align - 1) as usize))) % (align as int)) as int
}

/// For an alignment that is a power of two, the padding is less than the
/// alignment and moves the address to a multiple of it.
pub proof fn lemma_chunk_padding_aligns(ptr: usize, align: usize, n: nat)
    requires
        n < 64,
        align == vstd::arithmetic::power2::pow2(n),
    ensures
        0 <= chunk_padding(ptr, align) < align,
        (ptr + chunk_padding(ptr, align)) % (align as int) == 0,
{
    vstd::arithmetic::power2::lemma_pow2_pos(n);
    let m = (align - 1) as usize;
    assert((ptr & m) as u64 == (ptr as u64) & (m as u64)) by (bit_vector);
    vstd::bits::lemma_u64_low_bits_mask_is_mod(ptr as u64, n);
    assert(m as u64 == vstd::bits::low_bits_mask(n) as u64);
    assert((ptr as u64) % (align as u64) == ptr % align);
    assert(ptr & m == ptr % align);
    let a = align as int;
    let o = ptr as int % a;
    assert(0 <= o < a);
    let pad = (a - o) % a;
    assert(chunk_padding(ptr, align) == pad);
    if o == 0 {
        assert(pad == 0) by (nonlinear_arith)
            requires
                a > 0,
                o == 0,
                pad == (a - o) % a,
        ;
    } else {
        assert(pad == a - o) by (nonlinear_arith)
            requires
                0 < o < a,
                pad == (a - o) % a,
        ;
        assert((ptr + pad) % a == 0) by (nonlinear_arith)
            requires
                a > 0,
                o == ptr as int % a,
                pad == a - o,
        ;
    }
}

/// The chunk `c` is free and so is the chunk after it, in `slots`.
pub open spec fn combines(c: AllocationChunk, slots: Seq<Option<AllocationChunk>>) -> bool {
    &&& c.free
    &&& c.next is Some
    &&& slots[c.next->Some_0 as int] is Some
    &&& slots[c.next->Some_0 as int]->Some_0.free
}

impl AllocationChunk {
    /// Construct a new allocation chunk for a given size at the given pointer
    pub fn new(ptr: usize, size: usize) -> (r: Self)
        ensures
            r == (AllocationChunk { next: None, ptr, size, free: true }),
    {
        Self { next: None, ptr, size, free: true }
    }

    /// Split the current chunk in two: it keeps `size` bytes and is
    /// allocated, and what is left, if anything, becomes a free chunk in
    /// `other` (slot `other_slot`), after it.
    pub fn split(&mut self, size: usize, other: &mut Option<AllocationChunk>, other_slot: usize)
        requires
            size <= old(self).size,
            size < old(self).size ==> old(self).ptr + old(self).size <= usize::MAX,
        ensures
            if size < old(self).size {
                &&& *final(other) == Some(
                    AllocationChunk {
                        next: old(self).next,
                        free: true,
                        size: (old(self).size - size) as usize,
                        ptr: (old(self).ptr + size) as usize,
                    },
                )
                &&& *final(self) == (AllocationChunk {
                    next: Some(other_slot),
                    ptr: old(self).ptr,
                    size,
                    free: false,
                })
            } else {
                &&& *final(other) == *old(other)
                &&& *final(self) == (AllocationChunk { free: false, ..*old(self) })
            },
    {
        if size < self.size {
            let other_value = Self { next: self.next, free: true, size: self.size - size, ptr: self.ptr + size };
            *other = Some(other_value);
            self.size = size;
            self.free = false;
            self.next = Some(other_slot);
        } else {
            self.free = false;
        }
    }

    /// Check if the current chunk contains a pointer
    pub fn contains_ptr(&self, ptr: usize) -> (r: bool)
        requires
            self.ptr <= ptr ==> self.ptr + self.size <= usize::MAX,
        ensures
            r == (self.ptr <= ptr && ptr < self.ptr + self.size),
    {
        self.ptr <= ptr && ptr < self.ptr + self.size
    }

    /// Attempt to combine this chunk with the next one, held in `slots`:
    /// when both are free, this chunk grows by the next one, takes its
    /// `next`, and the next one's slot is emptied.
    pub fn attempt_combine(&mut self, slots: &mut Vec<Option<AllocationChunk>>)
        requires
            old(self).next matches Some(i) ==> i < old(slots)@.len(),
            combines(*old(self), old(slots)@) ==> old(self).size + old(slots)@[old(self).next->Some_0 as int]->Some_0.size
                <= usize::MAX,
        ensures
            if combines(*old(self), old(slots)@) {
                let i = old(self).next->Some_0 as int;
                let n = old(slots)@[i]->Some_0;
                &&& *final(self) == (AllocationChunk {
                    size: (old(self).size + n.size) as usize,
                    next: n.next,
                    ..*old(self)
                })
                &&& final(slots)@ == old(slots)@.update(i, None)
            } else {
                &&& *final(self) == *old(self)
                &&& final(slots)@ == old(slots)@
            },
    {
        if !self.free {
            return;
        }
        if let Some(i) = self.next {
            if let Some(next) = slots[i] {
                if next.free {
                    self.size = self.size + next.size;
                    self.next = next.next;
                    slots.set(i, None);
                }
            }
        }
    }

    /// Check if this chunk can hold `size` bytes aligned to `align` (a
    /// power of two), returning the size needed with the padding if so.
    pub fn check_layout(&self, size: usize, align: usize) -> (r: Option<usize>)
        requires
            align > 0,
            size + align <= usize::MAX,
        ensures
            size + chunk_padding(self.ptr, align) <= self.size ==> r == Some((size + chunk_padding(self.ptr, align)) as usize),
            size + chunk_padding(self.ptr, align) > self.size ==> r is None,
    {
        let ptr = self.ptr;
        let mask = align - 1;
        let overlap = ptr & mask;
        proof {
            lemma_masked_at_most(ptr, mask);
        }
        let extra = (align - overlap) % align;
        let total_size = size + extra;
        if total_size <= self.size {
            Some(total_size)
        } else {
            None
        }
    }
}

/// Chunk `k` of the list of an allocator with root `root`, slots `slots`
/// and chain `chain`: the root, then the chunks in the slots of the chain.
pub open spec fn list_node(root: Option<AllocationChunk>, slots: Seq<Option<AllocationChunk>>, chain: Seq<int>, k: int) -> AllocationChunk {
    if k == 0 {
        root->Some_0
    } else {
        slots[chain[k - 1]]->Some_0
    }
}

/// The chunk list is well formed: it starts at the root, goes through
/// distinct filled slots, each chunk's `next` is the slot of the following
/// one, every chunk lies in the address space and each chunk starts where
/// the one before it ends.
#[verifier::opaque]
pub open spec fn allocator_wf(root: Option<AllocationChunk>, slots: Seq<Option<AllocationChunk>>, chain: Seq<int>) -> bool {
    &&& root is Some
    &&& slots.len() <= usize::MAX
    &&& forall|k: int| 0 <= k < chain.len() ==> 0 <= #[trigger] chain[k] < slots.len() && slots[chain[k]] is Some
    &&& forall|j: int, k: int| 0 <= j < k < chain.len() ==> chain[j] != chain[k]
    &&& forall|k: int| 0 <= k < chain.len() ==> #[trigger] list_node(root, slots, chain, k).next == Some(chain[k] as usize)
    &&& list_node(root, slots, chain, chain.len() as int).next is None
    &&& forall|k: int|
        0 <= k <= chain.len() ==> #[trigger] list_node(root, slots, chain, k).ptr + list_node(root, slots, chain, k).size
            <= usize::MAX
    &&& forall|k: int|
        0 <= k < chain.len() ==> #[trigger] list_node(root, slots, chain, k).ptr + list_node(root, slots, chain, k).size
            == list_node(root, slots, chain, k + 1).ptr
}

/// Chunk `k` of the list is the first free one that holds `size` bytes
/// aligned to `align`.
pub open spec fn first_chunk_fit(
    root: Option<AllocationChunk>,
    slots: Seq<Option<AllocationChunk>>,
    chain: Seq<int>,
    size: usize,
    align: usize,
    k: int,
) -> bool {
    &&& 0 <= k <= chain.len()
    &&& chunk_fits(list_node(root, slots, chain, k), size, align)
    &&& forall|j: int| 0 <= j < k ==> !#[trigger] chunk_fits(list_node(root, slots, chain, j), size, align)
}

/// The chunk is free and holds `size` bytes aligned to `align`.
pub open spec fn chunk_fits(c: AllocationChunk, size: usize, align: usize) -> bool {
    c.free && size + chunk_padding(c.ptr, align) <= c.size
}

/// Slot `i` is the first empty slot.
pub open spec fn first_empty_slot(slots: Seq<Option<AllocationChunk>>, i: int) -> bool {
    &&& 0 <= i < slots.len()
    &&& slots[i] is None
    &&& forall|j: int| 0 <= j < i ==> #[trigger] slots[j] is Some
}

/// Allocator object, wraps the chunk slots along with a root chunk
pub struct Allocator {
    chunks: Vec<Option<AllocationChunk>>,
    root: Option<AllocationChunk>,
    chain: Ghost<Seq<int>>,
}

/// Structure to hold the kernel heap allocator
pub struct GlobalAllocator {
    pub allocator: Option<Allocator>,
}

impl GlobalAllocator {
    /// Construct a new, empty global allocator
    pub fn new() -> (r: Self)
        ensures
            r.allocator is None,
    {
        Self { allocator: None }
    }
}

impl Allocator {
    /// The root chunk.
    pub closed spec fn spec_root(&self) -> Option<AllocationChunk> {
        self.root
    }

    /// The chunk slots.
    pub closed spec fn slots(&self) -> Seq<Option<AllocationChunk>> {
        self.chunks@
    }

    /// The slots of the chunks after the root, in list order.
    pub closed spec fn chain(&self) -> Seq<int> {
        self.chain@
    }

    /// The chunk list is well formed.
    pub closed spec fn wf(&self) -> bool {
        allocator_wf(self.root, self.chunks@, self.chain@)
    }

    /// The chunks of the list, in order: where each starts, its size and
    /// whether it is free.
    pub closed spec fn chunks(&self) -> Seq<(int, int, bool)> {
        chunks_of(self.root, self.chunks@, self.chain@)
    }

    /// Construct a new allocator over `size` bytes at `pointer`, with the
    /// given chunk slots (all empty): one free chunk, the root.
    pub fn new(chunks: Vec<Option<AllocationChunk>>, pointer: usize, size: usize) -> (r: Self)
        requires
            pointer + size <= usize::MAX,
        ensures
            r.wf(),
            r.spec_root() == Some(AllocationChunk { next: None, ptr: pointer, size, free: true }),
            r.slots() == chunks@,
            r.chain().len() == 0,
    {
        let ghost chain = Seq::<int>::empty();
        assert(chunks@.len() == chunks.len());
        let r = Self { chunks, root: Some(AllocationChunk::new(pointer, size)), chain: Ghost(chain) };
        proof {
            reveal(allocator_wf);
            assert(list_node(r.root, r.chunks@, chain, 0) == r.root->Some_0);
        }
        r
    }

    /// Search for a free allocator chunk
    pub fn find_free_chunk(&self) -> (r: Option<usize>)
        ensures
            match r {
                Some(i) => first_empty_slot(self.slots(), i as int),
                None => forall|j: int| 0 <= j < self.slots().len() ==> #[trigger] self.slots()[j] is Some,
            },
    {
        let mut i: usize = 0;
        while i < self.chunks.len()
            invariant
                i <= self.chunks@.len(),
                forall|j: int| 0 <= j < i ==> #[trigger] self.chunks@[j] is Some,
            decreases self.chunks@.len() - i,
        {
            if self.chunks[i].is_none() {
                return Some(i);
            }
            i = i + 1;
        }
        None
    }
}

/// The root and slots with chunk `k` of the list replaced by `c`.
pub open spec fn set_node(
    root: Option<AllocationChunk>,
    slots: Seq<Option<AllocationChunk>>,
    chain: Seq<int>,
    k: int,
    c: AllocationChunk,
) -> (Option<AllocationChunk>, Seq<Option<AllocationChunk>>) {
    if k == 0 {
        (Some(c), slots)
    } else {
        (root, slots.update(chain[k - 1], Some(c)))
    }
}

/// Marking a chunk allocated or free keeps the list well formed, and
/// changes only that chunk in the list of chunks.
proof fn lemma_take_chunk_wf(root: Option<AllocationChunk>, slots: Seq<Option<AllocationChunk>>, chain: Seq<int>, k: int, c: AllocationChunk)
    requires
        allocator_wf(root, slots, chain),
        0 <= k <= chain.len(),
        c.next == list_node(root, slots, chain, k).next,
        c.ptr == list_node(root, slots, chain, k).ptr,
        c.size == list_node(root, slots, chain, k).size,
    ensures
        allocator_wf(set_node(root, slots, chain, k, c).0, set_node(root, slots, chain, k, c).1, chain),
        chunks_of(set_node(root, slots, chain, k, c).0, set_node(root, slots, chain, k, c).1, chain)
            == chunks_of(root, slots, chain).update(k, (c.ptr as int, c.size as int, c.free)),
{
    reveal(allocator_wf);
    let (r2, s2) = set_node(root, slots, chain, k, c);
    assert forall|j: int| 0 <= j <= chain.len() implies #[trigger] list_node(r2, s2, chain, j) == if j == k {
        c
    } else {
        list_node(root, slots, chain, j)
    } by {
        if j > 0 && k > 0 && j != k {
            assert(chain[j - 1] != chain[k - 1]);
        }
    }
    assert forall|m: int| 0 <= m < chain.len() implies 0 <= #[trigger] chain[m] < s2.len() && s2[chain[m]] is Some by {}
    assert(chunks_of(r2, s2, chain) =~= chunks_of(root, slots, chain).update(k, (c.ptr as int, c.size as int, c.free)));
}

/// The chunks of the list after splitting chunk `k` into a head and a rest
/// kept in the empty slot `f`: the head and the rest stand in place of
/// chunk `k`, the others are kept.
proof fn lemma_split_nodes(
    root: Option<AllocationChunk>,
    slots: Seq<Option<AllocationChunk>>,
    chain: Seq<int>,
    k: int,
    f: int,
    head: AllocationChunk,
    rest: AllocationChunk,
)
    requires
        allocator_wf(root, slots, chain),
        0 <= k <= chain.len(),
        0 <= f < slots.len(),
        slots[f] is None,
    ensures
        ({
            let (r2, s1) = set_node(root, slots, chain, k, head);
            let s2 = s1.update(f, Some(rest));
            let c2 = chain.insert(k, f);
            &&& forall|m: int| 0 <= m < chain.len() ==> #[trigger] chain[m] != f
            &&& forall|m: int| 0 <= m < c2.len() ==> 0 <= #[trigger] c2[m] < s2.len() && s2[c2[m]] is Some
            &&& forall|a: int, b: int| 0 <= a < b < c2.len() ==> c2[a] != c2[b]
            &&& forall|j: int| 0 <= j <= c2.len() ==> #[trigger] list_node(r2, s2, c2, j) == if j < k {
                list_node(root, slots, chain, j)
            } else if j == k {
                head
            } else if j == k + 1 {
                rest
            } else {
                list_node(root, slots, chain, j - 1)
            }
            &&& forall|j: int| 0 <= j < c2.len() ==> #[trigger] c2[j] == if j < k {
                chain[j]
            } else if j == k {
                f
            } else {
                chain[j - 1]
            }
        }),
{
    reveal(allocator_wf);
    let (r2, s1) = set_node(root, slots, chain, k, head);
    let s2 = s1.update(f, Some(rest));
    let c2 = chain.insert(k, f);
    assert forall|m: int| 0 <= m < chain.len() implies #[trigger] chain[m] != f by {}
    assert forall|j: int| 0 <= j <= c2.len() implies #[trigger] list_node(r2, s2, c2, j) == if j < k {
        list_node(root, slots, chain, j)
    } else if j == k {
        head
    } else if j == k + 1 {
        rest
    } else {
        list_node(root, slots, chain, j - 1)
    } by {
        if j > 0 && j < k {
            assert(c2[j - 1] == chain[j - 1]);
            assert(chain[j - 1] != chain[k - 1]);
        } else if j == k && k > 0 {
            assert(c2[k - 1] == chain[k - 1]);
        } else if j == k + 1 {
            assert(c2[k] == f);
        } else if j > k + 1 {
            assert(c2[j - 1] == chain[j - 2]);
            if k > 0 {
                assert(chain[j - 2] != chain[k - 1]);
            }
        }
    }
    assert forall|m: int| 0 <= m < c2.len() implies 0 <= #[trigger] c2[m] < s2.len() && s2[c2[m]] is Some by {
        if m < k {
            assert(c2[m] == chain[m]);
        } else if m > k {
            assert(c2[m] == chain[m - 1]);
        }
    }
    assert forall|a: int, b: int| 0 <= a < b < c2.len() implies c2[a] != c2[b] by {
        if a == k {
            assert(c2[b] == chain[b - 1]);
        } else if b == k {
            assert(c2[a] == chain[a]);
        } else {
            let a0 = if a > k { a - 1 } else { a };
            let b0 = if b > k { b - 1 } else { b };
            assert(c2[a] == chain[a0] && c2[b] == chain[b0] && a0 < b0);
        }
    }
}

/// Splitting chunk `k` into a head and a rest kept in the empty slot `f`
/// keeps the list well formed, with `f` after chunk `k`.
#[verifier::spinoff_prover]
#[verifier::rlimit(30)]
proof fn lemma_split_chunk_wf(
    root: Option<AllocationChunk>,
    slots: Seq<Option<AllocationChunk>>,
    chain: Seq<int>,
    k: int,
    f: int,
    head: AllocationChunk,
    rest: AllocationChunk,
)
    requires
        allocator_wf(root, slots, chain),
        0 <= k <= chain.len(),
        0 <= f < slots.len(),
        slots[f] is None,
        head.next == Some(f as usize),
        head.ptr == list_node(root, slots, chain, k).ptr,
        head.size < list_node(root, slots, chain, k).size,
        rest.next == list_node(root, slots, chain, k).next,
        rest.ptr == list_node(root, slots, chain, k).ptr + head.size,
        rest.size == list_node(root, slots, chain, k).size - head.size,
    ensures
        ({
            let (r2, s2) = set_node(root, slots, chain, k, head);
            allocator_wf(r2, s2.update(f, Some(rest)), chain.insert(k, f))
        }),
        ({
            let (r2, s2) = set_node(root, slots, chain, k, head);
            let cs = chunks_of(root, slots, chain);
            chunks_of(r2, s2.update(f, Some(rest)), chain.insert(k, f)) == cs.take(k) + seq![
                (head.ptr as int, head.size as int, head.free),
                (rest.ptr as int, rest.size as int, rest.free),
            ] + cs.skip(k + 1)
        }),
{
    reveal(allocator_wf);
    let (r2, s1) = set_node(root, slots, chain, k, head);
    let s2 = s1.update(f, Some(rest));
    let c2 = chain.insert(k, f);
    lemma_split_nodes(root, slots, chain, k, f, head, rest);
    assert forall|j: int| 0 <= j < c2.len() implies #[trigger] list_node(r2, s2, c2, j).next == Some(c2[j] as usize) by {
        assert(list_node(r2, s2, c2, j) == list_node(r2, s2, c2, j));
        if j < k {
            assert(list_node(root, slots, chain, j).next == Some(chain[j] as usize));
        } else if j > k + 1 {
            assert(list_node(root, slots, chain, j - 1).next == Some(chain[j - 1] as usize));
        } else if j == k + 1 && k + 1 <= chain.len() {
            assert(c2[k + 1] == chain[k]);
        }
    }
    assert(list_node(r2, s2, c2, c2.len() as int) == list_node(r2, s2, c2, c2.len() as int));
    assert forall|j: int| 0 <= j <= c2.len() implies #[trigger] list_node(r2, s2, c2, j).ptr + list_node(r2, s2, c2, j).size
        <= usize::MAX by {
        if j > k + 1 {
            assert(list_node(root, slots, chain, j - 1).ptr + list_node(root, slots, chain, j - 1).size <= usize::MAX);
        } else if j == k + 1 || j == k {
            assert(list_node(root, slots, chain, k).ptr + list_node(root, slots, chain, k).size <= usize::MAX);
        }
    }
    assert forall|j: int| 0 <= j < c2.len() implies #[trigger] list_node(r2, s2, c2, j).ptr + list_node(r2, s2, c2, j).size
        == list_node(r2, s2, c2, j + 1).ptr by {
        assert(list_node(r2, s2, c2, j + 1) == list_node(r2, s2, c2, j + 1));
        if j < k {
            assert(list_node(root, slots, chain, j).ptr + list_node(root, slots, chain, j).size == list_node(root, slots, chain, j + 1).ptr);
        } else if j > k {
            assert(list_node(root, slots, chain, j - 1).ptr + list_node(root, slots, chain, j - 1).size == list_node(root, slots, chain, j).ptr);
        }
    }
    let cs = chunks_of(root, slots, chain);
    assert(chunks_of(r2, s2, c2) =~= cs.take(k) + seq![
        (head.ptr as int, head.size as int, head.free),
        (rest.ptr as int, rest.size as int, rest.free),
    ] + cs.skip(k + 1));
}

impl Allocator {
    /// Allocate `size` bytes aligned to `align` (a layout's size and
    /// alignment, a power of two): the first free chunk that holds them is
    /// split, its head allocated and the rest kept free in the first empty
    /// slot. Returns the aligned address.
    pub fn allocate_memory(&mut self, size: usize, align: usize) -> (r: Option<usize>)
        requires
            old(self).wf(),
            align > 0,
            size + align <= usize::MAX,
            exists|i: int| first_empty_slot(old(self).slots(), i),
            exists|k: int| first_chunk_fit(old(self).spec_root(), old(self).slots(), old(self).chain(), size, align, k),
        ensures
            final(self).wf(),
            ({
                let (root, slots, chain) = (old(self).spec_root(), old(self).slots(), old(self).chain());
                let k = choose|k: int| first_chunk_fit(root, slots, chain, size, align, k);
                let f = choose|i: int| first_empty_slot(slots, i);
                let c = list_node(root, slots, chain, k);
                let total = size + chunk_padding(c.ptr, align);
                &&& r == Some((c.ptr + chunk_padding(c.ptr, align)) as usize)
                &&& final(self).chunks() == taken(old(self).chunks(), k, total)
                &&& if total < c.size {
                    let head = AllocationChunk { next: Some(f as usize), ptr: c.ptr, size: total as usize, free: false };
                    let rest = AllocationChunk { next: c.next, free: true, size: (c.size - total) as usize, ptr: (c.ptr + total) as usize };
                    &&& final(self).spec_root() == set_node(root, slots, chain, k, head).0
                    &&& final(self).slots() == set_node(root, slots, chain, k, head).1.update(f, Some(rest))
                    &&& final(self).chain() == chain.insert(k, f)
                } else {
                    &&& final(self).spec_root() == set_node(root, slots, chain, k, AllocationChunk { free: false, ..c }).0
                    &&& final(self).slots() == set_node(root, slots, chain, k, AllocationChunk { free: false, ..c }).1
                    &&& final(self).chain() == chain
                }
            }),
    {
        proof {
            reveal(allocator_wf);
        }
        let ghost root0 = self.root;
        let ghost slots0 = self.chunks@;
        let ghost chain0 = self.chain@;
        let chunk_index = match self.find_free_chunk() {
            Some(i) => i,
            None => {
                proof {
                    let i = choose|i: int| first_empty_slot(slots0, i);
                    assert(slots0[i] is Some);
                }
                return None;
            },
        };
        proof {
            let f = choose|i: int| first_empty_slot(slots0, i);
            if f < chunk_index {
                assert(slots0[f] is Some);
            } else if f > chunk_index {
                assert(slots0[chunk_index as int] is Some);
            }
        }
        let mut current: Option<usize> = None;
        let ghost mut k: int = 0;
        loop
            invariant
                self.root == root0,
                self.chunks@ == slots0,
                self.chain@ == chain0,
                root0 == old(self).spec_root(),
                slots0 == old(self).slots(),
                chain0 == old(self).chain(),
                allocator_wf(root0, slots0, chain0),
                align > 0,
                size + align <= usize::MAX,
                first_empty_slot(slots0, chunk_index as int),
                chunk_index as int == choose|i: int| first_empty_slot(slots0, i),
                exists|k: int| first_chunk_fit(root0, slots0, chain0, size, align, k),
                0 <= k <= chain0.len(),
                k == 0 ==> current is None,
                k > 0 ==> current == Some(chain0[k - 1] as usize),
                forall|j: int| 0 <= j < k ==> !#[trigger] chunk_fits(list_node(root0, slots0, chain0, j), size, align),
            decreases chain0.len() - k,
        {
            proof {
                reveal(allocator_wf);
            }
            let node = match current {
                None => self.root.unwrap(),
                Some(s) => self.chunks[s].unwrap(),
            };
            assert(node == list_node(root0, slots0, chain0, k));
            if node.free {
                match node.check_layout(size, align) {
                    Some(eventual_size) => {
                        proof {
                            assert(first_chunk_fit(root0, slots0, chain0, size, align, k));
                            assert forall|m: int| first_chunk_fit(root0, slots0, chain0, size, align, m) implies m == k by {
                                if m < k {
                                    assert(!chunk_fits(list_node(root0, slots0, chain0, m), size, align));
                                } else if m > k {
                                    assert(!chunk_fits(list_node(root0, slots0, chain0, k), size, align));
                                }
                            }
                        }
                        // Construct the final pointer
                        let ptr_bits = node.ptr;
                        let mask = align - 1;
                        let overlap = ptr_bits & mask;
                        proof {
                            lemma_masked_at_most(ptr_bits, mask);
                        }
                        let extra = (align - overlap) % align;
                        let ptr = node.ptr + extra;

                        // Allocate the space
                        let mut walking = node;
                        let mut other = self.chunks[chunk_index];
                        walking.split(eventual_size, &mut other, chunk_index);
                        match current {
                            None => {
                                self.root = Some(walking);
                            },
                            Some(s) => {
                                self.chunks.set(s, Some(walking));
                            },
                        }
                        self.chunks.set(chunk_index, other);
                        proof {
                            if eventual_size < node.size {
                                lemma_split_chunk_wf(root0, slots0, chain0, k, chunk_index as int, walking, other->Some_0);
                                self.chain = Ghost(chain0.insert(k, chunk_index as int));
                            } else {
                                lemma_take_chunk_wf(root0, slots0, chain0, k, walking);
                                if k > 0 {
                                    assert(chain0[k - 1] != chunk_index);
                                }
                                assert(self.chunks@ =~= set_node(root0, slots0, chain0, k, walking).1);
                            }
                        }
                        return Some(ptr);
                    },
                    None => {},
                }
            }
            match node.next {
                Some(next) => {
                    proof {
                        assert(k < chain0.len());
                        assert(0 <= chain0[k] < slots0.len());
                        k = k + 1;
                    }
                    current = Some(next);
                },
                None => {
                    proof {
                        assert(k == chain0.len());
                        let m = choose|m: int| first_chunk_fit(root0, slots0, chain0, size, align, m);
                        if m < k {
                            assert(!chunk_fits(list_node(root0, slots0, chain0, m), size, align));
                        }
                    }
                    return None;
                },
            }
        }
    }
}

/// The chunks of the list, in order: where each starts, its size and
/// whether it is free.
pub open spec fn chunks_of(root: Option<AllocationChunk>, slots: Seq<Option<AllocationChunk>>, chain: Seq<int>) -> Seq<(int, int, bool)> {
    Seq::new(
        (chain.len() + 1) as nat,
        |k: int|
            (
                list_node(root, slots, chain, k).ptr as int,
                list_node(root, slots, chain, k).size as int,
                list_node(root, slots, chain, k).free,
            ),
    )
}

/// The first two chunks of `s` as one when both are free.
pub open spec fn merge_head(s: Seq<(int, int, bool)>) -> Seq<(int, int, bool)> {
    if s.len() >= 2 && s[0].2 && s[1].2 {
        seq![(s[0].0, s[0].1 + s[1].1, true)] + s.skip(2)
    } else {
        s
    }
}

/// The chunk is allocated and holds the address `p`.
pub open spec fn allocated_at(c: (int, int, bool), p: int) -> bool {
    !c.2 && c.0 <= p < c.0 + c.1
}

/// The chunks after freeing the address `p`: walking the list, each free
/// chunk is merged with the one after it when that one is free too, until
/// the allocated chunk that holds `p`, which becomes free and is merged with
/// the one after it in the same way.
pub open spec fn freed(s: Seq<(int, int, bool)>, p: int) -> Seq<(int, int, bool)>
    decreases s.len(),
{
    if s.len() == 0 {
        s
    } else if allocated_at(s[0], p) {
        merge_head(s.update(0, (s[0].0, s[0].1, true)))
    } else {
        let t = if s[0].2 {
            merge_head(s)
        } else {
            s
        };
        seq![t[0]] + freed(t.drop_first(), p)
    }
}

/// The chunks after a clean-up walk: each free chunk is merged with the one
/// after it when that one is free too.
pub open spec fn cleaned(s: Seq<(int, int, bool)>) -> Seq<(int, int, bool)>
    decreases s.len(),
{
    if s.len() == 0 {
        s
    } else {
        let t = if s[0].2 {
            merge_head(s)
        } else {
            s
        };
        seq![t[0]] + cleaned(t.drop_first())
    }
}

/// Chunk `k` merged with chunk `k + 1`.
pub open spec fn merged_node(root: Option<AllocationChunk>, slots: Seq<Option<AllocationChunk>>, chain: Seq<int>, k: int) -> AllocationChunk {
    AllocationChunk {
        size: (list_node(root, slots, chain, k).size + list_node(root, slots, chain, k + 1).size) as usize,
        next: list_node(root, slots, chain, k + 1).next,
        ..list_node(root, slots, chain, k)
    }
}

/// Merging chunk `k` with chunk `k + 1`, whose slot is emptied, keeps the
/// list well formed and merges the two in the list of chunks.
#[verifier::rlimit(30)]
proof fn lemma_merge_wf(root: Option<AllocationChunk>, slots: Seq<Option<AllocationChunk>>, chain: Seq<int>, k: int)
    requires
        allocator_wf(root, slots, chain),
        0 <= k < chain.len(),
        list_node(root, slots, chain, k).free,
        list_node(root, slots, chain, k + 1).free,
    ensures
        ({
            let (r2, s1) = set_node(root, slots, chain, k, merged_node(root, slots, chain, k));
            let s2 = s1.update(chain[k], None);
            let c2 = chain.remove(k);
            &&& allocator_wf(r2, s2, c2)
            &&& chunks_of(r2, s2, c2) == chunks_of(root, slots, chain).take(k) + merge_head(
                chunks_of(root, slots, chain).skip(k),
            )
        }),
{
    reveal(allocator_wf);
    let m = merged_node(root, slots, chain, k);
    let (r2, s1) = set_node(root, slots, chain, k, m);
    let s2 = s1.update(chain[k], None);
    let c2 = chain.remove(k);
    let f = chain[k];
    assert(list_node(root, slots, chain, k).ptr + list_node(root, slots, chain, k).size == list_node(root, slots, chain, k + 1).ptr);
    assert(list_node(root, slots, chain, k + 1).ptr + list_node(root, slots, chain, k + 1).size <= usize::MAX);
    assert forall|j: int| 0 <= j < c2.len() implies #[trigger] c2[j] == if j < k {
        chain[j]
    } else {
        chain[j + 1]
    } by {}
    assert forall|j: int| 0 <= j <= c2.len() implies #[trigger] list_node(r2, s2, c2, j) == if j < k {
        list_node(root, slots, chain, j)
    } else if j == k {
        m
    } else {
        list_node(root, slots, chain, j + 1)
    } by {
        if j > 0 && j < k {
            assert(c2[j - 1] == chain[j - 1]);
            assert(chain[j - 1] != chain[k - 1]);
            assert(chain[j - 1] != f);
        } else if j == k && k > 0 {
            assert(c2[k - 1] == chain[k - 1]);
            assert(chain[k - 1] != f);
        } else if j > k {
            assert(c2[j - 1] == chain[j]);
            assert(chain[j] != f);
            if k > 0 {
                assert(chain[j] != chain[k - 1]);
            }
        }
    }
    assert forall|a: int| 0 <= a < c2.len() implies 0 <= #[trigger] c2[a] < s2.len() && s2[c2[a]] is Some by {
        let a0 = if a < k { a } else { a + 1 };
        assert(c2[a] == chain[a0]);
        assert(chain[a0] != f);
    }
    assert forall|a: int, b: int| 0 <= a < b < c2.len() implies c2[a] != c2[b] by {
        let a0 = if a < k { a } else { a + 1 };
        let b0 = if b < k { b } else { b + 1 };
        assert(c2[a] == chain[a0] && c2[b] == chain[b0] && a0 < b0);
    }
    assert forall|j: int| 0 <= j < c2.len() implies #[trigger] list_node(r2, s2, c2, j).next == Some(c2[j] as usize) by {
        assert(list_node(r2, s2, c2, j) == list_node(r2, s2, c2, j));
        if j < k {
            assert(list_node(root, slots, chain, j).next == Some(chain[j] as usize));
        } else {
            assert(list_node(root, slots, chain, j + 1).next == Some(chain[j + 1] as usize));
        }
    }
    assert(list_node(r2, s2, c2, c2.len() as int) == list_node(r2, s2, c2, c2.len() as int));
    assert(list_node(root, slots, chain, chain.len() as int).next is None);
    assert forall|j: int| 0 <= j <= c2.len() implies #[trigger] list_node(r2, s2, c2, j).ptr + list_node(r2, s2, c2, j).size
        <= usize::MAX by {
        assert(list_node(r2, s2, c2, j) == list_node(r2, s2, c2, j));
        if j > k {
            assert(list_node(root, slots, chain, j + 1).ptr + list_node(root, slots, chain, j + 1).size <= usize::MAX);
        } else if j < k {
            assert(list_node(root, slots, chain, j).ptr + list_node(root, slots, chain, j).size <= usize::MAX);
        }
    }
    assert forall|j: int| 0 <= j < c2.len() implies #[trigger] list_node(r2, s2, c2, j).ptr + list_node(r2, s2, c2, j).size
        == list_node(r2, s2, c2, j + 1).ptr by {
        assert(list_node(r2, s2, c2, j + 1) == list_node(r2, s2, c2, j + 1));
        if j < k {
            assert(list_node(root, slots, chain, j).ptr + list_node(root, slots, chain, j).size == list_node(root, slots, chain, j + 1).ptr);
        } else if j == k {
            assert(list_node(root, slots, chain, k + 1).ptr + list_node(root, slots, chain, k + 1).size == list_node(root, slots, chain, k + 2).ptr);
        } else {
            assert(list_node(root, slots, chain, j + 1).ptr + list_node(root, slots, chain, j + 1).size == list_node(root, slots, chain, j + 2).ptr);
        }
    }
    let old_cs = chunks_of(root, slots, chain);
    let new_cs = chunks_of(r2, s2, c2);
    assert(new_cs =~= old_cs.take(k) + merge_head(old_cs.skip(k)));
}

impl Allocator {
    /// Chunk `k` of the list, reached at `cursor` (the root, or its slot).
    fn node_at(&self, cursor: Option<usize>, Ghost(k): Ghost<int>) -> (r: AllocationChunk)
        requires
            self.wf(),
            0 <= k <= self.chain@.len(),
            k == 0 ==> cursor is None,
            k > 0 ==> cursor == Some(self.chain@[k - 1] as usize),
        ensures
            r == list_node(self.root, self.chunks@, self.chain@, k),
            self.chunks().len() == self.chain@.len() + 1,
            self.chunks()[k] == (r.ptr as int, r.size as int, r.free),
            r.ptr + r.size <= usize::MAX,
            k < self.chain@.len() <==> r.next is Some,
            k < self.chain@.len() ==> r.next == Some(self.chain@[k] as usize),
            k > 0 ==> 0 <= self.chain@[k - 1] < self.chunks@.len(),
            self.chunks@.len() <= usize::MAX,
    {
        proof {
            reveal(allocator_wf);
        }
        match cursor {
            None => self.root.unwrap(),
            Some(s) => {
                assert(0 <= self.chain@[k - 1] < self.chunks@.len());
                self.chunks[s].unwrap()
            },
        }
    }

    /// Put `c` in place of chunk `k` of the list, reached at `cursor`.
    fn set_node_at(&mut self, cursor: Option<usize>, Ghost(k): Ghost<int>, c: AllocationChunk)
        requires
            0 <= k <= old(self).chain@.len(),
            k > 0 ==> 0 <= old(self).chain@[k - 1] < old(self).chunks@.len(),
            old(self).chunks@.len() <= usize::MAX,
            k == 0 ==> cursor is None,
            k > 0 ==> cursor == Some(old(self).chain@[k - 1] as usize),
        ensures
            final(self).root == set_node(old(self).root, old(self).chunks@, old(self).chain@, k, c).0,
            final(self).chunks@ == set_node(old(self).root, old(self).chunks@, old(self).chain@, k, c).1,
            final(self).chain@ == old(self).chain@,
    {
        match cursor {
            None => {
                self.root = Some(c);
            },
            Some(s) => {
                assert(s as int == old(self).chain@[k - 1]);
                self.chunks.set(s, Some(c));
            },
        }
    }

    /// Merge chunk `k` of the list, reached at `cursor`, with the chunk
    /// after it when both are free.
    #[verifier::rlimit(60)]
    fn combine_at(&mut self, cursor: Option<usize>, Ghost(k): Ghost<int>)
        requires
            old(self).wf(),
            0 <= k <= old(self).chain@.len(),
            k == 0 ==> cursor is None,
            k > 0 ==> cursor == Some(old(self).chain@[k - 1] as usize),
        ensures
            final(self).wf(),
            final(self).chunks() == old(self).chunks().take(k) + merge_head(old(self).chunks().skip(k)),
            k <= final(self).chain@.len(),
            final(self).chain@.take(k) == old(self).chain@.take(k),
            k > 0 ==> final(self).chain@[k - 1] == old(self).chain@[k - 1],
    {
        proof {
            reveal(allocator_wf);
        }
        let ghost (root0, slots0, chain0) = (self.root, self.chunks@, self.chain@);
        let mut node = self.node_at(cursor, Ghost(k));
        let ghost merge = k < chain0.len() && node.free && list_node(root0, slots0, chain0, k + 1).free;
        proof {
            if k < chain0.len() {
                assert(node.next == Some(chain0[k] as usize));
                assert(0 <= chain0[k] < slots0.len());
                assert(list_node(root0, slots0, chain0, k + 1) == slots0[chain0[k]]->Some_0);
                assert(node.ptr + node.size == list_node(root0, slots0, chain0, k + 1).ptr);
                assert(list_node(root0, slots0, chain0, k + 1).ptr + list_node(root0, slots0, chain0, k + 1).size
                    <= usize::MAX);
            } else {
                assert(node.next is None);
            }
            assert(combines(node, slots0) == merge);
        }
        node.attempt_combine(&mut self.chunks);
        proof {
            if k > 0 {
                assert(0 <= chain0[k - 1] < slots0.len());
            }
            if merge {
                lemma_merge_wf(root0, slots0, chain0, k);
                assert(node == merged_node(root0, slots0, chain0, k));
            }
        }
        self.set_node_at(cursor, Ghost(k), node);
        proof {
            let cs = chunks_of(root0, slots0, chain0);
            if merge {
                if k > 0 {
                    assert(chain0[k - 1] != chain0[k]);
                }
                assert(self.chunks@ =~= set_node(root0, slots0, chain0, k, node).1.update(chain0[k], None));
                self.chain = Ghost(chain0.remove(k));
                assert(self.chain@.take(k) =~= chain0.take(k));
            } else {
                assert(node == list_node(root0, slots0, chain0, k));
                lemma_take_chunk_wf(root0, slots0, chain0, k, node);
                assert(self.root == root0) by {
                    if k == 0 {
                        assert(root0 == Some(list_node(root0, slots0, chain0, 0)));
                    }
                }
                assert(self.chunks@ =~= slots0) by {
                    if k > 0 {
                        assert(slots0[chain0[k - 1]] == Some(list_node(root0, slots0, chain0, k)));
                    }
                }
                assert(merge_head(cs.skip(k)) == cs.skip(k));
                assert(cs.take(k) + cs.skip(k) =~= cs);
            }
        }
    }
}

impl Allocator {
    /// Free the allocation that holds the address `ptr`: walking the list,
    /// each free chunk is merged with the next when that one is free too,
    /// until the allocated chunk holding `ptr`, which is marked free and
    /// merged with the next in the same way.
    pub fn free_memory(&mut self, ptr: usize)
        requires
            old(self).wf(),
            exists|j: int| 0 <= j < old(self).chunks().len() && allocated_at(#[trigger] old(self).chunks()[j], ptr as int),
        ensures
            final(self).wf(),
            final(self).chunks() == freed(old(self).chunks(), ptr as int),
    {
        let mut cursor: Option<usize> = None;
        let ghost mut k: int = 0;
        proof {
            let cs = self.chunks();
            assert(cs.skip(0) =~= cs);
            assert(cs.take(0) + freed(cs, ptr as int) =~= freed(cs, ptr as int));
        }
        loop
            invariant
                self.wf(),
                0 <= k <= self.chain@.len(),
                k == 0 ==> cursor is None,
                k > 0 ==> cursor == Some(self.chain@[k - 1] as usize),
                freed(old(self).chunks(), ptr as int) == self.chunks().take(k) + freed(self.chunks().skip(k), ptr as int),
                exists|j: int| k <= j < self.chunks().len() && allocated_at(#[trigger] self.chunks()[j], ptr as int),
            decreases self.chain@.len() - k,
        {
            let ghost cs = self.chunks();
            let node = self.node_at(cursor, Ghost(k));
            proof {
                assert(cs[k] == (node.ptr as int, node.size as int, node.free));
                assert(node.ptr + node.size <= usize::MAX);
            }
            let found = !node.free && node.contains_ptr(ptr);
            if found {
                let ghost (root0, slots0, chain0) = (self.root, self.chunks@, self.chain@);
                let freed_node = AllocationChunk { free: true, ..node };
                self.set_node_at(cursor, Ghost(k), freed_node);
                proof {
                    lemma_take_chunk_wf(root0, slots0, chain0, k, freed_node);
                    let cs1 = self.chunks();
                    assert(cs1 == cs.update(k, (cs[k].0, cs[k].1, true)));
                    assert(cs.skip(k)[0] == cs[k]);
                    assert(cs1.skip(k) =~= cs.skip(k).update(0, (cs[k].0, cs[k].1, true)));
                    assert(cs1.take(k) =~= cs.take(k));
                }
                self.combine_at(cursor, Ghost(k));
                return;
            }
            if node.free {
                self.combine_at(cursor, Ghost(k));
            }
            let ghost cs2 = self.chunks();
            proof {
                let t = if cs[k].2 { merge_head(cs.skip(k)) } else { cs.skip(k) };
                assert(cs.skip(k)[0] == cs[k]);
                assert(!allocated_at(cs.skip(k)[0], ptr as int));
                assert(cs2 =~= cs.take(k) + t) by {
                    if !cs[k].2 {
                        assert(cs.take(k) + cs.skip(k) =~= cs);
                    }
                }
                assert(cs2.take(k + 1) =~= cs.take(k) + seq![t[0]]);
                assert(cs2.skip(k + 1) =~= t.drop_first());
                assert(freed(cs.skip(k), ptr as int) == seq![t[0]] + freed(t.drop_first(), ptr as int));
                assert(cs2.take(k + 1) + freed(cs2.skip(k + 1), ptr as int) =~= cs.take(k) + freed(cs.skip(k), ptr as int));
                let j = choose|j: int| k <= j < cs.len() && allocated_at(#[trigger] cs[j], ptr as int);
                assert(j > k);
                if cs[k].2 && cs.skip(k).len() >= 2 && cs.skip(k)[1].2 {
                    assert(j > k + 1) by {
                        assert(cs.skip(k)[1] == cs[k + 1]);
                    }
                    assert(cs2[j - 1] == cs[j]);
                    assert(allocated_at(cs2[j - 1], ptr as int));
                } else {
                    assert(cs2[j] == cs[j]);
                    assert(allocated_at(cs2[j], ptr as int));
                }
            }
            let node = self.node_at(cursor, Ghost(k));
            match node.next {
                Some(next) => {
                    proof {
                        assert(k < self.chain@.len());
                        k = k + 1;
                    }
                    cursor = Some(next);
                },
                None => {
                    proof {
                        assert(k == self.chain@.len());
                        assert(false);
                    }
                    return;
                },
            }
        }
    }

    /// Attempt to clean up the memory: walking the list, each free chunk is
    /// merged with the next when that one is free too.
    pub fn clean_up(&mut self)
        requires
            old(self).wf(),
        ensures
            final(self).wf(),
            final(self).chunks() == cleaned(old(self).chunks()),
    {
        let mut cursor: Option<usize> = None;
        let ghost mut k: int = 0;
        proof {
            let cs = self.chunks();
            assert(cs.skip(0) =~= cs);
            assert(cs.take(0) + cleaned(cs) =~= cleaned(cs));
        }
        loop
            invariant
                self.wf(),
                0 <= k <= self.chain@.len(),
                k == 0 ==> cursor is None,
                k > 0 ==> cursor == Some(self.chain@[k - 1] as usize),
                cleaned(old(self).chunks()) == self.chunks().take(k) + cleaned(self.chunks().skip(k)),
            decreases self.chain@.len() - k,
        {
            let ghost cs = self.chunks();
            let node = self.node_at(cursor, Ghost(k));
            proof {
                assert(cs[k] == (node.ptr as int, node.size as int, node.free));
            }
            if node.free {
                self.combine_at(cursor, Ghost(k));
            }
            let ghost cs2 = self.chunks();
            proof {
                let t = if cs[k].2 { merge_head(cs.skip(k)) } else { cs.skip(k) };
                assert(cs.skip(k)[0] == cs[k]);
                assert(cs2 =~= cs.take(k) + t) by {
                    if !cs[k].2 {
                        assert(cs.take(k) + cs.skip(k) =~= cs);
                    }
                }
                assert(cs2.take(k + 1) =~= cs.take(k) + seq![t[0]]);
                assert(cs2.skip(k + 1) =~= t.drop_first());
                assert(cleaned(cs.skip(k)) == seq![t[0]] + cleaned(t.drop_first()));
                assert(cs2.take(k + 1) + cleaned(cs2.skip(k + 1)) =~= cs.take(k) + cleaned(cs.skip(k)));
            }
            let node = self.node_at(cursor, Ghost(k));
            match node.next {
                Some(next) => {
                    proof {
                        assert(k < self.chain@.len());
                        k = k + 1;
                    }
                    cursor = Some(next);
                },
                None => {
                    proof {
                        assert(k == self.chain@.len());
                        assert(cs2.skip(k + 1).len() == 0);
                        assert(cleaned(cs2.skip(k + 1)) =~= Seq::<(int, int, bool)>::empty());
                        assert(cs2.take(k + 1) =~= cs2);
                    }
                    return;
                },
            }
        }
    }
}

/// The chunks of `s` cover the addresses from `start` to `end` in order,
/// each starting where the one before it ends.
pub open spec fn tiles(s: Seq<(int, int, bool)>, start: int, end: int) -> bool
    decreases s.len(),
{
    &&& s.len() > 0
    &&& s[0].0 == start
    &&& s[0].1 >= 0
    &&& if s.len() == 1 {
        s[0].0 + s[0].1 == end
    } else {
        tiles(s.drop_first(), s[0].0 + s[0].1, end)
    }
}

/// Where each allocated chunk of `s` starts and its size, in order.
pub open spec fn allocations(s: Seq<(int, int, bool)>) -> Seq<(int, int)>
    decreases s.len(),
{
    if s.len() == 0 {
        Seq::empty()
    } else if s[0].2 {
        allocations(s.drop_first())
    } else {
        seq![(s[0].0, s[0].1)] + allocations(s.drop_first())
    }
}

/// `a` without its first allocation that holds the address `p`.
pub open spec fn without_holder(a: Seq<(int, int)>, p: int) -> Seq<(int, int)>
    decreases a.len(),
{
    if a.len() == 0 {
        a
    } else if a[0].0 <= p < a[0].0 + a[0].1 {
        a.drop_first()
    } else {
        seq![a[0]] + without_holder(a.drop_first(), p)
    }
}

/// Merging two free chunks keeps the allocations and the tiling.
proof fn lemma_merge_head_keeps(s: Seq<(int, int, bool)>, start: int, end: int)
    ensures
        allocations(merge_head(s)) == allocations(s),
        tiles(s, start, end) ==> tiles(merge_head(s), start, end),
        s.len() > 0 ==> merge_head(s).len() > 0 && merge_head(s)[0].0 == s[0].0,
{
    if s.len() >= 2 && s[0].2 && s[1].2 {
        let m = merge_head(s);
        let rest = s.skip(2);
        assert(m.drop_first() =~= rest);
        assert(s.drop_first().drop_first() =~= rest);
        assert(s.drop_first()[0] == s[1]);
        assert(allocations(s.drop_first()) == allocations(rest));
        if tiles(s, start, end) {
            let s1 = s.drop_first();
            assert(tiles(s1, s[0].0 + s[0].1, end));
            if rest.len() > 0 {
                assert(tiles(s1.drop_first(), s1[0].0 + s1[0].1, end));
            }
        }
    }
}

/// An element put in front of a sequence comes off with `drop_first`.
proof fn lemma_cons_drop<A>(x: A, r: Seq<A>)
    ensures
        (seq![x] + r).drop_first() == r,
        (seq![x] + r)[0] == x,
        (seq![x] + r).len() == r.len() + 1,
{
    assert((seq![x] + r).drop_first() =~= r);
}

/// Freeing an address keeps the tiling of the heap, and the allocations
/// are those from before without the first one that holds the address.
pub proof fn lemma_free_keeps_tiling(s: Seq<(int, int, bool)>, p: int, start: int, end: int)
    ensures
        allocations(freed(s, p)) == without_holder(allocations(s), p),
        tiles(s, start, end) ==> tiles(freed(s, p), start, end),
    decreases s.len(),
{
    if s.len() == 0 {
    } else if allocated_at(s[0], p) {
        let u = s.update(0, (s[0].0, s[0].1, true));
        assert(u.drop_first() =~= s.drop_first());
        lemma_cons_drop((s[0].0, s[0].1), allocations(s.drop_first()));
        lemma_merge_head_keeps(u, start, end);
    } else {
        let t = if s[0].2 {
            merge_head(s)
        } else {
            s
        };
        lemma_merge_head_keeps(s, start, end);
        let r = t.drop_first();
        lemma_free_keeps_tiling(r, p, t[0].0 + t[0].1, end);
        lemma_cons_drop(t[0], freed(r, p));
        if !t[0].2 {
            lemma_cons_drop((t[0].0, t[0].1), allocations(r));
            lemma_cons_drop((t[0].0, t[0].1), without_holder(allocations(r), p));
        }
        if tiles(s, start, end) {
            assert(tiles(t, start, end));
            if t.len() > 1 {
                assert(tiles(r, t[0].0 + t[0].1, end));
            } else {
                assert(r.len() == 0);
            }
        }
    }
}

/// A clean-up walk keeps the tiling of the heap and the allocations.
pub proof fn lemma_clean_up_keeps_tiling(s: Seq<(int, int, bool)>, start: int, end: int)
    ensures
        allocations(cleaned(s)) == allocations(s),
        tiles(s, start, end) ==> tiles(cleaned(s), start, end),
    decreases s.len(),
{
    if s.len() > 0 {
        let t = if s[0].2 {
            merge_head(s)
        } else {
            s
        };
        lemma_merge_head_keeps(s, start, end);
        let r = t.drop_first();
        lemma_clean_up_keeps_tiling(r, t[0].0 + t[0].1, end);
        lemma_cons_drop(t[0], cleaned(r));
        if !t[0].2 {
            lemma_cons_drop((t[0].0, t[0].1), allocations(r));
        }
        if tiles(s, start, end) {
            assert(tiles(t, start, end));
            if t.len() > 1 {
                assert(tiles(r, t[0].0 + t[0].1, end));
            } else {
                assert(r.len() == 0);
            }
        }
    }
}

/// The chunks after allocating `total` bytes of the free chunk `k`: its
/// head is allocated and the rest, if any, follows it as a free chunk.
pub open spec fn taken(s: Seq<(int, int, bool)>, k: int, total: int) -> Seq<(int, int, bool)> {
    if total < s[k].1 {
        s.take(k) + seq![(s[k].0, total, false), (s[k].0 + total, s[k].1 - total, true)] + s.skip(k + 1)
    } else {
        s.update(k, (s[k].0, s[k].1, false))
    }
}

/// `s` tiles the addresses from `start` to `end`, or is empty and they meet.
pub open spec fn tiles_or_empty(s: Seq<(int, int, bool)>, start: int, end: int) -> bool {
    (s.len() == 0 && start == end) || tiles(s, start, end)
}

/// Two tilings that meet make one.
proof fn lemma_tiles_join(a: Seq<(int, int, bool)>, b: Seq<(int, int, bool)>, x: int, y: int, z: int)
    requires
        tiles_or_empty(a, x, y),
        tiles_or_empty(b, y, z),
    ensures
        tiles_or_empty(a + b, x, z),
    decreases a.len(),
{
    if a.len() == 0 {
        assert(a + b =~= b);
    } else if a.len() == 1 {
        if b.len() > 0 {
            assert((a + b).drop_first() =~= b);
        } else {
            assert(a + b =~= a);
        }
    } else {
        let a1 = a.drop_first();
        lemma_tiles_join(a1, b, a[0].0 + a[0].1, y, z);
        assert((a + b).drop_first() =~= a1 + b);
    }
}

/// A tiling cut before chunk `k` gives two tilings that meet there.
proof fn lemma_tiles_split(s: Seq<(int, int, bool)>, x: int, z: int, k: int)
    requires
        tiles(s, x, z),
        0 <= k <= s.len(),
    ensures
        tiles_or_empty(s.take(k), x, if k < s.len() { s[k].0 } else { z }),
        tiles_or_empty(s.skip(k), if k < s.len() { s[k].0 } else { z }, z),
    decreases k,
{
    if k == 0 {
        assert(s.take(0) =~= Seq::<(int, int, bool)>::empty());
        assert(s.skip(0) =~= s);
    } else if s.len() == 1 {
        assert(s.take(1) =~= s);
        assert(s.skip(1) =~= Seq::<(int, int, bool)>::empty());
    } else {
        let s1 = s.drop_first();
        lemma_tiles_split(s1, s[0].0 + s[0].1, z, k - 1);
        assert(s1.skip(k - 1) =~= s.skip(k));
        assert(s.take(k) =~= seq![s[0]] + s1.take(k - 1));
        if k - 1 < s1.len() {
            assert(s1[k - 1] == s[k]);
        }
        lemma_tiles_join(seq![s[0]], s1.take(k - 1), x, s[0].0 + s[0].1, if k < s.len() { s[k].0 } else { z });
    }
}

/// The allocations of two lists put together are those of each in turn.
proof fn lemma_allocations_concat(a: Seq<(int, int, bool)>, b: Seq<(int, int, bool)>)
    ensures
        allocations(a + b) == allocations(a) + allocations(b),
    decreases a.len(),
{
    if a.len() == 0 {
        assert(a + b =~= b);
        assert(allocations(a) + allocations(b) =~= allocations(b));
    } else {
        lemma_allocations_concat(a.drop_first(), b);
        assert((a + b).drop_first() =~= a.drop_first() + b);
        if !a[0].2 {
            assert(seq![(a[0].0, a[0].1)] + (allocations(a.drop_first()) + allocations(b)) =~= (seq![(a[0].0, a[0].1)]
                + allocations(a.drop_first())) + allocations(b));
        }
    }
}

/// Allocating the head of a free chunk keeps the tiling of the heap, and
/// the allocations are those from before with the head in the chunk's place.
pub proof fn lemma_allocate_keeps_tiling(s: Seq<(int, int, bool)>, k: int, total: int, start: int, end: int)
    requires
        0 <= k < s.len(),
        s[k].2,
        0 <= total <= s[k].1,
    ensures
        allocations(taken(s, k, total)) == allocations(s.take(k)) + seq![(s[k].0, total)] + allocations(s.skip(k + 1)),
        tiles(s, start, end) ==> tiles(taken(s, k, total), start, end),
{
    let pre = s.take(k);
    let post = s.skip(k + 1);
    let c = s[k];
    assert(s =~= pre + seq![c] + post);
    let mid = if total < c.1 {
        seq![(c.0, total, false), (c.0 + total, c.1 - total, true)]
    } else {
        seq![(c.0, c.1, false)]
    };
    assert(taken(s, k, total) =~= pre + mid + post);
    lemma_allocations_concat(pre + mid, post);
    lemma_allocations_concat(pre, mid);
    lemma_allocations_concat(pre + seq![c], post);
    lemma_allocations_concat(pre, seq![c]);
    if total < c.1 {
        let m1 = mid.drop_first();
        assert(m1 =~= seq![(c.0 + total, c.1 - total, true)]);
        assert(m1.drop_first() =~= Seq::<(int, int, bool)>::empty());
        assert(allocations(m1.drop_first()) == Seq::<(int, int)>::empty());
        assert(allocations(m1) == allocations(m1.drop_first()));
        assert(allocations(mid) == seq![(c.0, total)] + allocations(m1));
        assert(allocations(mid) =~= seq![(c.0, total)]);
    } else {
        assert(mid.drop_first() =~= Seq::<(int, int, bool)>::empty());
        assert(allocations(mid.drop_first()) == Seq::<(int, int)>::empty());
        assert(allocations(mid) == seq![(c.0, c.1)] + allocations(mid.drop_first()));
        assert(total == c.1);
        assert(allocations(mid) =~= seq![(c.0, total)]);
    }
    if tiles(s, start, end) {
        lemma_tiles_split(s, start, end, k);
        lemma_tiles_split(s.skip(k), c.0, end, 1);
        assert(s.skip(k).skip(1) =~= post);
        assert(s.skip(k)[0] == c);
        let after = if k + 1 < s.len() { s[k + 1].0 } else { end };
        assert(tiles_or_empty(post, after, end)) by {
            if k + 1 < s.len() {
                assert(s.skip(k)[1] == s[k + 1]);
            }
        }
        assert(tiles(s.skip(k), c.0, end));
        assert(c.0 + c.1 == after) by {
            if k + 1 < s.len() {
                assert(s.skip(k).drop_first() =~= post);
                assert(post[0] == s[k + 1]);
            } else {
                assert(s.skip(k).len() == 1);
            }
        }
        assert(tiles_or_empty(mid, c.0, after)) by {
            if total < c.1 {
                let m1 = mid.drop_first();
                assert(m1 =~= seq![(c.0 + total, c.1 - total, true)]);
                assert(m1.len() == 1 && m1[0].0 == c.0 + total && m1[0].1 == c.1 - total);
                assert(tiles(m1, c.0 + total, after));
                assert(mid[0].0 == c.0 && mid[0].1 == total && mid.len() == 2);
                assert(tiles(mid, c.0, after));
            } else {
                assert(mid.len() == 1 && mid[0].0 == c.0 && mid[0].1 == c.1);
                assert(tiles(mid, c.0, after));
            }
        }
        lemma_tiles_join(pre, mid, start, c.0, after);
        lemma_tiles_join(pre + mid, post, start, after, end);
    }
}

/// Chunks that each start where the one before ends tile the addresses
/// from the first chunk's start to the last chunk's end.
proof fn lemma_contiguous_tiles(cs: Seq<(int, int, bool)>)
    requires
        cs.len() > 0,
        forall|k: int| 0 <= k < cs.len() ==> (#[trigger] cs[k]).1 >= 0,
        forall|k: int| 0 <= k < cs.len() - 1 ==> #[trigger] cs[k].0 + cs[k].1 == cs[k + 1].0,
    ensures
        tiles(cs, cs[0].0, cs.last().0 + cs.last().1),
    decreases cs.len(),
{
    if cs.len() > 1 {
        let d = cs.drop_first();
        assert forall|k: int| 0 <= k < d.len() - 1 implies #[trigger] d[k].0 + d[k].1 == d[k + 1].0 by {
            assert(cs[k + 1].0 + cs[k + 1].1 == cs[k + 2].0);
        }
        assert forall|k: int| 0 <= k < d.len() implies (#[trigger] d[k]).1 >= 0 by {
            assert(cs[k + 1].1 >= 0);
        }
        lemma_contiguous_tiles(d);
        assert(cs[0].0 + cs[0].1 == cs[1].0);
        assert(d.last() == cs.last());
    }
}

impl Allocator {
    /// The chunks of a well-formed allocator tile the heap: from the first
    /// chunk's start to the last chunk's end, each starting where the one
    /// before it ends.
    pub proof fn lemma_allocator_tiles(&self)
        requires
            self.wf(),
        ensures
            tiles(self.chunks(), self.chunks()[0].0, self.chunks().last().0 + self.chunks().last().1),
    {
        reveal(allocator_wf);
        let cs = self.chunks();
        assert forall|k: int| 0 <= k < cs.len() - 1 implies #[trigger] cs[k].0 + cs[k].1 == cs[k + 1].0 by {
            assert(list_node(self.root, self.chunks@, self.chain@, k).ptr + list_node(self.root, self.chunks@, self.chain@, k).size
                == list_node(self.root, self.chunks@, self.chain@, k + 1).ptr);
        }
        lemma_contiguous_tiles(cs);
    }
}

impl GlobalAllocator {
    /// Initialize the allocator over `pages` pages at `pointer`, with 4096
    /// empty chunk slots.
    pub fn initialize(&mut self, pointer: usize, pages: usize)
        requires
            pages * crate::mem::PAGE_SIZE <= usize::MAX,
            pointer + pages * crate::mem::PAGE_SIZE <= usize::MAX,
        ensures
            final(self).allocator matches Some(a) && a.wf() && a.spec_root() == Some(
                AllocationChunk { next: None, ptr: pointer, size: (pages * crate::mem::PAGE_SIZE) as usize, free: true },
            ) && a.slots() == Seq::new(4096, |i: int| None::<AllocationChunk>) && a.chain().len() == 0,
    {
        let mut entries: Vec<Option<AllocationChunk>> = Vec::new();
        let mut i: usize = 0;
        while i < 4096
            invariant
                i <= 4096,
                entries@ == Seq::new(i as nat, |j: int| None::<AllocationChunk>),
            decreases 4096 - i,
        {
            entries.push(None);
            i = i + 1;
            assert(entries@ =~= Seq::new(i as nat, |j: int| None::<AllocationChunk>));
        }
        self.allocator = Some(Allocator::new(entries, pointer, crate::mem::PAGE_SIZE * pages));
    }

    /// Allocate `size` bytes aligned to `align` from the heap.
    pub fn allocate(&mut self, size: usize, align: usize) -> (r: usize)
        requires
            old(self).allocator matches Some(a) && a.wf() && (exists|i: int| first_empty_slot(a.slots(), i)) && (exists|k: int|
                first_chunk_fit(a.spec_root(), a.slots(), a.chain(), size, align, k)),
            align > 0,
            size + align <= usize::MAX,
        ensures
            final(self).allocator matches Some(a) && a.wf(),
            ({
                let a = old(self).allocator->Some_0;
                let (root, slots, chain) = (a.spec_root(), a.slots(), a.chain());
                let k = choose|k: int| first_chunk_fit(root, slots, chain, size, align, k);
                let c = list_node(root, slots, chain, k);
                &&& r == (c.ptr + chunk_padding(c.ptr, align)) as usize
                &&& final(self).allocator->Some_0.chunks() == taken(a.chunks(), k, size + chunk_padding(c.ptr, align))
            }),
    {
        match &mut self.allocator {
            Some(allocator) => {
                let p = allocator.allocate_memory(size, align);
                p.unwrap()
            },
            None => 0,
        }
    }

    /// Give back the allocation that holds `ptr`.
    pub fn deallocate(&mut self, ptr: usize)
        requires
            old(self).allocator matches Some(a) && a.wf() && exists|j: int|
                0 <= j < a.chunks().len() && allocated_at(#[trigger] a.chunks()[j], ptr as int),
        ensures
            final(self).allocator matches Some(a) && a.wf(),
            final(self).allocator->Some_0.chunks() == freed(old(self).allocator->Some_0.chunks(), ptr as int),
    {
        match &mut self.allocator {
            Some(allocator) => allocator.free_memory(ptr),
            None => {},
        }
    }
}

/// A value masked by `mask` is at most `mask`.
proof fn lemma_masked_at_most(v: usize, mask: usize)
    by (bit_vector)
    ensures
        v & mask <= mask,
{
}

} // verus!
