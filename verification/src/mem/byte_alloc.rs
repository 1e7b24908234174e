//! Byte grained kernel allocator: allocation flags, allocation nodes and the
//! allocation header that chains the nodes over the heap.
use vstd::prelude::*;

use super::PAGE_SIZE;

verus! {

/// Memory Allocation Flags
///
/// Bit 0: Is Valid
/// Bit 1: Is Free
#[derive(Clone, Copy, Debug, PartialEq, Eq, Structural)]
pub struct AllocationFlags(u32);

impl View for AllocationFlags {
    type V = u32;

    closed spec fn view(&self) -> u32 {
        self.0
    }
}

/// The arithmetic of the two flag bits: setting or clearing one keeps the
/// other.
proof fn lemma_flag_bits(v: u32)
    ensures
        (v | 1) & 1 != 0,
        (v | 1) & 2 == v & 2,
        (v & !1u32) & 1 == 0,
        (v & !1u32) & 2 == v & 2,
        (v | 2) & 2 != 0,
        (v | 2) & 1 == v & 1,
        (v & !2u32) & 2 == 0,
        (v & !2u32) & 1 == v & 1,
        (v & 1 > 0) == (v & 1 != 0),
        (v & 2 > 0) == (v & 2 != 0),
{
    assert((v | 1) & 1 != 0 && (v | 1) & 2 == v & 2 && (v & !1u32) & 1 == 0 && (v & !1u32) & 2
        == v & 2 && (v | 2) & 2 != 0 && (v | 2) & 1 == v & 1 && (v & !2u32) & 2 == 0 && (v
        & !2u32) & 1 == v & 1 && (v & 1 > 0) == (v & 1 != 0) && (v & 2 > 0) == (v & 2 != 0))
        by (bit_vector);
}

/// The flag values of an unused node and of a valid free node.
proof fn lemma_flag_values()
    by (bit_vector)
    ensures
        0u32 & 1 == 0,
        3u32 & 1 != 0,
        3u32 & 2 != 0,
{
}

impl AllocationFlags {
    /// The valid bit.
    pub open spec fn spec_is_valid(self) -> bool {
        self@ & 1 != 0
    }

    /// The free bit.
    pub open spec fn spec_is_free(self) -> bool {
        self@ & 2 != 0
    }

    /// Returns true iff the node is a valid node
    pub fn is_valid(&self) -> (r: bool)
        ensures
            r == self.spec_is_valid(),
    {
        proof {
            lemma_flag_bits(self.0);
        }
        self.0 & 1 > 0
    }

    /// Sets the valid node bit
    pub fn set_valid(&mut self)
        ensures
            final(self)@ == old(self)@ | 1,
            final(self).spec_is_valid(),
            final(self).spec_is_free() == old(self).spec_is_free(),
    {
        proof {
            lemma_flag_bits(self.0);
        }
        self.0 |= 1;
    }

    /// Sets the invalid node bit
    pub fn set_invalid(&mut self)
        ensures
            final(self)@ == old(self)@ & !1u32,
            !final(self).spec_is_valid(),
            final(self).spec_is_free() == old(self).spec_is_free(),
    {
        proof {
            lemma_flag_bits(self.0);
        }
        self.0 &= !1;
    }

    /// Returns true iff the node is free
    pub fn is_free(&self) -> (r: bool)
        ensures
            r == self.spec_is_free(),
    {
        proof {
            lemma_flag_bits(self.0);
        }
        self.0 & 2 > 0
    }

    /// Returns true iff the node is taken
    pub fn is_taken(&self) -> (r: bool)
        ensures
            r == !self.spec_is_free(),
    {
        !self.is_free()
    }

    /// Sets the free node bit
    pub fn set_free(&mut self)
        ensures
            final(self)@ == old(self)@ | 2,
            final(self).spec_is_free(),
            final(self).spec_is_valid() == old(self).spec_is_valid(),
    {
        proof {
            lemma_flag_bits(self.0);
        }
        self.0 |= 2;
    }

    /// Clears the free node bit
    pub fn set_taken(&mut self)
        ensures
            final(self)@ == old(self)@ & !2u32,
            !final(self).spec_is_free(),
            final(self).spec_is_valid() == old(self).spec_is_valid(),
    {
        proof {
            lemma_flag_bits(self.0);
        }
        self.0 &= !2;
    }

    /// Free Flag
    pub fn free() -> (r: Self)
        ensures
            r@ == 2,
    {
        Self(2)
    }

    /// Taken Flag
    pub fn taken() -> (r: Self)
        ensures
            r@ == 0,
    {
        Self(0)
    }

    /// Valid Flag
    pub fn valid() -> (r: Self)
        ensures
            r@ == 1,
    {
        Self(1)
    }

    /// Invalid Flag
    pub fn invalid() -> (r: Self)
        ensures
            r@ == 0,
    {
        Self(0)
    }

    /// The flags set in either operand
    pub fn bitor(self, rhs: AllocationFlags) -> (r: AllocationFlags)
        ensures
            r@ == self@ | rhs@,
    {
        AllocationFlags(self.0 | rhs.0)
    }
}

/// Memory Allocation Node: a block of `size` bytes at `ptr`, the index of
/// the node of the following block, and the block's flags.
#[derive(Clone, Copy, Debug)]
pub struct AllocationNode {
    pub ptr: usize,
    pub next: Option<usize>,
    pub size: u32,
    pub flags: AllocationFlags,
}

impl AllocationNode {
    /// Create a new Memory Allocation Node
    pub fn new(ptr: usize, next: Option<usize>, size: u32, flags: AllocationFlags) -> (r: Self)
        ensures
            r == (AllocationNode { ptr, next, size, flags }),
    {
        Self { ptr, next, size, flags }
    }
}

/// Number of Allocation Nodes in each Allocation Header page: what is left
/// of a page after the two links to the neighbouring headers, in nodes.
pub const ALLOCATION_NODES: usize = 127;

/// The node holds no block: every field of it is zero.
pub open spec fn is_unused(n: AllocationNode) -> bool {
    n.ptr == 0 && n.next is None && n.size == 0 && n.flags@ == 0
}

/// The end of the region covered by the list `chain` of nodes.
pub open spec fn region_end(nodes: Seq<AllocationNode>, chain: Seq<int>) -> int {
    nodes[chain.last()].ptr + nodes[chain.last()].size
}

/// `chain` lists the nodes of a well-formed block list: it starts at node 0,
/// every node on it is valid and follows the previous one through `next`,
/// the blocks lie one after the other, and the region they cover fits in the
/// address space and in a `u32`.
pub open spec fn chain_wf(nodes: Seq<AllocationNode>, chain: Seq<int>) -> bool {
    &&& nodes.len() <= usize::MAX
    &&& chain.len() >= 1
    &&& chain[0] == 0
    &&& forall|k: int|
        0 <= k < chain.len() ==> 0 <= #[trigger] chain[k] < nodes.len() && nodes[chain[k]].flags.spec_is_valid()
    &&& forall|j: int, k: int| 0 <= j < k < chain.len() ==> chain[j] != chain[k]
    &&& forall|k: int|
        0 <= k < chain.len() - 1 ==> #[trigger] nodes[chain[k]].next == Some(chain[k + 1] as usize)
    &&& nodes[chain.last()].next is None
    &&& forall|k: int|
        0 <= k < chain.len() - 1 ==> nodes[chain[k + 1]].ptr == #[trigger] nodes[chain[k]].ptr
            + nodes[chain[k]].size
    &&& forall|k: int|
        0 <= k < chain.len() ==> nodes[0].ptr <= #[trigger] nodes[chain[k]].ptr && nodes[chain[k]].ptr
            + nodes[chain[k]].size <= region_end(nodes, chain)
    &&& region_end(nodes, chain) <= usize::MAX
    &&& region_end(nodes, chain) - nodes[0].ptr <= u32::MAX
}

/// Node `i` is the first node that is not valid.
pub open spec fn is_first_invalid(nodes: Seq<AllocationNode>, i: int) -> bool {
    &&& 0 <= i < nodes.len()
    &&& !nodes[i].flags.spec_is_valid()
    &&& forall|j: int| 0 <= j < i ==> #[trigger] nodes[j].flags.spec_is_valid()
}

/// Memory Allocation Header: the nodes of all header pages, indexed across
/// the pages, and the list of the nodes that make up the heap from node 0 on.
pub struct AllocationHeader {
    nodes: Vec<AllocationNode>,
    chain: Ghost<Seq<int>>,
}

impl AllocationHeader {
    /// The nodes.
    pub closed spec fn node_seq(&self) -> Seq<AllocationNode> {
        self.nodes@
    }

    /// The indices of the nodes of the block list, in order.
    pub closed spec fn chain(&self) -> Seq<int> {
        self.chain@
    }

    /// The block list is well formed.
    pub closed spec fn wf(&self) -> bool {
        chain_wf(self.nodes@, self.chain@)
    }

    /// Create the header pages for a heap of `starting_pages` pages at
    /// `kernel_mem`: `header_count` pages of nodes (at least one), all of them
    /// unused but the first, which holds the whole heap as one free block.
    pub fn new(kernel_mem: usize, starting_pages: usize, header_count: usize) -> (r: Self)
        requires
            starting_pages * PAGE_SIZE <= usize::MAX,
            (if header_count == 0 { 1 } else { header_count }) * ALLOCATION_NODES <= usize::MAX,
            kernel_mem + (starting_pages * PAGE_SIZE) % 0x1_0000_0000 <= usize::MAX,
        ensures
            r.wf(),
            r.chain() == seq![0int],
            r.node_seq().len() == (if header_count == 0 { 1 } else { header_count }) * ALLOCATION_NODES,
            r.node_seq()[0].ptr == kernel_mem,
            r.node_seq()[0].next is None,
            r.node_seq()[0].size == (starting_pages * PAGE_SIZE) % 0x1_0000_0000,
            r.node_seq()[0].flags@ == 3,
            forall|i: int| 1 <= i < r.node_seq().len() ==> is_unused(#[trigger] r.node_seq()[i]),
    {
        let pages = if header_count == 0 { 1 } else { header_count };
        let total = pages * ALLOCATION_NODES;
        let bytes = starting_pages * PAGE_SIZE;
        let wide = bytes as u64;
        let low = wide & 0xFFFF_FFFF;
        assert(wide & 0xFFFF_FFFF == wide % 0x1_0000_0000) by (bit_vector);

        // Create the first Allocation Node
        let first_node = AllocationNode::new(
            kernel_mem,
            None,
            low as u32,
            AllocationFlags::free().bitor(AllocationFlags::valid()),
        );
        proof {
            assert(2u32 | 1u32 == 3u32 && 3u32 & 1u32 != 0 && 3u32 & 2u32 != 0) by (bit_vector);
        }
        let mut nodes: Vec<AllocationNode> = Vec::new();
        nodes.push(first_node);

        // Fill in the nodes with invalid nodes
        let mut i: usize = 1;
        while i < total
            invariant
                1 <= i <= total,
                total >= ALLOCATION_NODES,
                nodes@.len() == i,
                nodes@[0] == first_node,
                forall|j: int| 1 <= j < i ==> is_unused(#[trigger] nodes@[j]),
            decreases total - i,
        {
            nodes.push(AllocationNode::new(0, None, 0, AllocationFlags::invalid()));
            i = i + 1;
        }
        let ghost chain = seq![0int];
        assert(chain.last() == 0 && chain[0] == 0);
        assert(first_node.flags.spec_is_valid());
        AllocationHeader { nodes, chain: Ghost(chain) }
    }

    /// Get a reference to the node with the given index
    pub fn ref_node(&self, index: usize) -> (r: Option<&AllocationNode>)
        ensures
            match r {
                Some(n) => index < self.node_seq().len() && *n == self.node_seq()[index as int],
                None => index >= self.node_seq().len(),
            },
    {
        self.ref_node_inner(index)
    }

    /// Inner node reference function
    pub fn ref_node_inner(&self, index: usize) -> (r: Option<&AllocationNode>)
        ensures
            match r {
                Some(n) => index < self.node_seq().len() && *n == self.node_seq()[index as int],
                None => index >= self.node_seq().len(),
            },
    {
        if index < self.nodes.len() {
            Some(&self.nodes[index])
        } else {
            None
        }
    }

    /// Get a mutable reference to the node with the given index
    pub fn mut_node(&mut self, index: usize) -> (r: Option<&mut AllocationNode>)
        ensures
            final(self).chain() == old(self).chain(),
            match r {
                Some(n) => index < old(self).node_seq().len() && *n == old(self).node_seq()[index as int]
                    && final(self).node_seq() == old(self).node_seq().update(index as int, *final(n)),
                None => index >= old(self).node_seq().len() && final(self).node_seq() == old(self).node_seq(),
            },
    {
        self.mut_node_inner(index)
    }

    /// Inner node mutable reference function
    pub fn mut_node_inner(&mut self, index: usize) -> (r: Option<&mut AllocationNode>)
        ensures
            final(self).chain() == old(self).chain(),
            match r {
                Some(n) => index < old(self).node_seq().len() && *n == old(self).node_seq()[index as int]
                    && final(self).node_seq() == old(self).node_seq().update(index as int, *final(n)),
                None => index >= old(self).node_seq().len() && final(self).node_seq() == old(self).node_seq(),
            },
    {
        if index < self.nodes.len() {
            Some(&mut self.nodes[index])
        } else {
            None
        }
    }

    /// Get the index of the first free node
    pub fn get_free(&self) -> (r: Option<usize>)
        ensures
            match r {
                Some(i) => is_first_invalid(self.node_seq(), i as int),
                None => forall|j: int|
                    0 <= j < self.node_seq().len() ==> #[trigger] self.node_seq()[j].flags.spec_is_valid(),
            },
    {
        self.get_free_inner(0)
    }

    /// Get free helper function: the first node from `start` on that is not
    /// valid, where the nodes before `start` are all valid.
    fn get_free_inner(&self, start: usize) -> (r: Option<usize>)
        requires
            start <= self.node_seq().len(),
            forall|j: int| 0 <= j < start ==> #[trigger] self.node_seq()[j].flags.spec_is_valid(),
        ensures
            match r {
                Some(i) => is_first_invalid(self.node_seq(), i as int),
                None => forall|j: int|
                    0 <= j < self.node_seq().len() ==> #[trigger] self.node_seq()[j].flags.spec_is_valid(),
            },
    {
        let mut i = start;
        while i < self.nodes.len()
            invariant
                start <= i <= self.nodes@.len(),
                forall|j: int| 0 <= j < i ==> #[trigger] self.nodes@[j].flags.spec_is_valid(),
            decreases self.nodes@.len() - i,
        {
            if !self.nodes[i].flags.is_valid() {
                return Some(i);
            }
            i = i + 1;
        }
        None
    }
}

/// The padding that moves `ptr` up to the next multiple of `align`.
pub open spec fn padding_for(ptr: usize, align: usize) -> int {
    (align - ptr % align) % (align as int)
}

/// The node is valid, free and holds `size` bytes after the padding that
/// aligns its start to `align`.
pub open spec fn fits(n: AllocationNode, size: usize, align: usize) -> bool {
    &&& n.flags.spec_is_valid()
    &&& n.flags.spec_is_free()
    &&& n.size >= size + padding_for(n.ptr, align)
}

/// Position `k` of the block list holds the first node that fits.
pub open spec fn is_first_fit(nodes: Seq<AllocationNode>, chain: Seq<int>, size: usize, align: usize, k: int) -> bool {
    &&& 0 <= k < chain.len()
    &&& fits(nodes[chain[k]], size, align)
    &&& forall|j: int| 0 <= j < k ==> !#[trigger] fits(nodes[chain[j]], size, align)
}

/// Where the first block that fits is larger than what is asked for, some
/// node is unused and can take what is left of it.
pub open spec fn room_for_split(nodes: Seq<AllocationNode>, chain: Seq<int>, size: usize, align: usize) -> bool {
    forall|k: int|
        is_first_fit(nodes, chain, size, align, k) && nodes[chain[k]].size > size + padding_for(
            nodes[chain[k]].ptr,
            align,
        ) ==> exists|j: int| 0 <= j < nodes.len() && !(#[trigger] nodes[j]).flags.spec_is_valid()
}

/// Node `n` has these fields.
pub open spec fn node_is(n: AllocationNode, ptr: int, next: Option<usize>, size: int, flags: u32) -> bool {
    n.ptr == ptr && n.next == next && n.size == size && n.flags@ == flags
}

/// `a` and `b` hold the same nodes but at `i` and `f`.
pub open spec fn same_but(a: Seq<AllocationNode>, b: Seq<AllocationNode>, i: int, f: int) -> bool {
    &&& a.len() == b.len()
    &&& forall|j: int| 0 <= j < a.len() && j != i && j != f ==> #[trigger] a[j] == b[j]
}

/// What allocating `size` bytes aligned to `align` from the list `chain`
/// of `nodes` gives, the address `r` and the nodes `n1` and list `c1`
/// after it: the first block that fits is taken, split where it is larger
/// than needed, and its aligned start handed out; with no block that fits,
/// 0 and nothing changed.
pub open spec fn allocation_outcome(
    nodes: Seq<AllocationNode>,
    chain: Seq<int>,
    size: usize,
    align: usize,
    r: usize,
    n1: Seq<AllocationNode>,
    c1: Seq<int>,
) -> bool {
    if exists|k: int| is_first_fit(nodes, chain, size, align, k) {
        let k = choose|k: int| is_first_fit(nodes, chain, size, align, k);
        let i = chain[k];
        let n = nodes[i];
        let space = size + padding_for(n.ptr, align);
        &&& r == n.ptr + padding_for(n.ptr, align)
        &&& if n.size > space {
            let f = choose|f: int| is_first_invalid(nodes, f);
            &&& c1 == chain.insert(k + 1, f)
            &&& same_but(n1, nodes, i, f)
            &&& node_is(n1[i], n.ptr as int, Some(f as usize), space, n.flags@ & !2u32)
            &&& node_is(n1[f], n.ptr + space, n.next, n.size - space, 3)
        } else {
            &&& c1 == chain
            &&& same_but(n1, nodes, i, i)
            &&& node_is(n1[i], n.ptr as int, n.next, n.size as int, n.flags@ & !2u32)
        }
    } else {
        &&& r == 0
        &&& c1 == chain
        &&& n1 == nodes
    }
}

/// Taking a free block whole keeps the list well formed.
proof fn lemma_take_keeps_wf(nodes: Seq<AllocationNode>, chain: Seq<int>, k: int, taken: AllocationNode)
    requires
        chain_wf(nodes, chain),
        0 <= k < chain.len(),
        taken.ptr == nodes[chain[k]].ptr,
        taken.next == nodes[chain[k]].next,
        taken.size == nodes[chain[k]].size,
        taken.flags.spec_is_valid(),
    ensures
        chain_wf(nodes.update(chain[k], taken), chain),
{
    let i = chain[k];
    let m = nodes.update(i, taken);
    assert forall|j: int| 0 <= j < chain.len() implies #[trigger] m[chain[j]].ptr == nodes[chain[j]].ptr
        && m[chain[j]].size == nodes[chain[j]].size && m[chain[j]].next == nodes[chain[j]].next
        && m[chain[j]].flags.spec_is_valid() by {
        if chain[j] != i {
        }
    }
    assert(m[0].ptr == nodes[0].ptr) by {
        assert(chain[0] == 0);
    }
    assert(region_end(m, chain) == region_end(nodes, chain)) by {
        assert(m[chain.last()].ptr == nodes[chain.last()].ptr);
    }
    assert forall|j: int| 0 <= j < chain.len() - 1 implies #[trigger] m[chain[j]].next == Some(
        chain[j + 1] as usize,
    ) && m[chain[j + 1]].ptr == m[chain[j]].ptr + m[chain[j]].size by {
        assert(m[chain[j + 1]].ptr == nodes[chain[j + 1]].ptr);
    }
}

/// Splitting the block at position `k` into a head and a rest kept by the
/// unused node `f` keeps the list well formed, with `f` after position `k`.
proof fn lemma_split_keeps_wf(
    nodes: Seq<AllocationNode>,
    chain: Seq<int>,
    k: int,
    f: int,
    head: AllocationNode,
    rest: AllocationNode,
)
    requires
        chain_wf(nodes, chain),
        0 <= k < chain.len(),
        0 <= f < nodes.len(),
        !nodes[f].flags.spec_is_valid(),
        head.ptr == nodes[chain[k]].ptr,
        head.next == Some(f as usize),
        head.size < nodes[chain[k]].size,
        head.flags.spec_is_valid(),
        rest.ptr == nodes[chain[k]].ptr + head.size,
        rest.next == nodes[chain[k]].next,
        rest.size == nodes[chain[k]].size - head.size,
        rest.flags.spec_is_valid(),
    ensures
        chain_wf(nodes.update(chain[k], head).update(f, rest), chain.insert(k + 1, f)),
{
    let i = chain[k];
    let m = nodes.update(i, head).update(f, rest);
    let c = chain.insert(k + 1, f);
    assert(f != i);
    assert forall|j: int| 0 <= j < chain.len() implies #[trigger] chain[j] != f by {}
    assert forall|j: int| 0 <= j < chain.len() && j != k implies #[trigger] m[chain[j]] == nodes[chain[j]] by {
        assert(chain[j] != i);
    }
    assert forall|j: int| 0 <= j < c.len() implies (j <= k ==> #[trigger] c[j] == chain[j]) && (j == k + 1
        ==> c[j] == f) && (j > k + 1 ==> c[j] == chain[j - 1]) by {}
    assert(c[0] == 0);
    assert(m[0].ptr == nodes[0].ptr) by {
        assert(chain[0] == 0);
        if k == 0 {
        } else {
            assert(m[chain[0]] == nodes[chain[0]]);
        }
    }
    // the end of the region is where it was
    assert(region_end(m, c) == region_end(nodes, chain)) by {
        if k == chain.len() - 1 {
            assert(c.last() == f);
        } else {
            assert(c.last() == chain.last());
            assert(m[chain.last()] == nodes[chain.last()]);
        }
    }
    assert forall|j: int| 0 <= j < c.len() implies 0 <= #[trigger] c[j] < m.len() && m[c[j]].flags.spec_is_valid()
        && m[0].ptr <= m[c[j]].ptr && m[c[j]].ptr + m[c[j]].size <= region_end(m, c) by {
        if j < k {
            assert(m[chain[j]] == nodes[chain[j]]);
        } else if j > k + 1 {
            assert(m[chain[j - 1]] == nodes[chain[j - 1]]);
        }
    }
    assert forall|a: int, b: int| 0 <= a < b < c.len() implies c[a] != c[b] by {
        if a == k + 1 {
            assert(c[b] == chain[b - 1]);
        } else if b == k + 1 {
            assert(c[a] == chain[a]);
        } else {
            let a0 = if a > k + 1 { a - 1 } else { a };
            let b0 = if b > k + 1 { b - 1 } else { b };
            assert(c[a] == chain[a0] && c[b] == chain[b0] && a0 < b0);
        }
    }
    assert forall|j: int| 0 <= j < c.len() - 1 implies #[trigger] m[c[j]].next == Some(c[j + 1] as usize)
        && m[c[j + 1]].ptr == m[c[j]].ptr + m[c[j]].size by {
        if j < k {
            assert(m[chain[j]] == nodes[chain[j]]);
            if j + 1 < k {
                assert(m[chain[j + 1]] == nodes[chain[j + 1]]);
            }
        } else if j == k {
        } else if j == k + 1 {
            assert(c[j + 1] == chain[k + 1]);
            assert(m[chain[k + 1]] == nodes[chain[k + 1]]);
        } else {
            assert(c[j] == chain[j - 1] && c[j + 1] == chain[j]);
            assert(m[chain[j - 1]] == nodes[chain[j - 1]]);
            assert(m[chain[j]] == nodes[chain[j]]);
        }
    }
    assert(m[c.last()].next is None) by {
        if k == chain.len() - 1 {
        } else {
            assert(m[chain.last()] == nodes[chain.last()]);
        }
    }
}

impl AllocationHeader {
    /// Allocate `size` bytes aligned to `align` (a layout's size and
    /// alignment): the first free block of the list that holds them after
    /// the padding is taken, and what it has beyond the padded size is split
    /// off into a free block kept by the first unused node. Returns the
    /// aligned address, or 0 where no block fits.
    pub fn allocate(&mut self, size: usize, align: usize) -> (r: usize)
        requires
            old(self).wf(),
            align > 0,
            size + align <= usize::MAX,
            room_for_split(old(self).node_seq(), old(self).chain(), size, align),
        ensures
            final(self).wf(),
            allocation_outcome(old(self).node_seq(), old(self).chain(), size, align, r, final(self).node_seq(), final(self).chain()),
    {
        let ghost nodes0 = self.nodes@;
        let ghost chain0 = self.chain@;
        let mut index: usize = 0;

        let next_free = self.get_free();
        let ghost mut pos: int = 0;

        loop
            invariant
                self.nodes@ == nodes0,
                self.chain@ == chain0,
                nodes0 == old(self).node_seq(),
                chain0 == old(self).chain(),
                chain_wf(nodes0, chain0),
                align > 0,
                size + align <= usize::MAX,
                0 <= pos < chain0.len(),
                index == chain0[pos],
                forall|j: int| 0 <= j < pos ==> !#[trigger] fits(nodes0[chain0[j]], size, align),
                match next_free {
                    Some(f) => is_first_invalid(nodes0, f as int),
                    None => forall|j: int| 0 <= j < nodes0.len() ==> #[trigger] nodes0[j].flags.spec_is_valid(),
                },
                room_for_split(nodes0, chain0, size, align),
            decreases chain0.len() - pos,
        {
            let node = self.nodes[index];
            // If a valid, free, and properly sized node is found
            if node.flags.is_valid() && node.flags.is_free() && node.size as usize >= size {
                // And that node supports the proper padding
                let padding_needed = (align - node.ptr % align) % align;
                if node.size as usize >= size + padding_needed {
                    proof {
                        assert(fits(nodes0[chain0[pos]], size, align));
                        assert(is_first_fit(nodes0, chain0, size, align, pos));
                        assert forall|k: int| is_first_fit(nodes0, chain0, size, align, k) implies k == pos by {
                            if k < pos {
                                assert(!fits(nodes0[chain0[k]], size, align));
                            } else if k > pos {
                                assert(!fits(nodes0[chain0[pos]], size, align));
                            }
                        }
                    }
                    // Total space required (size and padding)
                    let space = size + padding_needed;
                    let ptr = node.ptr + padding_needed;
                    let mut taken = node;
                    taken.flags.set_taken();
                    taken.size = space as u32;

                    // If there is space left over
                    if node.size as usize > space {
                        let f = next_free.unwrap();
                        proof {
                            assert forall|g: int| is_first_invalid(nodes0, g) implies g == f by {
                                if g < f {
                                    assert(nodes0[g].flags.spec_is_valid());
                                } else if g > f {
                                    assert(nodes0[f as int].flags.spec_is_valid());
                                }
                            }
                        }
                        // Create a new node
                        let rest = AllocationNode::new(
                            node.ptr + space,
                            node.next,
                            (node.size as usize - space) as u32,
                            AllocationFlags::free().bitor(AllocationFlags::valid()),
                        );
                        proof {
                            assert(2u32 | 1u32 == 3u32 && 3u32 & 1u32 != 0) by (bit_vector);
                        }
                        taken.next = Some(f);
                        self.nodes.set(index, taken);
                        self.nodes.set(f, rest);
                        proof {
                            lemma_split_keeps_wf(nodes0, chain0, pos, f as int, taken, rest);
                            self.chain = Ghost(chain0.insert(pos + 1, f as int));
                        }
                    } else {
                        self.nodes.set(index, taken);
                        proof {
                            lemma_take_keeps_wf(nodes0, chain0, pos, taken);
                        }
                    }
                    return ptr;
                }
            }
            match node.next {
                Some(next) => {
                    index = next;
                    proof {
                        assert(!fits(nodes0[chain0[pos]], size, align));
                        assert(pos < chain0.len() - 1);
                        assert(nodes0[chain0[pos]].next == Some(chain0[pos + 1] as usize));
                        assert(0 <= chain0[pos + 1] < nodes0.len());
                        pos = pos + 1;
                    }
                },
                None => {
                    proof {
                        assert(pos == chain0.len() - 1);
                        assert forall|k: int| !is_first_fit(nodes0, chain0, size, align, k) by {
                            if 0 <= k < chain0.len() && k != pos {
                                assert(!fits(nodes0[chain0[k]], size, align));
                            }
                        }
                    }
                    return 0;
                },
            }
        }
    }
}

/// A block of the heap as the list shows it: start, size and whether it is
/// free.
pub type Block = (int, int, bool);

/// The blocks of the list `chain`, in order.
pub open spec fn blocks(nodes: Seq<AllocationNode>, chain: Seq<int>) -> Seq<Block> {
    Seq::new(
        chain.len(),
        |k: int| (nodes[chain[k]].ptr as int, nodes[chain[k]].size as int, nodes[chain[k]].flags.spec_is_free()),
    )
}

/// The blocks with every run of adjacent free blocks merged into one.
pub open spec fn coalesce(s: Seq<Block>) -> Seq<Block>
    decreases s.len(),
{
    if s.len() == 0 {
        s
    } else {
        let r = coalesce(s.drop_last());
        let b = s.last();
        if r.len() > 0 && b.2 && r.last().2 {
            r.update(r.len() - 1, (r.last().0, r.last().1 + b.1, true))
        } else {
            r.push(b)
        }
    }
}

/// One more block: it joins the last merged block where both are free.
proof fn lemma_coalesce_push(s: Seq<Block>, b: Block)
    ensures
        ({
            let r = coalesce(s);
            coalesce(s.push(b)) == if r.len() > 0 && b.2 && r.last().2 {
                r.update(r.len() - 1, (r.last().0, r.last().1 + b.1, true))
            } else {
                r.push(b)
            }
        }),
        coalesce(s.push(b)).len() > 0,
        coalesce(s.push(b)).last().2 == b.2,
{
    assert(s.push(b).drop_last() =~= s);
}

/// Merging the free block at position `q + 1` into the free block at
/// position `q` keeps the list well formed without the merged node.
proof fn lemma_merge_keeps_wf(
    nodes: Seq<AllocationNode>,
    chain: Seq<int>,
    q: int,
    merged: AllocationNode,
    dropped: AllocationNode,
)
    requires
        chain_wf(nodes, chain),
        0 <= q < chain.len() - 1,
        merged.ptr == nodes[chain[q]].ptr,
        merged.next == nodes[chain[q + 1]].next,
        merged.size == nodes[chain[q]].size + nodes[chain[q + 1]].size,
        merged.flags.spec_is_valid(),
    ensures
        chain_wf(nodes.update(chain[q], merged).update(chain[q + 1], dropped), chain.remove(q + 1)),
{
    let p = chain[q];
    let i = chain[q + 1];
    let m = nodes.update(p, merged).update(i, dropped);
    let c = chain.remove(q + 1);
    assert(p != i);
    assert forall|j: int| 0 <= j < chain.len() && j != q && j != q + 1 implies #[trigger] m[chain[j]]
        == nodes[chain[j]] by {
        assert(chain[j] != p && chain[j] != i);
    }
    assert forall|j: int| 0 <= j < c.len() implies (j <= q ==> #[trigger] c[j] == chain[j]) && (j > q
        ==> c[j] == chain[j + 1]) by {}
    assert(c[0] == 0);
    assert(m[0].ptr == nodes[0].ptr) by {
        if q == 0 {
        } else {
            assert(m[chain[0]] == nodes[chain[0]]);
        }
    }
    assert(region_end(m, c) == region_end(nodes, chain)) by {
        if q + 1 == chain.len() - 1 {
            assert(c.last() == p);
        } else {
            assert(c.last() == chain.last());
            assert(m[chain.last()] == nodes[chain.last()]);
        }
    }
    assert forall|j: int| 0 <= j < c.len() implies 0 <= #[trigger] c[j] < m.len() && m[c[j]].flags.spec_is_valid()
        && m[0].ptr <= m[c[j]].ptr && m[c[j]].ptr + m[c[j]].size <= region_end(m, c) by {
        if j < q {
            assert(m[chain[j]] == nodes[chain[j]]);
        } else if j > q {
            assert(m[chain[j + 1]] == nodes[chain[j + 1]]);
        } else {
            assert(nodes[chain[q + 1]].ptr + nodes[chain[q + 1]].size <= region_end(nodes, chain));
        }
    }
    assert forall|a: int, b: int| 0 <= a < b < c.len() implies c[a] != c[b] by {
        let a0 = if a > q { a + 1 } else { a };
        let b0 = if b > q { b + 1 } else { b };
        assert(c[a] == chain[a0] && c[b] == chain[b0] && a0 < b0);
    }
    assert forall|j: int| 0 <= j < c.len() - 1 implies #[trigger] m[c[j]].next == Some(c[j + 1] as usize)
        && m[c[j + 1]].ptr == m[c[j]].ptr + m[c[j]].size by {
        if j < q {
            assert(m[chain[j]] == nodes[chain[j]]);
            if j + 1 < q {
                assert(m[chain[j + 1]] == nodes[chain[j + 1]]);
            }
        } else if j == q {
            assert(c[j + 1] == chain[q + 2]);
            assert(m[chain[q + 2]] == nodes[chain[q + 2]]);
        } else {
            assert(c[j] == chain[j + 1] && c[j + 1] == chain[j + 2]);
            assert(m[chain[j + 1]] == nodes[chain[j + 1]]);
            assert(m[chain[j + 2]] == nodes[chain[j + 2]]);
        }
    }
    assert(m[c.last()].next is None) by {
        if q + 1 == chain.len() - 1 {
        } else {
            assert(m[chain.last()] == nodes[chain.last()]);
        }
    }
}

/// In a well-formed list two neighbouring blocks together fit in a `u32`.
proof fn lemma_neighbours_fit(nodes: Seq<AllocationNode>, chain: Seq<int>, q: int)
    requires
        chain_wf(nodes, chain),
        0 <= q < chain.len() - 1,
    ensures
        nodes[chain[q]].size + nodes[chain[q + 1]].size <= u32::MAX,
{
    assert(nodes[chain[q + 1]].ptr == nodes[chain[q]].ptr + nodes[chain[q]].size);
    assert(nodes[chain[q + 1]].ptr + nodes[chain[q + 1]].size <= region_end(nodes, chain));
    assert(nodes[0].ptr <= nodes[chain[q]].ptr);
}

impl AllocationHeader {
    /// Combine a specific node and its successor
    fn combine_specific(&mut self, node: usize, successor: usize)
        requires
            node < old(self).node_seq().len(),
            successor < old(self).node_seq().len(),
            node != successor,
            old(self).node_seq()[node as int].next == Some(successor),
            old(self).node_seq()[node as int].flags.spec_is_free(),
            old(self).node_seq()[successor as int].flags.spec_is_free(),
            old(self).node_seq()[node as int].flags.spec_is_valid(),
            old(self).node_seq()[successor as int].flags.spec_is_valid(),
            old(self).node_seq()[node as int].size + old(self).node_seq()[successor as int].size <= u32::MAX,
        ensures
            final(self).chain() == old(self).chain(),
            ({
                let a = old(self).node_seq()[node as int];
                let b = old(self).node_seq()[successor as int];
                &&& same_but(final(self).node_seq(), old(self).node_seq(), node as int, successor as int)
                &&& final(self).node_seq()[node as int] == (AllocationNode {
                    ptr: a.ptr,
                    next: b.next,
                    size: (a.size + b.size) as u32,
                    flags: a.flags,
                })
                &&& node_is(final(self).node_seq()[successor as int], b.ptr as int, b.next, b.size as int, b.flags@ & !1u32)
            }),
    {
        let mut a = self.nodes[node];
        let mut b = self.nodes[successor];
        a.next = b.next;
        a.size = a.size + b.size;
        b.flags.set_invalid();
        self.nodes.set(node, a);
        self.nodes.set(successor, b);
    }
}

/// Position `j` of the list `c` holds a free block right after another free
/// block: merging takes it into the block before it.
pub open spec fn merged_away(n: Seq<AllocationNode>, c: Seq<int>, j: int) -> bool {
    &&& j > 0
    &&& n[c[j]].flags.spec_is_free()
    &&& n[c[j - 1]].flags.spec_is_free()
}

/// The nodes of the list `c` that merging keeps: those that do not follow a
/// free block with a free block.
pub open spec fn kept(n: Seq<AllocationNode>, c: Seq<int>) -> Seq<int>
    decreases c.len(),
{
    if c.len() == 0 {
        c
    } else {
        let r = kept(n, c.drop_last());
        if merged_away(n, c, c.len() - 1) {
            r
        } else {
            r.push(c.last())
        }
    }
}

/// The node `i` of `n1` is node `i` of `n0` marked invalid.
pub open spec fn invalidated(n1: Seq<AllocationNode>, n0: Seq<AllocationNode>, i: int) -> bool {
    node_is(n1[i], n0[i].ptr as int, n0[i].next, n0[i].size as int, n0[i].flags@ & !1u32)
}

/// `n1` and `c1` are what merging every run of free blocks of `n0` and
/// `c0` into its first node gives: the blocks are coalesced, the list keeps
/// the first node of each run, the nodes off the list are as they were, the
/// nodes kept keep their start and flags, and the nodes merged away are
/// marked invalid.
pub open spec fn combined(n0: Seq<AllocationNode>, c0: Seq<int>, n1: Seq<AllocationNode>, c1: Seq<int>) -> bool {
    &&& blocks(n1, c1) == coalesce(blocks(n0, c0))
    &&& c1 == kept(n0, c0)
    &&& n1.len() == n0.len()
    &&& forall|i: int| 0 <= i < n0.len() && !c0.contains(i) ==> #[trigger] n1[i] == n0[i]
    &&& forall|j: int|
        0 <= j < c0.len() ==> (if merged_away(n0, c0, j) {
            invalidated(n1, n0, #[trigger] c0[j])
        } else {
            n1[c0[j]].ptr == n0[c0[j]].ptr && n1[c0[j]].flags == n0[c0[j]].flags
        })
}

/// The state of the merging walk after the first `pos` positions of `c0`:
/// the list is the nodes kept so far, `m`, followed by the rest of `c0`.
pub open spec fn combine_inv(
    n0: Seq<AllocationNode>,
    c0: Seq<int>,
    nodes: Seq<AllocationNode>,
    chain: Seq<int>,
    m: Seq<int>,
    pos: int,
) -> bool {
    &&& chain_wf(n0, c0)
    &&& chain_wf(nodes, chain)
    &&& 0 <= pos <= c0.len()
    &&& chain == m + c0.subrange(pos, c0.len() as int)
    &&& m == kept(n0, c0.subrange(0, pos))
    &&& (m.len() == 0) == (pos == 0)
    &&& blocks(nodes, m) == coalesce(blocks(n0, c0.subrange(0, pos)))
    &&& nodes.len() == n0.len()
    &&& forall|j: int| pos <= j < c0.len() ==> #[trigger] nodes[c0[j]] == n0[c0[j]]
    &&& forall|i: int| 0 <= i < n0.len() && !c0.contains(i) ==> #[trigger] nodes[i] == n0[i]
    &&& forall|j: int|
        0 <= j < pos ==> (if merged_away(n0, c0, j) {
            invalidated(nodes, n0, #[trigger] c0[j])
        } else {
            nodes[c0[j]].ptr == n0[c0[j]].ptr && nodes[c0[j]].flags == n0[c0[j]].flags
        })
}

/// The nodes kept from a list are nodes of the list.
proof fn lemma_kept_subset(n: Seq<AllocationNode>, c: Seq<int>)
    ensures
        forall|x: int| #[trigger] kept(n, c).contains(x) ==> c.contains(x),
        c.len() > 0 ==> kept(n, c).len() > 0 && kept(n, c).last() == kept(n, c.drop_last()).push(c.last()).last()
            || kept(n, c) == kept(n, c.drop_last()),
    decreases c.len(),
{
    if c.len() > 0 {
        lemma_kept_subset(n, c.drop_last());
        assert forall|x: int| #[trigger] kept(n, c).contains(x) implies c.contains(x) by {
            if kept(n, c.drop_last()).contains(x) {
                assert(c.drop_last().contains(x));
                let t = choose|t: int| 0 <= t < c.drop_last().len() && #[trigger] c.drop_last()[t] == x;
                assert(c[t] == x);
            } else {
                assert(c[c.len() - 1] == x);
            }
        }
    }
}

/// The walk reaches a well-formed state at its start.
proof fn lemma_combine_start(n0: Seq<AllocationNode>, c0: Seq<int>)
    requires
        chain_wf(n0, c0),
    ensures
        combine_inv(n0, c0, n0, c0, Seq::empty(), 0),
{
    assert(c0.subrange(0, c0.len() as int) =~= c0);
    assert(Seq::<int>::empty() + c0.subrange(0, c0.len() as int) =~= c0);
    assert(c0.subrange(0, 0) =~= Seq::<int>::empty());
    assert(blocks(n0, Seq::<int>::empty()) =~= Seq::<Block>::empty());
}

/// Facts on the prefix `c0[..pos + 1]` in terms of the prefix `c0[..pos]`.
proof fn lemma_prefix_step(n0: Seq<AllocationNode>, c0: Seq<int>, pos: int)
    requires
        0 <= pos < c0.len(),
    ensures
        c0.subrange(0, pos + 1) == c0.subrange(0, pos).push(c0[pos]),
        blocks(n0, c0.subrange(0, pos + 1)) == blocks(n0, c0.subrange(0, pos)).push(
            (n0[c0[pos]].ptr as int, n0[c0[pos]].size as int, n0[c0[pos]].flags.spec_is_free()),
        ),
        kept(n0, c0.subrange(0, pos + 1)) == if merged_away(n0, c0, pos) {
            kept(n0, c0.subrange(0, pos))
        } else {
            kept(n0, c0.subrange(0, pos)).push(c0[pos])
        },
{
    let s = c0.subrange(0, pos + 1);
    assert(s =~= c0.subrange(0, pos).push(c0[pos]));
    assert(s.drop_last() =~= c0.subrange(0, pos));
    assert(blocks(n0, s) =~= blocks(n0, c0.subrange(0, pos)).push(
        (n0[c0[pos]].ptr as int, n0[c0[pos]].size as int, n0[c0[pos]].flags.spec_is_free()),
    ));
    assert(merged_away(n0, s, s.len() - 1) == merged_away(n0, c0, pos));
}

/// In the walk's state the last block kept is free exactly where the last
/// block walked over was free.
proof fn lemma_combine_last_free(
    n0: Seq<AllocationNode>,
    c0: Seq<int>,
    nodes: Seq<AllocationNode>,
    chain: Seq<int>,
    m: Seq<int>,
    pos: int,
)
    requires
        combine_inv(n0, c0, nodes, chain, m, pos),
        pos > 0,
    ensures
        m.len() > 0,
        nodes[m.last()].flags.spec_is_free() == n0[c0[pos - 1]].flags.spec_is_free(),
        chain[m.len() - 1] == m.last(),
{
    lemma_prefix_step(n0, c0, pos - 1);
    lemma_coalesce_push(
        blocks(n0, c0.subrange(0, pos - 1)),
        (n0[c0[pos - 1]].ptr as int, n0[c0[pos - 1]].size as int, n0[c0[pos - 1]].flags.spec_is_free()),
    );
    assert(blocks(nodes, m).last() == blocks(nodes, m)[m.len() - 1]);
}

/// A block that is not merged away is kept: the walk's state moves on.
#[verifier::rlimit(40)]
#[verifier::spinoff_prover]
proof fn lemma_combine_keep_step(
    n0: Seq<AllocationNode>,
    c0: Seq<int>,
    nodes: Seq<AllocationNode>,
    chain: Seq<int>,
    m: Seq<int>,
    pos: int,
)
    requires
        combine_inv(n0, c0, nodes, chain, m, pos),
        pos < c0.len(),
        !merged_away(n0, c0, pos),
    ensures
        combine_inv(n0, c0, nodes, chain, m.push(c0[pos]), pos + 1),
{
    let blk = (n0[c0[pos]].ptr as int, n0[c0[pos]].size as int, n0[c0[pos]].flags.spec_is_free());
    lemma_prefix_step(n0, c0, pos);
    lemma_coalesce_push(blocks(n0, c0.subrange(0, pos)), blk);
    let m2 = m.push(c0[pos]);
    assert(chain =~= m2 + c0.subrange(pos + 1, c0.len() as int));
    assert(nodes[c0[pos]] == n0[c0[pos]]);
    if pos > 0 {
        lemma_combine_last_free(n0, c0, nodes, chain, m, pos);
    }
    assert(blocks(nodes, m2) =~= blocks(nodes, m).push(blk));
}

/// A free block after a free block is merged into the block kept before it:
/// the walk's state moves on.
#[verifier::rlimit(50)]
#[verifier::spinoff_prover]
proof fn lemma_combine_merge_step(
    n0: Seq<AllocationNode>,
    c0: Seq<int>,
    nodes: Seq<AllocationNode>,
    chain: Seq<int>,
    m: Seq<int>,
    pos: int,
    nodes2: Seq<AllocationNode>,
)
    requires
        combine_inv(n0, c0, nodes, chain, m, pos),
        pos < c0.len(),
        merged_away(n0, c0, pos),
        m.len() > 0,
        same_but(nodes2, nodes, m.last(), c0[pos]),
        nodes2[m.last()] == (AllocationNode {
            ptr: nodes[m.last()].ptr,
            next: nodes[c0[pos]].next,
            size: (nodes[m.last()].size + nodes[c0[pos]].size) as u32,
            flags: nodes[m.last()].flags,
        }),
        invalidated(nodes2, nodes, c0[pos]),
    ensures
        combine_inv(n0, c0, nodes2, m + c0.subrange(pos + 1, c0.len() as int), m, pos + 1),
{
    let q = m.len() - 1;
    let p = m.last();
    let i = c0[pos];
    let blk = (n0[i].ptr as int, n0[i].size as int, n0[i].flags.spec_is_free());
    lemma_prefix_step(n0, c0, pos);
    lemma_coalesce_push(blocks(n0, c0.subrange(0, pos)), blk);
    lemma_combine_last_free(n0, c0, nodes, chain, m, pos);
    assert(chain[q] == p && chain[q + 1] == i);
    lemma_neighbours_fit(nodes, chain, q);
    assert(nodes2[p].size == nodes[p].size + nodes[i].size);
    lemma_merge_keeps_wf(nodes, chain, q, nodes2[p], nodes2[i]);
    assert(nodes2 =~= nodes.update(p, nodes2[p]).update(i, nodes2[i]));
    let chain2 = m + c0.subrange(pos + 1, c0.len() as int);
    assert(chain.remove(q + 1) =~= chain2);
    // the blocks kept before the last are untouched
    assert forall|t: int| 0 <= t < q implies #[trigger] nodes2[m[t]] == nodes[m[t]] by {
        assert(chain[t] == m[t]);
    }
    assert(blocks(nodes2, m) =~= blocks(nodes, m).update(q, (nodes[p].ptr as int, nodes2[p].size as int, true)));
    // where the rest of the list is
    assert forall|j: int| pos + 1 <= j < c0.len() implies #[trigger] nodes2[c0[j]] == n0[c0[j]] by {
        assert(chain[q + 1 + (j - pos)] == c0[j]);
        assert(nodes[c0[j]] == n0[c0[j]]);
    }
    lemma_kept_subset(n0, c0.subrange(0, pos));
    assert forall|x: int| 0 <= x < n0.len() && !c0.contains(x) implies #[trigger] nodes2[x] == n0[x] by {
        if x == p {
            assert(m.contains(p));
            assert(c0.subrange(0, pos).contains(p));
            let t = choose|t: int| 0 <= t < pos && #[trigger] c0.subrange(0, pos)[t] == p;
            assert(c0[t] == p);
        }
        assert(x != i);
        assert(nodes[x] == n0[x]);
    }
    lemma_flag_bits(n0[i].flags@);
    assert forall|j: int| 0 <= j < pos + 1 implies (if merged_away(n0, c0, j) {
        invalidated(nodes2, n0, #[trigger] c0[j])
    } else {
        nodes2[c0[j]].ptr == n0[c0[j]].ptr && nodes2[c0[j]].flags == n0[c0[j]].flags
    }) by {
        if j == pos {
            assert(nodes[i] == n0[i]);
        } else {
            assert(c0[j] != i);
            if merged_away(n0, c0, j) {
                lemma_flag_bits(n0[c0[j]].flags@);
                assert(!nodes[c0[j]].flags.spec_is_valid());
                assert(nodes[p].flags.spec_is_valid());
                assert(c0[j] != p);
            }
        }
    }
}

impl AllocationHeader {
    /// Walk the table and combine any adjacent nodes which are connected
    fn combine(&mut self)
        requires
            old(self).wf(),
        ensures
            final(self).wf(),
            combined(old(self).node_seq(), old(self).chain(), final(self).node_seq(), final(self).chain()),
    {
        let ghost n0 = self.nodes@;
        let ghost c0 = self.chain@;
        let ghost len: int = c0.len() as int;
        let mut index: usize = 0;
        let mut prev: Option<usize> = None;
        let mut done = false;
        let ghost mut pos: int = 0;
        let ghost mut m: Seq<int> = Seq::empty();
        proof {
            lemma_combine_start(n0, c0);
        }

        while !done
            invariant
                n0 == old(self).node_seq(),
                c0 == old(self).chain(),
                len == c0.len(),
                combine_inv(n0, c0, self.nodes@, self.chain@, m, pos),
                done == (pos == len),
                !done ==> index == c0[pos],
                pos > 0 && n0[c0[pos - 1]].flags.spec_is_free() ==> prev == Some(m.last() as usize),
                !(pos > 0 && n0[c0[pos - 1]].flags.spec_is_free()) ==> prev is None,
            decreases len - pos,
        {
            let ghost nodes_before = self.nodes@;
            let node = self.nodes[index];
            let next = node.next;
            proof {
                assert(node == n0[c0[pos]]);
                if pos > 0 {
                    lemma_combine_last_free(n0, c0, self.nodes@, self.chain@, m, pos);
                }
            }

            if node.flags.is_free() {
                match prev {
                    Some(p) => {
                        proof {
                            let q = m.len() - 1;
                            assert(self.chain@[q + 1] == c0[pos]);
                            lemma_neighbours_fit(self.nodes@, self.chain@, q);
                            assert(self.nodes@[p as int].next == Some(index));
                        }
                        self.combine_specific(p, index);
                        proof {
                            lemma_combine_merge_step(n0, c0, nodes_before, self.chain@, m, pos, self.nodes@);
                            self.chain = Ghost(m + c0.subrange(pos + 1, len));
                        }
                    },
                    None => {
                        prev = Some(index);
                        proof {
                            lemma_combine_keep_step(n0, c0, self.nodes@, self.chain@, m, pos);
                            m = m.push(index as int);
                        }
                    },
                }
            } else {
                prev = None;
                proof {
                    lemma_combine_keep_step(n0, c0, self.nodes@, self.chain@, m, pos);
                    m = m.push(index as int);
                }
            }
            proof {
                pos = pos + 1;
            }
            match next {
                Some(n) => {
                    proof {
                        assert(pos < len);
                        assert(n0[c0[pos - 1]].next == Some(c0[pos] as usize));
                        assert(0 <= c0[pos] < n0.len());
                    }
                    index = n;
                },
                None => {
                    proof {
                        assert(pos == len);
                    }
                    done = true;
                },
            }
        }
        proof {
            assert(c0.subrange(0, len) =~= c0);
            assert(self.chain@ =~= m);
        }
    }
}

/// What deallocating `ptr` from the list `chain` of `nodes` gives, the
/// nodes `n1` and list `c1` after it: the first block that holds `ptr` is
/// marked free and the free blocks are merged; where no block holds it,
/// nothing changes.
pub open spec fn deallocation_outcome(
    nodes: Seq<AllocationNode>,
    chain: Seq<int>,
    ptr: usize,
    n1: Seq<AllocationNode>,
    c1: Seq<int>,
) -> bool {
    if exists|k: int| is_first_holder(nodes, chain, ptr, k) {
        let k = choose|k: int| is_first_holder(nodes, chain, ptr, k);
        let i = chain[k];
        exists|freed: Seq<AllocationNode>|
            #![trigger combined(freed, chain, n1, c1)]
            same_but(freed, nodes, i, i) && node_is(
                freed[i],
                nodes[i].ptr as int,
                nodes[i].next,
                nodes[i].size as int,
                nodes[i].flags@ | 2u32,
            ) && combined(freed, chain, n1, c1)
    } else {
        n1 == nodes && c1 == chain
    }
}

/// Position `k` of the list holds the first block that contains `ptr`.
pub open spec fn is_first_holder(nodes: Seq<AllocationNode>, chain: Seq<int>, ptr: usize, k: int) -> bool {
    &&& 0 <= k < chain.len()
    &&& nodes[chain[k]].ptr <= ptr < nodes[chain[k]].ptr + nodes[chain[k]].size
    &&& forall|j: int|
        0 <= j < k ==> !(nodes[#[trigger] chain[j]].ptr <= ptr < nodes[chain[j]].ptr + nodes[chain[j]].size)
}

impl AllocationHeader {
    /// Deallocate the block that holds `ptr` (allocated with a layout of
    /// `_size` bytes aligned to `_align`): the first block of the list that
    /// contains the address is marked free and the free blocks are merged.
    /// Where no block contains it, nothing changes.
    pub fn deallocate(&mut self, ptr: usize, _size: usize, _align: usize)
        requires
            old(self).wf(),
        ensures
            final(self).wf(),
            deallocation_outcome(old(self).node_seq(), old(self).chain(), ptr, final(self).node_seq(), final(self).chain()),
    {
        let ghost nodes0 = self.nodes@;
        let ghost chain0 = self.chain@;
        let mut index: usize = 0;
        let ghost mut pos: int = 0;

        loop
            invariant
                self.nodes@ == nodes0,
                self.chain@ == chain0,
                nodes0 == old(self).node_seq(),
                chain0 == old(self).chain(),
                chain_wf(nodes0, chain0),
                0 <= pos < chain0.len(),
                index == chain0[pos],
                forall|j: int|
                    0 <= j < pos ==> !(nodes0[#[trigger] chain0[j]].ptr <= ptr < nodes0[chain0[j]].ptr
                        + nodes0[chain0[j]].size),
            decreases chain0.len() - pos,
        {
            let node = self.nodes[index];
            // Check if the pointer sits within the current node
            if node.ptr <= ptr && node.ptr + node.size as usize > ptr {
                proof {
                    assert(is_first_holder(nodes0, chain0, ptr, pos));
                    assert forall|k: int| is_first_holder(nodes0, chain0, ptr, k) implies k == pos by {
                        if k < pos {
                            assert(!(nodes0[chain0[k]].ptr <= ptr < nodes0[chain0[k]].ptr + nodes0[chain0[k]].size));
                        } else if k > pos {
                            assert(chain0[pos] == chain0[pos]);
                        }
                    }
                }
                // Then free that node
                let mut freed = node;
                freed.flags.set_free();
                self.nodes.set(index, freed);
                proof {
                    lemma_take_keeps_wf(nodes0, chain0, pos, freed);
                }
                let ghost freed_nodes = self.nodes@;

                // Combine the nodes
                self.combine();
                proof {
                    assert(same_but(freed_nodes, nodes0, index as int, index as int));
                    assert(combined(freed_nodes, chain0, self.nodes@, self.chain@));
                }
                return;
            }
            match node.next {
                Some(next) => {
                    proof {
                        assert(pos < chain0.len() - 1);
                        assert(nodes0[chain0[pos]].next == Some(chain0[pos + 1] as usize));
                        assert(0 <= chain0[pos + 1] < nodes0.len());
                        pos = pos + 1;
                    }
                    index = next;
                },
                None => {
                    proof {
                        assert(pos == chain0.len() - 1);
                        assert forall|k: int| !is_first_holder(nodes0, chain0, ptr, k) by {
                            if 0 <= k < chain0.len() && k != pos {
                                assert(!(nodes0[chain0[k]].ptr <= ptr < nodes0[chain0[k]].ptr + nodes0[chain0[k]].size));
                            }
                        }
                    }
                    return;
                },
            }
        }
    }
}

/// Initialize the kernel's byte allocator over `page_count` pages at
/// `kernel_mem`, with sixteen header pages of nodes.
pub fn init_kernel_global_allocator(kernel_mem: usize, page_count: usize) -> (r: AllocationHeader)
    requires
        page_count * PAGE_SIZE <= usize::MAX,
        kernel_mem + (page_count * PAGE_SIZE) % 0x1_0000_0000 <= usize::MAX,
    ensures
        r.wf(),
        r.chain() == seq![0int],
        r.node_seq().len() == 16 * ALLOCATION_NODES,
        r.node_seq()[0].ptr == kernel_mem,
        r.node_seq()[0].next is None,
        r.node_seq()[0].size == (page_count * PAGE_SIZE) % 0x1_0000_0000,
        r.node_seq()[0].flags@ == 3,
        forall|i: int| 1 <= i < r.node_seq().len() ==> is_unused(#[trigger] r.node_seq()[i]),
{
    AllocationHeader::new(kernel_mem, page_count, 16)
}

/// On a fresh heap, one free block at node 0 and every other node unused,
/// allocating a non-empty block and deallocating the address handed out
/// gives the heap back: the list is node 0 alone, a valid free block at the
/// same place, of the same size, with nothing after it, and every other
/// node invalid.
pub proof fn lemma_allocate_then_deallocate(
    h0: AllocationHeader,
    h1: AllocationHeader,
    h2: AllocationHeader,
    size: usize,
    align: usize,
    r: usize,
)
    requires
        h0.wf(),
        h0.chain() == seq![0int],
        h0.node_seq()[0].flags.spec_is_valid(),
        h0.node_seq()[0].flags.spec_is_free(),
        forall|i: int| 1 <= i < h0.node_seq().len() ==> is_unused(#[trigger] h0.node_seq()[i]),
        size > 0,
        align > 0,
        allocation_outcome(h0.node_seq(), h0.chain(), size, align, r, h1.node_seq(), h1.chain()),
        r != 0,
        h1.wf(),
        deallocation_outcome(h1.node_seq(), h1.chain(), r, h2.node_seq(), h2.chain()),
        h2.wf(),
    ensures
        h2.chain() == seq![0int],
        h2.node_seq().len() == h0.node_seq().len(),
        h2.node_seq()[0].ptr == h0.node_seq()[0].ptr,
        h2.node_seq()[0].size == h0.node_seq()[0].size,
        h2.node_seq()[0].next is None,
        h2.node_seq()[0].flags.spec_is_valid(),
        h2.node_seq()[0].flags.spec_is_free(),
        forall|i: int| 1 <= i < h2.node_seq().len() ==> !(#[trigger] h2.node_seq()[i]).flags.spec_is_valid(),
{
    let n0 = h0.node_seq();
    let c0 = h0.chain();
    let n1 = h1.node_seq();
    let c1 = h1.chain();
    let n2 = h2.node_seq();
    let c2 = h2.chain();
    let q = n0[0].ptr;
    lemma_flag_bits(n0[0].flags@);
    // the allocation took node 0, the only block
    assert(exists|k: int| is_first_fit(n0, c0, size, align, k));
    let k = choose|k: int| is_first_fit(n0, c0, size, align, k);
    assert(k == 0);
    let n = n0[0];
    let pad = padding_for(n.ptr, align);
    let space = size + pad;
    assert(r == q + pad);
    lemma_flag_bits(n.flags@ & !2u32);
    // the deallocation finds node 0 again
    if n.size > space {
        let f = choose|f: int| is_first_invalid(n0, f);
        assert(c1 == seq![0int].insert(1, f));
        assert(c1[0] == 0);
        assert(n1[0].ptr == q && n1[0].size == space);
        assert(is_first_holder(n1, c1, r, 0));
    } else {
        assert(c1 == seq![0int]);
        assert(c1[0] == 0);
        assert(n1[0].ptr == q && n1[0].size == n.size);
        assert(is_first_holder(n1, c1, r, 0));
    }
    assert(exists|k2: int| is_first_holder(n1, c1, r, k2));
    let k2 = choose|k2: int| is_first_holder(n1, c1, r, k2);
    assert(k2 == 0) by {
        if k2 != 0 {
            assert(c1[0] == 0);
            assert(!(n1[c1[0]].ptr <= r < n1[c1[0]].ptr + n1[c1[0]].size));
        }
    }
    let freed = choose|freed: Seq<AllocationNode>|
        same_but(freed, n1, 0, 0) && node_is(freed[0], n1[0].ptr as int, n1[0].next, n1[0].size as int, n1[0].flags@ | 2u32)
            && #[trigger] combined(freed, c1, n2, c2);
    assert(same_but(freed, n1, 0, 0) && combined(freed, c1, n2, c2));
    lemma_flag_bits(n1[0].flags@);
    assert(freed[0].flags.spec_is_valid() && freed[0].flags.spec_is_free());
    if n.size > space {
        let f = choose|f: int| is_first_invalid(n0, f);
        assert(is_first_invalid(n0, 1)) by {
            lemma_flag_values();
            assert(is_unused(n0[1]));
        }
        assert(f == 1) by {
            if f > 1 {
                assert(n0[1].flags.spec_is_valid());
                lemma_flag_values();
            }
        }
        assert(c1 == seq![0int, 1int]);
        assert(freed[1] == n1[1]);
        lemma_flag_values();
        assert(freed[1].flags.spec_is_free());
        assert(merged_away(freed, c1, 1));
        assert(!merged_away(freed, c1, 0));
        assert(c1.drop_last() =~= seq![0int]);
        assert(seq![0int].drop_last() =~= Seq::<int>::empty());
        assert(kept(freed, seq![0int]) == seq![0int]);
        assert(c2 == seq![0int]);
        let bl = blocks(freed, c1);
        assert(bl =~= Seq::<Block>::empty().push(bl[0]).push(bl[1]));
        lemma_coalesce_push(Seq::<Block>::empty(), bl[0]);
        lemma_coalesce_push(Seq::<Block>::empty().push(bl[0]), bl[1]);
        assert(coalesce(Seq::<Block>::empty()) == Seq::<Block>::empty());
        assert(coalesce(bl) == seq![(q as int, n.size as int, true)]);
        assert(blocks(n2, c2)[0] == (q as int, n.size as int, true));
        assert forall|i: int| 1 <= i < n2.len() implies !(#[trigger] n2[i]).flags.spec_is_valid() by {
            if i == 1 {
                assert(invalidated(n2, freed, c1[1]));
                lemma_flag_bits(freed[1].flags@);
            } else {
                assert(!c1.contains(i));
                assert(n2[i] == freed[i]);
                assert(freed[i] == n1[i]);
                assert(n1[i] == n0[i]);
                assert(is_unused(n0[i]));
                lemma_flag_values();
            }
        }
    } else {
        assert(c1 == seq![0int]);
        assert(!merged_away(freed, c1, 0));
        assert(seq![0int].drop_last() =~= Seq::<int>::empty());
        assert(kept(freed, seq![0int]) == seq![0int]);
        assert(c2 == seq![0int]);
        let bl = blocks(freed, c1);
        assert(bl =~= Seq::<Block>::empty().push(bl[0]));
        lemma_coalesce_push(Seq::<Block>::empty(), bl[0]);
        assert(coalesce(Seq::<Block>::empty()) == Seq::<Block>::empty());
        assert(coalesce(bl) =~= bl);
        assert(blocks(n2, c2)[0] == bl[0]);
        assert forall|i: int| 1 <= i < n2.len() implies !(#[trigger] n2[i]).flags.spec_is_valid() by {
            assert(!c1.contains(i));
            assert(n2[i] == freed[i]);
            assert(freed[i] == n1[i]);
            assert(n1[i] == n0[i]);
            assert(is_unused(n0[i]));
            lemma_flag_values();
        }
    }
    assert(n2[0].flags == freed[0].flags);
    assert(c2.last() == 0);
}

/// The bytes the blocks cover together.
pub open spec fn blocks_size(s: Seq<Block>) -> int
    decreases s.len(),
{
    if s.len() == 0 {
        0
    } else {
        blocks_size(s.drop_last()) + s.last().1
    }
}

/// Merging the free blocks leaves no two free blocks side by side, keeps
/// the bytes covered, and keeps where the first block starts.
pub proof fn lemma_coalesce(s: Seq<Block>)
    ensures
        forall|i: int| 0 <= i < coalesce(s).len() - 1 ==> !(#[trigger] coalesce(s)[i].2 && coalesce(s)[i + 1].2),
        blocks_size(coalesce(s)) == blocks_size(s),
        coalesce(s).len() <= s.len(),
        s.len() > 0 ==> coalesce(s).len() > 0 && coalesce(s)[0].0 == s[0].0,
    decreases s.len(),
{
    if s.len() > 0 {
        let r = coalesce(s.drop_last());
        let b = s.last();
        lemma_coalesce(s.drop_last());
        if r.len() > 0 && b.2 && r.last().2 {
            let r2 = r.update(r.len() - 1, (r.last().0, r.last().1 + b.1, true));
            assert(r2.drop_last() =~= r.drop_last());
            assert forall|i: int| 0 <= i < r2.len() - 1 implies !(#[trigger] r2[i].2 && r2[i + 1].2) by {
                assert(r2[i] == r[i]);
                if i + 1 < r2.len() - 1 {
                    assert(r2[i + 1] == r[i + 1]);
                }
            }
            if r.len() > 1 {
                assert(r2[0] == r[0]);
            }
        } else {
            let r2 = r.push(b);
            assert(r2.drop_last() =~= r);
            assert forall|i: int| 0 <= i < r2.len() - 1 implies !(#[trigger] r2[i].2 && r2[i + 1].2) by {
                assert(r2[i] == r[i]);
                if i + 1 < r2.len() - 1 {
                    assert(r2[i + 1] == r[i + 1]);
                }
            }
            if s.len() == 1 {
                assert(s.drop_last().len() == 0);
            }
        }
    }
}

/// The address an allocation hands out is aligned: moving `ptr` up by its
/// padding gives a multiple of `align`, less than `align` bytes on.
pub proof fn lemma_padding_aligns(ptr: usize, align: usize)
    requires
        align > 0,
    ensures
        (ptr + padding_for(ptr, align)) % (align as int) == 0,
        0 <= padding_for(ptr, align) < align,
{
    let a = align as int;
    let m = ptr as int % a;
    assert(0 <= m < a);
    if m == 0 {
        assert((a - 0) % a == 0) by (nonlinear_arith)
            requires
                a > 0,
        ;
        assert(padding_for(ptr, align) == 0);
    } else {
        assert((a - m) % a == a - m) by (nonlinear_arith)
            requires
                0 < m < a,
        ;
        assert((ptr + (a - m)) % a == 0) by (nonlinear_arith)
            requires
                m == ptr as int % a,
                a > 0,
        ;
    }
}

} // verus!
