use vstd::prelude::*;

use crate::block_allocator::map::AllocationMap;
use crate::block_allocator::table::{
    BlockAllocationTable,
    clear_run,
    entry_first,
    first_free_run,
    has_free_run,
    lemma_first_free_run_unique,
    lemma_allocate_keeps_live_disjoint,
    lemma_release_keeps_live,
    lemma_release_after_mark,
    live_allocations,
    mark_run,
    release_run,
};

verus! {

/// Number of blocks of `block_size` bytes that hold `bytes` bytes.
pub open spec fn blocks_for(bytes: int, block_size: int) -> int {
    bytes / block_size + if bytes % block_size > 0 { 1int } else { 0int }
}

/// The position at which an allocation of `count` blocks is placed: the
/// lowest one at which `count` free entries begin.
pub open spec fn placement(entries: Seq<u8>, count: int) -> int {
    choose|p: int| first_free_run(entries, count, p)
}

/// Hands out memory in blocks of `block_size` bytes from the area that starts
/// at address `pointer`, one table entry per block.
pub struct BlockAllocator<T: AllocationMap> {
    pub table: BlockAllocationTable<T>,
    pub block_size: usize,
    pub pointer: usize,
}

impl<T: AllocationMap> BlockAllocator<T> {
    /// The area lies wholly within the address space.
    pub open spec fn area_fits(&self) -> bool {
        self.pointer + self.block_size * self.table@.len() <= usize::MAX
    }

    /// The area has a block size and lies wholly within the address space.
    pub open spec fn fits(&self) -> bool {
        &&& self.block_size > 0
        &&& self.area_fits()
    }

    /// Address at which the area ends (one past its last byte).
    pub open spec fn area_end(&self) -> int {
        self.pointer + self.block_size * self.table@.len()
    }

    /// The area holds `address`.
    pub open spec fn in_area(&self, address: int) -> bool {
        self.pointer <= address < self.area_end()
    }

    /// Block that holds `address`, for an address in the area.
    pub open spec fn block_index(&self, address: int) -> int {
        (address - self.pointer) / (self.block_size as int)
    }

    pub fn new(table: BlockAllocationTable<T>, pointer: usize, block_size: usize) -> (r: Self)
        ensures
            r.table@ == table@,
            r.pointer == pointer,
            r.block_size == block_size,
    {
        Self { table, pointer, block_size }
    }

    /// Number of blocks needed for `bytes` bytes (rounded up).
    pub fn size_to_blocks(&self, bytes: usize) -> (r: usize)
        requires
            self.block_size > 0,
        ensures
            r == blocks_for(bytes as int, self.block_size as int),
    {
        let mut count = bytes / self.block_size;
        if bytes % self.block_size > 0 {
            proof {
                let b = self.block_size as int;
                let n = bytes as int;
                assert(b >= 2);
                assert(n / b <= n / 2) by (nonlinear_arith)
                    requires
                        b >= 2,
                        n >= 0,
                ;
            }
            count += 1;
        }
        count
    }

    /// Block that holds the address `ptr`, or `None` outside the area.
    pub fn address_to_position(&self, ptr: usize) -> (r: Option<usize>)
        requires
            self.area_fits(),
        ensures
            self.in_area(ptr as int) ==> r is Some && r->0 == self.block_index(ptr as int) && r->0
                < self.table@.len(),
            !self.in_area(ptr as int) ==> r is None,
    {
        let base = self.pointer;
        let address = ptr;
        let count = self.blocks_count();
        proof {
            assert(0 <= self.block_size * count) by (nonlinear_arith)
                requires
                    self.block_size >= 0,
                    count >= 0,
            ;
        }
        if !(base <= address && address < base + self.block_size * count) {
            return None;
        }
        proof {
            if self.block_size == 0 {
                assert(self.block_size * count == 0);
            }
        }
        let r = (address - base) / self.block_size;
        proof {
            lemma_offset_in_block(
                (address - base) as int,
                self.block_size as int,
                count as int,
            );
        }
        Some(r)
    }

    /// Address of the first byte of block `position`.
    pub fn position_to_address(&self, position: usize) -> (r: usize)
        requires
            self.pointer + position * self.block_size <= usize::MAX,
        ensures
            r == self.pointer + position * self.block_size,
    {
        let offset = position * self.block_size;
        self.pointer + offset
    }

    /// Number of blocks in the area.
    pub fn blocks_count(&self) -> (r: usize)
        ensures
            r == self.table@.len(),
    {
        self.table.size()
    }

    /// Allocates room for `size` bytes: the lowest run of free blocks that
    /// holds them. Returns its address, or `None` for a size of zero or where
    /// no such run is free.
    pub fn allocate(&mut self, size: usize) -> (r: Option<usize>)
        requires
            old(self).fits(),
        ensures
            final(self).pointer == old(self).pointer,
            final(self).block_size == old(self).block_size,
            ({
                let blocks = blocks_for(size as int, old(self).block_size as int);
                let p = placement(old(self).table@, blocks);
                match r {
                    Some(a) => {
                        &&& blocks > 0
                        &&& first_free_run(old(self).table@, blocks, p)
                        &&& a == old(self).pointer + p * old(self).block_size
                        &&& a + blocks * old(self).block_size <= old(self).area_end()
                        &&& final(self).table@ == mark_run(old(self).table@, p, blocks)
                    },
                    None => {
                        &&& blocks == 0 || !has_free_run(old(self).table@, blocks)
                        &&& final(self).table@ == old(self).table@
                    },
                }
            }),
    {
        let blocks = self.size_to_blocks(size);
        let ghost old_entries = self.table@;
        let position = match self.table.allocate(blocks) {
            Some(p) => p,
            None => return None,
        };
        proof {
            let p = placement(old_entries, blocks as int);
            assert(first_free_run(old_entries, blocks as int, position as int));
            assert(first_free_run(old_entries, blocks as int, p));
            lemma_first_free_run_unique(old_entries, blocks as int, p, position as int);
            lemma_block_address_in_area(
                self.pointer as int,
                self.block_size as int,
                old_entries.len() as int,
                position as int,
            );
            let b = self.block_size as int;
            let n = old_entries.len() as int;
            let q = position as int;
            let k = blocks as int;
            assert(q * b + k * b <= b * n) by (nonlinear_arith)
                requires
                    b > 0,
                    q >= 0,
                    k > 0,
                    q + k <= n,
            ;
        }
        Some(self.position_to_address(position))
    }

    /// Releases the allocation whose first block holds `ptr`. An address
    /// outside the area, or in a block that does not start an allocation,
    /// changes nothing.
    pub fn deallocate(&mut self, ptr: usize)
        requires
            old(self).area_fits(),
        ensures
            final(self).pointer == old(self).pointer,
            final(self).block_size == old(self).block_size,
            final(self).table@ == if old(self).in_area(ptr as int) && entry_first(
                old(self).table@[old(self).block_index(ptr as int)],
            ) {
                release_run(old(self).table@, old(self).block_index(ptr as int))
            } else {
                old(self).table@
            },
    {
        let position = match self.address_to_position(ptr) {
            Some(p) => p,
            None => return ,
        };
        let _ = self.table.deallocate(position);
    }
}

/// The address range `[pointer + start * block_size, pointer + (start + count)
/// * block_size)` of a new allocation lies inside the area and shares no byte
/// with the address range of any live allocation; the new run then joins the
/// live allocations. Applied at each call, this keeps all live address
/// ranges pairwise disjoint.
pub proof fn lemma_allocation_disjoint_from_live(
    pointer: int,
    block_size: int,
    entries: Seq<u8>,
    live: Set<(int, int)>,
    start: int,
    count: int,
)
    requires
        block_size > 0,
        live_allocations(entries, live),
        first_free_run(entries, count, start),
        count > 0,
    ensures
        pointer + start * block_size + count * block_size <= pointer + block_size * entries.len(),
        forall|r: (int, int)|
            #[trigger] live.contains(r) ==> pointer + start * block_size + count * block_size
                <= pointer + r.0 * block_size || pointer + r.0 * block_size + r.1 * block_size
                <= pointer + start * block_size,
        live_allocations(mark_run(entries, start, count), live.insert((start, count))),
{
    lemma_allocate_keeps_live_disjoint(entries, live, start, count);
    let n = entries.len() as int;
    assert(start * block_size + count * block_size <= block_size * n) by (nonlinear_arith)
        requires
            block_size > 0,
            start >= 0,
            count > 0,
            start + count <= n,
    ;
    assert forall|r: (int, int)| #[trigger] live.contains(r) implies pointer + start * block_size
        + count * block_size <= pointer + r.0 * block_size || pointer + r.0 * block_size + r.1
        * block_size <= pointer + start * block_size by {
        let (q, c) = r;
        if start + count <= q {
            assert(start * block_size + count * block_size <= q * block_size) by (nonlinear_arith)
                requires
                    block_size > 0,
                    start + count <= q,
            ;
        } else {
            assert(q + c <= start);
            assert(q * block_size + c * block_size <= start * block_size) by (nonlinear_arith)
                requires
                    block_size > 0,
                    q + c <= start,
            ;
        }
    }
}

/// Freeing the address of a live allocation, the one that allocation
/// returned, releases exactly its run: the address lies in the run's first
/// block, that block starts an allocation, and the other live allocations stay
/// in place. With the law above, any sequence of allocations and releases
/// keeps the live address ranges pairwise disjoint.
pub proof fn lemma_deallocation_releases_live(
    pointer: int,
    block_size: int,
    entries: Seq<u8>,
    live: Set<(int, int)>,
    start: int,
    count: int,
)
    requires
        block_size > 0,
        pointer >= 0,
        pointer + block_size * entries.len() <= usize::MAX,
        live_allocations(entries, live),
        live.contains((start, count)),
    ensures
        pointer <= pointer + start * block_size < pointer + block_size * entries.len(),
        (pointer + start * block_size - pointer) / block_size == start,
        entry_first(entries[start]),
        live_allocations(release_run(entries, start), live.remove((start, count))),
{
    lemma_release_keeps_live(entries, live, start, count);
    lemma_block_address_in_area(pointer, block_size, entries.len() as int, start);
}

/// The blocks counted for a size hold it, and one block fewer would not.
pub proof fn lemma_blocks_cover(bytes: int, block_size: int)
    requires
        bytes >= 0,
        block_size > 0,
    ensures
        blocks_for(bytes, block_size) * block_size >= bytes,
        bytes > 0 ==> (blocks_for(bytes, block_size) - 1) * block_size < bytes,
        blocks_for(bytes, block_size) == 0 <==> bytes == 0,
{
    let q = bytes / block_size;
    let r = bytes % block_size;
    vstd::arithmetic::div_mod::lemma_fundamental_div_mod(bytes, block_size);
    vstd::arithmetic::div_mod::lemma_mod_bound(bytes, block_size);
    vstd::arithmetic::div_mod::lemma_div_pos_is_pos(bytes, block_size);
    if r > 0 {
        assert((q + 1) * block_size == q * block_size + block_size) by (nonlinear_arith);
    } else {
        if bytes > 0 {
            assert(q * block_size == bytes);
            assert(q > 0) by (nonlinear_arith)
                requires
                    q * block_size == bytes,
                    bytes > 0,
                    block_size > 0,
                    q >= 0,
            ;
            assert((q - 1) * block_size == q * block_size - block_size) by (nonlinear_arith);
        } else {
            assert(q * block_size == 0);
            assert(q == 0) by (nonlinear_arith)
                requires
                    q * block_size == 0,
                    block_size > 0,
            ;
        }
    }
    assert(q * block_size == block_size * q) by (nonlinear_arith);
}

/// An offset below `block_size * count` lies in one of the `count` blocks.
proof fn lemma_offset_in_block(offset: int, block_size: int, count: int)
    requires
        0 <= offset < block_size * count,
        block_size > 0,
    ensures
        0 <= offset / block_size < count,
{
    assert(0 <= offset / block_size < count) by (nonlinear_arith)
        requires
            0 <= offset < block_size * count,
            block_size > 0,
    ;
}

/// Block `position` of an area of `count` blocks starts inside the area.
proof fn lemma_block_address_in_area(pointer: int, block_size: int, count: int, position: int)
    requires
        0 <= position < count,
        block_size > 0,
        pointer >= 0,
        pointer + block_size * count <= usize::MAX,
    ensures
        pointer <= pointer + position * block_size < pointer + block_size * count,
        (position * block_size) / block_size == position,
{
    assert(position * block_size < block_size * count) by (nonlinear_arith)
        requires
            0 <= position < count,
            block_size > 0,
    ;
    assert(0 <= position * block_size) by (nonlinear_arith)
        requires
            0 <= position,
            block_size > 0,
    ;
    assert((position * block_size) / block_size == position) by (nonlinear_arith)
        requires
            block_size > 0,
    ;
}

/// Freeing the address that an allocation returned releases exactly the
/// blocks it took: the table is as before, with those blocks reset to the
/// default value, so a table whose free blocks were zero is restored.
pub proof fn lemma_alloc_then_dealloc(
    pointer: int,
    block_size: int,
    entries: Seq<u8>,
    blocks: int,
    position: int,
)
    requires
        block_size > 0,
        pointer >= 0,
        pointer + block_size * entries.len() <= usize::MAX,
        blocks > 0,
        first_free_run(entries, blocks, position),
    ensures
        pointer <= pointer + position * block_size < pointer + block_size * entries.len(),
        (pointer + position * block_size - pointer) / block_size == position,
        entry_first(mark_run(entries, position, blocks)[position]),
        release_run(mark_run(entries, position, blocks), position) == clear_run(
            entries,
            position,
            blocks,
        ),
        (forall|i: int| position <= i < position + blocks ==> entries[i] == 0) ==> release_run(
            mark_run(entries, position, blocks),
            position,
        ) == entries,
{
    lemma_block_address_in_area(pointer, block_size, entries.len() as int, position);
    lemma_release_after_mark(entries, position, blocks);
    if forall|i: int| position <= i < position + blocks ==> entries[i] == 0 {
        assert(clear_run(entries, position, blocks) =~= entries);
    }
}

} // verus!
