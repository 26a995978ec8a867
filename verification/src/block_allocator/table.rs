use vstd::prelude::*;

use crate::block_allocator::map::{AllocationMap, TABLE_ENTRY_DEFAULT_VALUE};

verus! {

/// Entry flag: the block belongs to an allocation.
pub const TABLE_ENTRY_FLAG_IS_OCCUPIED: u8 = 1;

/// Entry flag: the block is the first block of its allocation.
pub const TABLE_ENTRY_FLAG_IS_FIRST: u8 = 2;

/// Entry flag: the allocation goes on in the next block.
pub const TABLE_ENTRY_FLAG_HAS_NEXT: u8 = 4;

/// The entry marks a block that belongs to no allocation: its occupied bit
/// (bit 0) is clear.
pub open spec fn entry_free(value: u8) -> bool {
    value % 2 == 0
}

/// The entry marks the first block of an allocation: its first bit (bit 1) is set.
pub open spec fn entry_first(value: u8) -> bool {
    (value / 2) % 2 == 1
}

/// The entry says that its allocation goes on in the next block: its
/// has-next bit (bit 2) is set.
pub open spec fn entry_has_next(value: u8) -> bool {
    (value / 4) % 2 == 1
}

/// The `count` entries starting at `start` lie inside the table and are all free.
pub open spec fn run_is_free(entries: Seq<u8>, start: int, count: int) -> bool {
    &&& 0 <= start
    &&& start + count <= entries.len()
    &&& forall|i: int| start <= i < start + count ==> #[trigger] entry_free(entries[i])
}

/// Some run of `count` free entries exists.
pub open spec fn has_free_run(entries: Seq<u8>, count: int) -> bool {
    exists|start: int| run_is_free(entries, start, count)
}

/// `start` is the lowest position at which `count` free entries begin.
pub open spec fn first_free_run(entries: Seq<u8>, count: int, start: int) -> bool {
    &&& run_is_free(entries, start, count)
    &&& forall|q: int| 0 <= q < start ==> !run_is_free(entries, q, count)
}

/// The free entries that end the table begin at `start`: every entry from
/// `start` on is free, and the one before it, if any, is not.
pub open spec fn trailing_free_run(entries: Seq<u8>, start: int) -> bool {
    &&& 0 <= start < entries.len()
    &&& forall|j: int| start <= j < entries.len() ==> #[trigger] entry_free(entries[j])
    &&& start > 0 ==> !entry_free(entries[start - 1])
}

/// The byte written for the `index`-th block of an allocation of `count` blocks:
/// occupied, first for index 0, with a successor for every block but the last.
pub open spec fn allocated_entry(index: int, count: int) -> u8 {
    (1 + (if index == 0 { 2int } else { 0int }) + (if index < count - 1 { 4int } else { 0int })) as u8
}

/// The table after `count` blocks from `start` are marked as one allocation.
pub open spec fn mark_run(entries: Seq<u8>, start: int, count: int) -> Seq<u8> {
    Seq::new(
        entries.len(),
        |i: int|
            if start <= i < start + count {
                allocated_entry(i - start, count)
            } else {
                entries[i]
            },
    )
}

/// Number of entries that a release starting at `i` clears: it goes on while an
/// entry has a successor, and stops after the first that has none or at the end.
pub open spec fn chain_len(entries: Seq<u8>, i: int) -> nat
    decreases entries.len() - i,
{
    if i < 0 || i >= entries.len() {
        0
    } else if !entry_has_next(entries[i]) {
        1
    } else {
        1 + chain_len(entries, i + 1)
    }
}

/// The table with the `count` entries from `start` reset to the default value.
pub open spec fn clear_run(entries: Seq<u8>, start: int, count: int) -> Seq<u8> {
    Seq::new(
        entries.len(),
        |i: int|
            if start <= i < start + count {
                TABLE_ENTRY_DEFAULT_VALUE
            } else {
                entries[i]
            },
    )
}

/// The table after the allocation whose first block is `start` is released.
pub open spec fn release_run(entries: Seq<u8>, start: int) -> Seq<u8> {
    clear_run(entries, start, chain_len(entries, start) as int)
}

/// Every block of a fresh allocation is occupied, so no run of free blocks
/// in the new table overlaps it: a block is never handed out twice before it
/// is released.
pub proof fn lemma_marked_blocks_occupied(entries: Seq<u8>, start: int, count: int)
    requires
        0 <= start,
        start + count <= entries.len(),
        count > 0,
    ensures
        forall|i: int|
            start <= i < start + count ==> !#[trigger] entry_free(mark_run(entries, start, count)[i]),
        forall|q: int, c: int|
            c > 0 && #[trigger] run_is_free(mark_run(entries, start, count), q, c) ==> q + c <= start
                || start + count <= q,
{
    let m = mark_run(entries, start, count);
    assert forall|i: int| start <= i < start + count implies !#[trigger] entry_free(m[i]) by {
        lemma_allocated_entry_flags(i - start, count);
    }
    assert forall|q: int, c: int|
        c > 0 && #[trigger] run_is_free(m, q, c) implies q + c <= start || start + count <= q by {
        if !(q + c <= start || start + count <= q) {
            let i = if q < start { start } else { q };
            assert(start <= i < start + count);
            assert(q <= i < q + c);
            assert(entry_free(m[i]));
        }
    }
}

/// Entry `i` fits the chain layout: a free entry is zero; an occupied entry
/// that is not first follows an occupied entry with a successor; an occupied
/// entry with a successor is followed by an occupied entry that is not first.
pub open spec fn entry_in_chain(entries: Seq<u8>, i: int) -> bool {
    &&& entry_free(entries[i]) ==> entries[i] == TABLE_ENTRY_DEFAULT_VALUE
    &&& !entry_free(entries[i]) && !entry_first(entries[i]) ==> i > 0 && !entry_free(
        entries[i - 1],
    ) && entry_has_next(entries[i - 1])
    &&& !entry_free(entries[i]) && entry_has_next(entries[i]) ==> i + 1 < entries.len()
        && !entry_free(entries[i + 1]) && !entry_first(entries[i + 1])
}

/// The table is a sequence of whole allocations and zero entries: every
/// allocation starts with a first entry and runs through successors to an
/// entry without one.
pub open spec fn chains_well_formed(entries: Seq<u8>) -> bool {
    forall|i: int| 0 <= i < entries.len() ==> #[trigger] entry_in_chain(entries, i)
}

/// A table of zero entries is well formed.
pub proof fn lemma_clean_table_well_formed(entries: Seq<u8>)
    requires
        forall|i: int| 0 <= i < entries.len() ==> entries[i] == TABLE_ENTRY_DEFAULT_VALUE,
    ensures
        chains_well_formed(entries),
{
    assert forall|i: int| 0 <= i < entries.len() implies #[trigger] entry_in_chain(entries, i) by {
        assert(entries[i] == 0);
    }
}

/// Allocating keeps the table well formed.
pub proof fn lemma_mark_keeps_chains(entries: Seq<u8>, start: int, count: int)
    requires
        chains_well_formed(entries),
        run_is_free(entries, start, count),
        count > 0,
    ensures
        chains_well_formed(mark_run(entries, start, count)),
{
    let m = mark_run(entries, start, count);
    assert forall|i: int| 0 <= i < m.len() implies #[trigger] entry_in_chain(m, i) by {
        if start <= i < start + count {
            lemma_allocated_entry_flags(i - start, count);
            if i > start {
                lemma_allocated_entry_flags(i - 1 - start, count);
            }
            if i < start + count - 1 {
                lemma_allocated_entry_flags(i + 1 - start, count);
            }
        } else {
            assert(entry_in_chain(entries, i));
            assert(m[i] == entries[i]);
            if !entry_free(entries[i]) && !entry_first(entries[i]) {
                assert(entry_in_chain(entries, i));
                if i - 1 == start + count - 1 {
                    assert(entry_free(entries[i - 1]));
                }
                assert(m[i - 1] == entries[i - 1]);
            }
            if !entry_free(entries[i]) && entry_has_next(entries[i]) {
                if i + 1 == start {
                    assert(entry_free(entries[i + 1]));
                }
                assert(m[i + 1] == entries[i + 1]);
            }
        }
    }
}

/// In a well-formed table, the release from an occupied entry stays inside
/// the table and ends at an entry without a successor.
proof fn lemma_chain_ends(entries: Seq<u8>, k: int)
    requires
        chains_well_formed(entries),
        0 <= k < entries.len(),
        !entry_free(entries[k]),
    ensures
        chain_len(entries, k) >= 1,
        k + chain_len(entries, k) <= entries.len(),
        !entry_has_next(entries[k + chain_len(entries, k) - 1]),
    decreases entries.len() - k,
{
    assert(entry_in_chain(entries, k));
    if entry_has_next(entries[k]) {
        lemma_chain_ends(entries, k + 1);
    }
}

/// Releasing an allocation keeps the table well formed.
pub proof fn lemma_release_keeps_chains(entries: Seq<u8>, start: int)
    requires
        chains_well_formed(entries),
        0 <= start < entries.len(),
        entry_first(entries[start]),
    ensures
        chains_well_formed(release_run(entries, start)),
{
    assert(entry_in_chain(entries, start));
    assert(!entry_free(entries[start]));
    lemma_chain_ends(entries, start);
    let n = chain_len(entries, start) as int;
    let r = release_run(entries, start);
    assert forall|i: int| 0 <= i < r.len() implies #[trigger] entry_in_chain(r, i) by {
        if start <= i < start + n {
            assert(r[i] == 0);
        } else {
            assert(entry_in_chain(entries, i));
            assert(r[i] == entries[i]);
            if !entry_free(entries[i]) && !entry_first(entries[i]) {
                if i - 1 >= start && i - 1 < start + n {
                    assert(i - 1 == start + n - 1);
                }
                assert(r[i - 1] == entries[i - 1]);
            }
            if !entry_free(entries[i]) && entry_has_next(entries[i]) {
                assert(r[i + 1] == entries[i + 1]);
            }
        }
    }
}

/// There is only one lowest run.
pub proof fn lemma_first_free_run_unique(entries: Seq<u8>, count: int, p: int, q: int)
    requires
        first_free_run(entries, count, p),
        first_free_run(entries, count, q),
    ensures
        p == q,
{
    if p < q {
        assert(!run_is_free(entries, p, count));
    } else if q < p {
        assert(!run_is_free(entries, q, count));
    }
}

/// Bookkeeping of which blocks are allocated, kept in an allocation map.
pub struct BlockAllocationTable<T: AllocationMap> {
    alloc_map: T,
}

impl<T: AllocationMap> View for BlockAllocationTable<T> {
    type V = Seq<u8>;

    closed spec fn view(&self) -> Seq<u8> {
        self.alloc_map@
    }
}

/// What the bits of the entries that an allocation writes say.
proof fn lemma_allocated_entry_flags(index: int, count: int)
    requires
        0 <= index < count,
    ensures
        !entry_free(allocated_entry(index, count)),
        entry_first(allocated_entry(index, count)) == (index == 0),
        entry_has_next(allocated_entry(index, count)) == (index < count - 1),
{
    let v = allocated_entry(index, count);
    assert(v == 7 || v == 5 || v == 3 || v == 1);
}

/// In a freshly marked allocation, the release that starts at its block `start + j`
/// clears the remaining `count - j` blocks.
proof fn lemma_chain_len_of_marked(entries: Seq<u8>, start: int, count: int, j: int)
    requires
        0 <= start,
        start + count <= entries.len(),
        0 <= j < count,
    ensures
        chain_len(mark_run(entries, start, count), start + j) == count - j,
    decreases count - j,
{
    let m = mark_run(entries, start, count);
    lemma_allocated_entry_flags(j, count);
    assert(m[start + j] == allocated_entry(j, count));
    if j < count - 1 {
        lemma_chain_len_of_marked(entries, start, count, j + 1);
    }
}

/// Releasing an allocation right after it was made clears exactly its blocks.
pub proof fn lemma_release_after_mark(entries: Seq<u8>, start: int, count: int)
    requires
        count > 0,
        run_is_free(entries, start, count),
    ensures
        entry_first(mark_run(entries, start, count)[start]),
        chain_len(mark_run(entries, start, count), start) == count,
        release_run(mark_run(entries, start, count), start) == clear_run(entries, start, count),
{
    lemma_allocated_entry_flags(0, count);
    lemma_chain_len_of_marked(entries, start, count, 0);
    let m = mark_run(entries, start, count);
    assert(release_run(m, start) =~= clear_run(entries, start, count));
}

/// The `count` blocks from `start` are one allocation of the table: its
/// first entry has the first flag, the release from there clears exactly
/// these blocks, and all of them are occupied.
pub open spec fn allocation_at(entries: Seq<u8>, start: int, count: int) -> bool {
    &&& count > 0
    &&& 0 <= start
    &&& start + count <= entries.len()
    &&& entry_first(entries[start])
    &&& chain_len(entries, start) == count
    &&& forall|i: int| start <= i < start + count ==> !#[trigger] entry_free(entries[i])
}

/// Two runs `(start, count)` of blocks share no block.
pub open spec fn runs_disjoint(a: (int, int), b: (int, int)) -> bool {
    a.0 + a.1 <= b.0 || b.0 + b.1 <= a.0
}

/// `live` holds the allocations handed out and not yet released: each is an
/// allocation of the table, and no two of them share a block.
pub open spec fn live_allocations(entries: Seq<u8>, live: Set<(int, int)>) -> bool {
    &&& forall|r: (int, int)| #[trigger] live.contains(r) ==> allocation_at(entries, r.0, r.1)
    &&& forall|r: (int, int), q: (int, int)|
        #[trigger] live.contains(r) && #[trigger] live.contains(q) && r != q ==> runs_disjoint(r, q)
}

/// The release from `start` reads only the blocks it clears: a table that
/// agrees on them releases the same blocks.
proof fn lemma_chain_len_local(a: Seq<u8>, b: Seq<u8>, start: int, count: int)
    requires
        a.len() == b.len(),
        0 <= start,
        count >= 1,
        start + count <= a.len(),
        chain_len(a, start) == count,
        forall|i: int| start <= i < start + count ==> a[i] == b[i],
    ensures
        chain_len(b, start) == count,
    decreases count,
{
    assert(a[start] == b[start]);
    if entry_has_next(a[start]) {
        if start + 1 < a.len() {
            assert(chain_len(a, start + 1) == count - 1);
            if count > 1 {
                lemma_chain_len_local(a, b, start + 1, count - 1);
            } else {
                assert(chain_len(a, start + 1) >= 1);
            }
        } else {
            assert(chain_len(a, start + 1) == 0);
            assert(chain_len(b, start + 1) == 0);
        }
    }
}

/// Allocating a free run leaves every live allocation in place, the new run
/// shares no block with any of them, and the new run joins them.
pub proof fn lemma_allocate_keeps_live_disjoint(
    entries: Seq<u8>,
    live: Set<(int, int)>,
    start: int,
    count: int,
)
    requires
        live_allocations(entries, live),
        run_is_free(entries, start, count),
        count > 0,
    ensures
        forall|r: (int, int)| #[trigger] live.contains(r) ==> runs_disjoint(r, (start, count)),
        live_allocations(mark_run(entries, start, count), live.insert((start, count))),
{
    let m = mark_run(entries, start, count);
    assert forall|r: (int, int)| #[trigger] live.contains(r) implies runs_disjoint(r, (start, count)) by {
        assert(allocation_at(entries, r.0, r.1));
        if !runs_disjoint(r, (start, count)) {
            let i = if r.0 < start { start } else { r.0 };
            assert(!entry_free(entries[i]));
            assert(entry_free(entries[i]));
        }
    }
    lemma_release_after_mark(entries, start, count);
    lemma_marked_blocks_occupied(entries, start, count);
    let live2 = live.insert((start, count));
    assert forall|r: (int, int)| #[trigger] live2.contains(r) implies allocation_at(m, r.0, r.1) by {
        if r != (start, count) {
            assert(live.contains(r));
            assert(allocation_at(entries, r.0, r.1));
            assert(runs_disjoint(r, (start, count)));
            assert forall|i: int| r.0 <= i < r.0 + r.1 implies m[i] == entries[i] by {}
            lemma_chain_len_local(entries, m, r.0, r.1);
            assert(m[r.0] == entries[r.0]);
            assert forall|i: int| r.0 <= i < r.0 + r.1 implies !#[trigger] entry_free(m[i]) by {
                assert(m[i] == entries[i]);
            }
        }
    }
    assert forall|r: (int, int), q: (int, int)|
        #[trigger] live2.contains(r) && #[trigger] live2.contains(q) && r != q implies runs_disjoint(
        r,
        q,
    ) by {
        if r == (start, count) {
            assert(live.contains(q));
        } else if q == (start, count) {
            assert(live.contains(r));
        } else {
            assert(live.contains(r) && live.contains(q));
        }
    }
}

/// Releasing a live allocation clears exactly its blocks, and the other live
/// allocations stay in place.
pub proof fn lemma_release_keeps_live(entries: Seq<u8>, live: Set<(int, int)>, start: int, count: int)
    requires
        live_allocations(entries, live),
        live.contains((start, count)),
    ensures
        0 <= start < entries.len(),
        entry_first(entries[start]),
        release_run(entries, start) == clear_run(entries, start, count),
        live_allocations(release_run(entries, start), live.remove((start, count))),
{
    assert(allocation_at(entries, start, count));
    let r2 = release_run(entries, start);
    let live2 = live.remove((start, count));
    assert forall|r: (int, int)| #[trigger] live2.contains(r) implies allocation_at(r2, r.0, r.1) by {
        assert(live.contains(r));
        assert(allocation_at(entries, r.0, r.1));
        assert(runs_disjoint(r, (start, count)));
        assert forall|i: int| r.0 <= i < r.0 + r.1 implies r2[i] == entries[i] by {}
        lemma_chain_len_local(entries, r2, r.0, r.1);
        assert(r2[r.0] == entries[r.0]);
        assert forall|i: int| r.0 <= i < r.0 + r.1 implies !#[trigger] entry_free(r2[i]) by {
            assert(r2[i] == entries[i]);
        }
    }
    assert forall|r: (int, int), q: (int, int)|
        #[trigger] live2.contains(r) && #[trigger] live2.contains(q) && r != q implies runs_disjoint(
        r,
        q,
    ) by {
        assert(live.contains(r) && live.contains(q));
    }
}

impl<T: AllocationMap> BlockAllocationTable<T> {
    /// A table kept in `alloc_map`, whose current entries it takes as they are.
    pub fn with_map(alloc_map: T) -> (r: Self)
        ensures
            r@ == alloc_map@,
    {
        Self { alloc_map }
    }

    /// Number of entries, that is of blocks.
    pub fn entries(&self) -> (r: usize)
        ensures
            r == self@.len(),
    {
        self.alloc_map.size()
    }

    /// Number of blocks that the table keeps.
    pub fn size(&self) -> (r: usize)
        ensures
            r == self@.len(),
    {
        self.alloc_map.size()
    }

    /// Entry of block `position`, or `None` past the end.
    pub fn entry(&self, position: usize) -> (r: Option<u8>)
        ensures
            position < self@.len() ==> r == Some(self@[position as int]),
            position >= self@.len() ==> r is None,
    {
        self.alloc_map.get(position)
    }

    /// Lowest position at which `count` free entries begin. For a count of
    /// zero the search runs to the end of the table and gives the start of
    /// the free run that ends the table, or `None` where the last entry is
    /// not free (or there is none).
    fn find_position(&self, count: usize) -> (r: Option<usize>)
        ensures
            count > 0 ==> match r {
                Some(p) => first_free_run(self@, count as int, p as int),
                None => !has_free_run(self@, count as int),
            },
            count == 0 ==> match r {
                Some(p) => trailing_free_run(self@, p as int),
                None => self@.len() == 0 || !entry_free(self@.last()),
            },
    {
        let ghost s = self@;
        let mut block: Option<usize> = None;
        let mut len = 0usize;
        let size = self.entries();
        let mut index: usize = 0;
        while index < size
            invariant_except_break
                len < count || count == 0,
                len <= index,
                forall|j: int| index - len <= j < index ==> #[trigger] entry_free(s[j]),
                len < index ==> !entry_free(s[index - len - 1]),
                block == (if len == 0 { None::<usize> } else { Some((index - len) as usize) }),
            invariant
                s == self@,
                size == s.len(),
                index <= size,
                count > 0 ==> forall|q: int|
                    0 <= q && q + count <= index ==> !run_is_free(s, q, count as int),
                len == 0 && index > 0 ==> !entry_free(s[index - 1]),
            ensures
                count > 0 ==> len <= count,
                count > 0 && len == count ==> index < size && first_free_run(
                    s,
                    count as int,
                    (index + 1 - count) as int,
                ) && block == Some((index + 1 - count) as usize),
                len < count ==> count > 0 ==> forall|q: int|
                    0 <= q && q + count <= size ==> !run_is_free(s, q, count as int),
                count == 0 ==> index == size && len <= size && block == (if len == 0 {
                    None::<usize>
                } else {
                    Some((size - len) as usize)
                }) && (forall|j: int| size - len <= j < size ==> #[trigger] entry_free(s[j])) && (
                len < size ==> !entry_free(s[size - len - 1])) && (len == 0 && size > 0
                    ==> !entry_free(s[size - 1])),
            decreases size - index,
        {
            let value = match self.alloc_map.get(index) {
                Some(v) => v,
                None => return None,
            };
            if !is_free(value) {
                block = None;
                len = 0;
                proof {
                    assert forall|q: int|
                        0 <= q && q + count <= index + 1 && count > 0 implies !run_is_free(
                        s,
                        q,
                        count as int,
                    ) by {
                        if q + count == index + 1 {
                            assert(!entry_free(s[index as int]));
                        }
                    }
                }
                index += 1;
                continue;
            }
            if block.is_none() {
                block = Some(index);
            }
            len += 1;
            if len == count {
                proof {
                    let p = index + 1 - count;
                    assert forall|i: int| p <= i < p + count implies #[trigger] entry_free(s[i]) by {
                        if i < index {
                            assert(index - (len - 1) <= i);
                        }
                    }
                }
                break;
            }
            proof {
                assert forall|q: int|
                    0 <= q && q + count <= index + 1 && count > 0 implies !run_is_free(
                    s,
                    q,
                    count as int,
                ) by {
                    if q + count == index + 1 {
                        let k = index + 1 - len - 1;
                        assert(q <= k < q + count);
                        assert(!entry_free(s[k]));
                    }
                }
            }
            index += 1;
        }
        if len < count {
            proof {
                if count > 0 {
                    assert forall|q: int| !run_is_free(s, q, count as int) by {
                        if 0 <= q && q + count <= size {
                        }
                    }
                }
            }
            return None;
        }
        proof {
            if count > 0 {
                assert(index + 1 >= count);
            } else {
                assert(size == s.len());
                if len > 0 {
                    let p = size - len;
                    assert forall|j: int| p <= j < s.len() implies #[trigger] entry_free(s[j]) by {}
                    assert(trailing_free_run(s, p));
                } else if size > 0 {
                    assert(s.last() == s[size - 1]);
                }
            }
        }
        block
    }

    /// Marks the `count` entries from `position` as one allocation; refuses
    /// an empty or out-of-range allocation.
    fn mark_allocated(&mut self, position: usize, count: usize) -> (r: bool)
        ensures
            r == (count > 0 && position + count <= old(self)@.len()),
            r ==> final(self)@ == mark_run(old(self)@, position as int, count as int),
            !r ==> final(self)@ == old(self)@,
    {
        if count == 0 {
            return false;
        }
        let size = self.entries();
        if count > size || position > size - count {
            return false;
        }
        let ghost s = self@;
        let last = count - 1;
        for i in 0..count
            invariant
                s.len() == size,
                position + count <= size,
                last == count - 1,
                self@ == Seq::new(
                    s.len(),
                    |k: int|
                        if position <= k < position + i {
                            allocated_entry(k - position, count as int)
                        } else {
                            s[k]
                        },
                ),
        {
            let is_first = i == 0;
            let has_next = i < last;
            let mut value = TABLE_ENTRY_DEFAULT_VALUE | TABLE_ENTRY_FLAG_IS_OCCUPIED;
            if is_first {
                value |= TABLE_ENTRY_FLAG_IS_FIRST;
            }
            if has_next {
                value |= TABLE_ENTRY_FLAG_HAS_NEXT;
            }
            proof {
                let a = allocated_entry(i as int, count as int);
                if is_first {
                    if has_next {
                        assert((0u8 | 1u8 | 2u8) | 4u8 == 7u8) by (bit_vector);
                    } else {
                        assert(0u8 | 1u8 | 2u8 == 3u8) by (bit_vector);
                    }
                } else {
                    if has_next {
                        assert((0u8 | 1u8) | 4u8 == 5u8) by (bit_vector);
                    } else {
                        assert(0u8 | 1u8 == 1u8) by (bit_vector);
                    }
                }
                assert(value == a);
            }
            self.alloc_map.set(position + i, value);
            proof {
                assert(self@ =~= Seq::new(
                    s.len(),
                    |k: int|
                        if position <= k < position + i + 1 {
                            allocated_entry(k - position, count as int)
                        } else {
                            s[k]
                        },
                ));
            }
        }
        proof {
            assert(self@ =~= mark_run(s, position as int, count as int));
        }
        true
    }

    /// Allocates `count` consecutive blocks at the lowest position where they
    /// are all free, and returns that position.
    pub fn allocate(&mut self, count: usize) -> (r: Option<usize>)
        ensures
            match r {
                Some(p) => {
                    &&& count > 0
                    &&& first_free_run(old(self)@, count as int, p as int)
                    &&& final(self)@ == mark_run(old(self)@, p as int, count as int)
                },
                None => {
                    &&& count == 0 || !has_free_run(old(self)@, count as int)
                    &&& final(self)@ == old(self)@
                },
            },
    {
        let position = match self.find_position(count) {
            Some(p) => p,
            None => return None,
        };
        if self.mark_allocated(position, count) {
            return Some(position);
        }
        None
    }

    /// Releases the allocation whose first block is at `position`. Refuses,
    /// changing nothing, a position past the end or one that is not the first
    /// block of an allocation.
    pub fn deallocate(&mut self, position: usize) -> (r: bool)
        ensures
            r == (position < old(self)@.len() && entry_first(old(self)@[position as int])),
            r ==> final(self)@ == release_run(old(self)@, position as int),
            !r ==> final(self)@ == old(self)@,
    {
        let value = match self.alloc_map.get(position) {
            Some(v) => v,
            None => return false,
        };
        // prevent an attempt to release block from arbitrary position
        if !is_first(value) {
            return false;
        }
        let ghost s = self@;
        let size = self.alloc_map.size();
        let mut idx = position;
        loop
            invariant_except_break
                position <= idx <= s.len(),
                self@ == Seq::new(
                    s.len(),
                    |k: int| if position <= k < idx { TABLE_ENTRY_DEFAULT_VALUE } else { s[k] },
                ),
                chain_len(s, position as int) == (idx - position) + chain_len(s, idx as int),
            invariant
                s.len() == self@.len(),
                size == s.len(),
            ensures
                self@ == release_run(s, position as int),
            decreases s.len() - idx,
        {
            let value = match self.alloc_map.get(idx) {
                Some(v) => v,
                None => {
                    proof {
                        assert(self@ =~= release_run(s, position as int));
                    }
                    break;
                },
            };
            self.alloc_map.set(idx, TABLE_ENTRY_DEFAULT_VALUE);
            if !has_next(value) {
                proof {
                    assert(self@ =~= release_run(s, position as int));
                }
                break;
            }
            idx += 1;
            proof {
                assert(self@ =~= Seq::new(
                    s.len(),
                    |k: int| if position <= k < idx { TABLE_ENTRY_DEFAULT_VALUE } else { s[k] },
                ));
            }
        }
        true
    }
}

/// The entry marks a block that belongs to no allocation.
pub fn is_free(value: u8) -> (r: bool)
    ensures
        r == entry_free(value),
{
    assert(value & 1u8 == value % 2) by (bit_vector);
    value & TABLE_ENTRY_FLAG_IS_OCCUPIED == 0
}

/// The entry says that its allocation goes on in the next block.
pub fn has_next(value: u8) -> (r: bool)
    ensures
        r == entry_has_next(value),
{
    assert((value & 4u8 != 0) == ((value / 4) % 2 == 1)) by (bit_vector);
    value & TABLE_ENTRY_FLAG_HAS_NEXT != 0
}

/// The entry marks the first block of an allocation.
pub fn is_first(value: u8) -> (r: bool)
    ensures
        r == entry_first(value),
{
    assert((value & 2u8 != 0) == ((value / 2) % 2 == 1)) by (bit_vector);
    value & TABLE_ENTRY_FLAG_IS_FIRST != 0
}

} // verus!
