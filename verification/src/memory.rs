use vstd::prelude::*;

use crate::platform::address::{PhysicalAddress, VirtualAddress};
use crate::platform::virt_addr::{
    table_index, PDPT_ENTRY_SPAN, PD_ENTRY_SPAN, PML4_ENTRY_SPAN, PT_ENTRY_SPAN,
};

verus! {

/// Entries in a page table.
pub const PAGE_TABLE_SIZE: usize = 512;

/// Entry flag: the entry is present.
pub const PAGE_PRESENT: u64 = 1;

/// Entry flag: the mapped memory is writable.
pub const PAGE_WRITABLE: u64 = 2;

/// Size of a page.
pub const PAGE_SIZE: u64 = 4096;

/// PML4 slot of the kernel's page directory pointer table (the top 512 GiB).
pub const KERNEL_PML4_SLOT: usize = 511;

/// Slot of the kernel's page directory in that table (the 1 GiB from
/// 0xffff_ffff_8000_0000).
pub const KERNEL_PDPT_SLOT: usize = 510;

/// A page table entry of the bootloader's tables.
pub type PageEntry = u64;

/// A page table of the bootloader: 512 raw entries.
pub struct PageTable {
    pub entries: [PageEntry; 512],
}

/// The entry is present (bit 0 set).
pub open spec fn entry_present(entry: u64) -> bool {
    entry % 2 == 1
}

/// Address of the next-level table an entry points to: the entry with its
/// twelve low (flag) bits cleared.
pub open spec fn entry_address(entry: u64) -> u64 {
    (entry - entry % 4096) as u64
}

impl PageTable {
    /// Empties every entry.
    pub fn nullify(&mut self)
        ensures
            forall|i: int| 0 <= i < 512 ==> #[trigger] final(self).entries@[i] == 0,
    {
        for i in 0..PAGE_TABLE_SIZE
            invariant
                forall|j: int| 0 <= j < i ==> #[trigger] self.entries@[j] == 0,
        {
            self.entries[i] = 0;
        }
    }
}

/// The table that `entry` points to, or `None` where it is not present
/// (and a new table has to be made for it).
pub fn next_table(entry: PageEntry) -> (r: Option<u64>)
    ensures
        r == if entry_present(entry) {
            Some(entry_address(entry))
        } else {
            None::<u64>
        },
{
    proof {
        assert(entry & 1 == entry % 2) by (bit_vector);
        assert(entry & !0xFFFu64 == entry - entry % 4096) by (bit_vector);
    }
    if entry & PAGE_PRESENT == 0 {
        None
    } else {
        Some(entry & !0xFFF)
    }
}

/// The entry that links to a table at `address`: present and writable.
pub fn table_link(address: u64) -> (r: PageEntry)
    ensures
        r == address | 3,
        address % 4096 == 0 ==> r == address + 3,
{
    let r = address | PAGE_PRESENT | PAGE_WRITABLE;
    assert(r == address | 3 && (address % 4096 == 0 ==> r == address + 3)) by (bit_vector)
        requires
            r == address | 1u64 | 2u64,
    ;
    r
}

/// The entry that maps a page at physical address `phys` with `flags`.
pub fn page_entry(phys: PhysicalAddress, flags: u64) -> (r: PageEntry)
    ensures
        r == phys@ | flags,
{
    phys.as_u64() | flags
}

/// The `i`-th page of a region: its virtual and its physical address.
pub fn region_page(virt_start: VirtualAddress, phys_start: PhysicalAddress, i: usize) -> (r: (
    VirtualAddress,
    PhysicalAddress,
))
    requires
        virt_start@ + i * PAGE_SIZE <= u64::MAX,
        phys_start@ + i * PAGE_SIZE <= u64::MAX,
    ensures
        r.0@ == virt_start@ + i * PAGE_SIZE,
        r.1@ == phys_start@ + i * PAGE_SIZE,
{
    let offset = i as u64 * 4096;
    (virt_start.add(offset), phys_start.add(offset))
}

/// A table linked at an aligned address is present and points back to it.
pub proof fn lemma_link_then_follow(address: u64)
    requires
        address % 4096 == 0,
        address + 3 <= u64::MAX,
    ensures
        entry_present((address + 3) as u64),
        entry_address((address + 3) as u64) == address,
{
}

/// Span of the region that one entry maps at `level` (0: PML4, 1: page
/// directory pointer table, 2: page directory, 3: page table).
pub open spec fn level_span(level: int) -> u64 {
    if level == 0 {
        PML4_ENTRY_SPAN
    } else if level == 1 {
        PDPT_ENTRY_SPAN
    } else if level == 2 {
        PD_ENTRY_SPAN
    } else {
        PT_ENTRY_SPAN
    }
}

/// Slot of the table at `level` that the walk for `va` reads.
pub open spec fn level_index(va: u64, level: int) -> int {
    table_index(va, level_span(level))
}

/// The table that the walk for `va` reaches at `level`, following present
/// entries down from `root`; `None` where an entry on the way is not present.
/// `tables` holds the tables as memory does: the entries of the table at each
/// address.
pub open spec fn path_table(tables: Map<u64, Seq<u64>>, root: u64, va: u64, level: nat) -> Option<u64>
    decreases level,
{
    if level == 0 {
        Some(root)
    } else {
        match path_table(tables, root, va, (level - 1) as nat) {
            Some(t) => {
                let e = tables[t][level_index(va, level - 1)];
                if tables.dom().contains(t) && entry_present(e) {
                    Some(entry_address(e))
                } else {
                    None
                }
            },
            None => None,
        }
    }
}

/// The entry that maps the page of `va`: its slot in the page table that the
/// walk reaches, or `None` where the walk stops early.
pub open spec fn walk(tables: Map<u64, Seq<u64>>, root: u64, va: u64) -> Option<u64> {
    match path_table(tables, root, va, 3) {
        Some(t) => if tables.dom().contains(t) {
            Some(tables[t][level_index(va, 3)])
        } else {
            None
        },
        None => None,
    }
}

/// `t` is one of the tables that the walk for `va` passes through at the
/// levels up to `level`.
pub open spec fn on_path(tables: Map<u64, Seq<u64>>, root: u64, va: u64, level: nat, t: u64) -> bool {
    exists|k: nat| k <= level && #[trigger] path_table(tables, root, va, k) == Some(t)
}

/// The tables that the walk for `va` passes through up to `level` are all different.
pub open spec fn path_distinct(tables: Map<u64, Seq<u64>>, root: u64, va: u64, level: nat) -> bool {
    forall|i: nat, j: nat|
        i < j <= level ==> #[trigger] path_table(tables, root, va, i) != #[trigger] path_table(
            tables,
            root,
            va,
            j,
        )
}

/// Every table holds 512 entries.
pub open spec fn tables_sized(tables: Map<u64, Seq<u64>>) -> bool {
    forall|t: u64| #[trigger] tables.dom().contains(t) ==> tables[t].len() == PAGE_TABLE_SIZE
}

/// A table whose entries are all empty.
pub open spec fn empty_table() -> Seq<u64> {
    Seq::new(PAGE_TABLE_SIZE as nat, |i: int| 0u64)
}

/// One entry write: `value` into slot `index` of the table at `table`.
#[derive(Clone, Copy, Debug, PartialEq, Eq)]
pub struct EntryWrite {
    pub table: u64,
    pub index: usize,
    pub value: u64,
}

/// What the outside hands the walk: the entry read at the slot it asked
/// for, or the address of a new table whose entries are all empty.
#[derive(Clone, Copy, Debug, PartialEq, Eq)]
pub enum WalkEvent {
    Entry(u64),
    NewTable(u64),
}

/// What the walk asks of the outside next: read a slot, make a new table,
/// or nothing more (the page is mapped).
#[derive(Clone, Copy, Debug, PartialEq, Eq)]
pub enum NextStep {
    Read { table: u64, index: usize },
    Allocate,
    Done,
}

/// Mapping one page: the walk down the tables towards the slot of `virt`,
/// which receives `leaf`; `table` is the table reached at `level`.
#[derive(Clone, Copy)]
pub struct PageWalk {
    pub virt: u64,
    pub leaf: u64,
    pub level: usize,
    pub table: u64,
}

/// The walk, one level down into the table at `next`, after `writes`: at the
/// page table it writes the page's entry and is done.
pub open spec fn descend(w: PageWalk, next: u64, writes: Seq<EntryWrite>) -> (PageWalk, Seq<EntryWrite>, NextStep) {
    let w2 = PageWalk { virt: w.virt, leaf: w.leaf, level: (w.level + 1) as usize, table: next };
    if w.level + 1 == 3 {
        (
            w2,
            writes.push(EntryWrite { table: next, index: level_index(w.virt, 3) as usize, value: w.leaf }),
            NextStep::Done,
        )
    } else {
        (w2, writes, NextStep::Read { table: next, index: level_index(w.virt, w.level + 1) as usize })
    }
}

/// One step of the walk: a present entry is followed; an empty one asks for
/// a new table, which is linked into the slot (present and writable) and
/// followed.
pub open spec fn walk_step(w: PageWalk, event: WalkEvent) -> (PageWalk, Seq<EntryWrite>, NextStep) {
    match event {
        WalkEvent::Entry(e) => if entry_present(e) {
            descend(w, entry_address(e), Seq::empty())
        } else {
            (w, Seq::empty(), NextStep::Allocate)
        },
        WalkEvent::NewTable(a) => descend(
            w,
            a,
            seq![EntryWrite { table: w.table, index: level_index(w.virt, w.level as int) as usize, value: a | 3 }],
        ),
    }
}

/// The slot that the walk for `virt` reads at `level`.
pub fn slot_index(virt: VirtualAddress, level: usize) -> (r: usize)
    requires
        level < 4,
    ensures
        r == level_index(virt@, level as int),
        r < PAGE_TABLE_SIZE,
{
    if level == 0 {
        virt.pml4_index()
    } else if level == 1 {
        virt.pdpt_index()
    } else if level == 2 {
        virt.pd_index()
    } else {
        virt.pt_index()
    }
}

impl PageWalk {
    /// Starts mapping the page at `virt` to the entry `leaf`, from the PML4
    /// at `root`: the first thing to do is to read the PML4 slot.
    pub fn start(root: u64, virt: VirtualAddress, leaf: u64) -> (r: (PageWalk, NextStep))
        ensures
            r.0 == (PageWalk { virt: virt@, leaf, level: 0, table: root }),
            r.1 == (NextStep::Read { table: root, index: level_index(virt@, 0) as usize }),
    {
        let index = slot_index(virt, 0);
        (PageWalk { virt: virt.as_u64(), leaf, level: 0, table: root }, NextStep::Read { table: root, index })
    }

    /// Starts mapping page `i` of the region at `virt_start`, backed by the
    /// memory at `phys_start`, with `flags`.
    pub fn region_page(root: u64, virt_start: VirtualAddress, phys_start: PhysicalAddress, i: usize, flags: u64) -> (r: (PageWalk, NextStep))
        requires
            virt_start@ + i * PAGE_SIZE <= u64::MAX,
            phys_start@ + i * PAGE_SIZE <= u64::MAX,
        ensures
            r.0.virt == virt_start@ + i * PAGE_SIZE,
            r.0.leaf == ((phys_start@ + i * PAGE_SIZE) as u64 | flags),
            r.0.level == 0,
            r.0.table == root,
            r.1 == (NextStep::Read { table: root, index: level_index(r.0.virt, 0) as usize }),
    {
        let (virt, phys) = region_page(virt_start, phys_start, i);
        PageWalk::start(root, virt, page_entry(phys, flags))
    }

    /// Takes what the outside answered to the last request and says what to
    /// write and what to do next.
    pub fn step(&mut self, event: WalkEvent) -> (r: (Vec<EntryWrite>, NextStep))
        requires
            old(self).level < 3,
        ensures
            ({
                let (w2, writes, next) = walk_step(*old(self), event);
                &&& *final(self) == w2
                &&& r.0@ == writes
                &&& r.1 == next
            }),
    {
        let slot = slot_index(VirtualAddress::new(self.virt), self.level);
        let mut writes: Vec<EntryWrite> = Vec::new();
        let next = match event {
            WalkEvent::Entry(e) => match next_table(e) {
                Some(address) => address,
                None => return (writes, NextStep::Allocate),
            },
            WalkEvent::NewTable(a) => {
                writes.push(EntryWrite { table: self.table, index: slot, value: table_link(a) });
                a
            },
        };
        self.level = self.level + 1;
        self.table = next;
        if self.level == 3 {
            let index = slot_index(VirtualAddress::new(self.virt), 3);
            writes.push(EntryWrite { table: next, index, value: self.leaf });
            (writes, NextStep::Done)
        } else {
            let index = slot_index(VirtualAddress::new(self.virt), self.level);
            (writes, NextStep::Read { table: next, index })
        }
    }
}

/// The tables after `writes`, carried out in order.
pub open spec fn apply_writes(tables: Map<u64, Seq<u64>>, writes: Seq<EntryWrite>) -> Map<u64, Seq<u64>>
    decreases writes.len(),
{
    if writes.len() == 0 {
        tables
    } else {
        let before = apply_writes(tables, writes.drop_last());
        let w = writes.last();
        before.insert(w.table, before[w.table].update(w.index as int, w.value))
    }
}

/// The tables after the outside answered `event` (a new table starts empty)
/// and carried out `writes`.
pub open spec fn after_step(tables: Map<u64, Seq<u64>>, event: WalkEvent, writes: Seq<EntryWrite>) -> Map<u64, Seq<u64>> {
    match event {
        WalkEvent::NewTable(a) => apply_writes(tables.insert(a, empty_table()), writes),
        WalkEvent::Entry(_) => apply_writes(tables, writes),
    }
}

/// The walk stands at `w.table`, which it reached from `root` through
/// tables that are all different.
pub open spec fn walk_inv(tables: Map<u64, Seq<u64>>, root: u64, w: PageWalk) -> bool {
    &&& w.level <= 3
    &&& tables_sized(tables)
    &&& tables.dom().contains(w.table)
    &&& path_table(tables, root, w.virt, w.level as nat) == Some(w.table)
    &&& path_distinct(tables, root, w.virt, w.level as nat)
}

/// `event` answers the walk's request truthfully: an entry is the one in the
/// slot the walk reads, and a present one leads to a table that exists and
/// that the walk has not passed yet; a new table comes for an empty slot, at
/// a page boundary where no table was.
pub open spec fn answers(tables: Map<u64, Seq<u64>>, root: u64, w: PageWalk, event: WalkEvent) -> bool {
    match event {
        WalkEvent::Entry(e) => {
            &&& e == tables[w.table][level_index(w.virt, w.level as int)]
            &&& entry_present(e) ==> tables.dom().contains(entry_address(e)) && !on_path(
                tables,
                root,
                w.virt,
                w.level as nat,
                entry_address(e),
            )
        },
        WalkEvent::NewTable(a) => {
            &&& !entry_present(tables[w.table][level_index(w.virt, w.level as int)])
            &&& !tables.dom().contains(a)
            &&& a % 4096 == 0
        },
    }
}

/// The slot that the walk reads at `k` holds the same entry in `t2` as in `t1`.
pub open spec fn slot_kept(t1: Map<u64, Seq<u64>>, t2: Map<u64, Seq<u64>>, root: u64, va: u64, k: nat) -> bool {
    let t = path_table(t1, root, va, k)->0;
    &&& t2.dom().contains(t)
    &&& t2[t][level_index(va, k as int)] == t1[t][level_index(va, k as int)]
}

/// Where the slots that a walk reads keep their entries, the walk passes
/// through the same tables.
proof fn lemma_path_kept(t1: Map<u64, Seq<u64>>, t2: Map<u64, Seq<u64>>, root: u64, va: u64, n: nat)
    requires
        path_table(t1, root, va, n) is Some,
        forall|k: nat| k < n ==> #[trigger] slot_kept(t1, t2, root, va, k),
    ensures
        forall|k: nat| k <= n ==> #[trigger] path_table(t2, root, va, k) == path_table(t1, root, va, k),
    decreases n,
{
    if n > 0 {
        let m = (n - 1) as nat;
        lemma_path_kept(t1, t2, root, va, m);
        assert(slot_kept(t1, t2, root, va, m));
        assert(path_table(t2, root, va, m) == path_table(t1, root, va, m));
        assert(path_table(t2, root, va, n) == path_table(t1, root, va, n));
    }
}

/// A walk that reaches level `n` passed through a table at every level
/// before it, each of them one of the tables.
proof fn lemma_path_prefix(tables: Map<u64, Seq<u64>>, root: u64, va: u64, n: nat)
    requires
        path_table(tables, root, va, n) is Some,
    ensures
        forall|k: nat| k <= n ==> (#[trigger] path_table(tables, root, va, k)) is Some,
        forall|k: nat|
            k < n ==> tables.dom().contains(#[trigger] path_table(tables, root, va, k)->0),
    decreases n,
{
    if n > 0 {
        lemma_path_prefix(tables, root, va, (n - 1) as nat);
    }
}

/// A page-aligned table address linked as present and writable.
proof fn lemma_link_value(a: u64)
    by (bit_vector)
    requires
        a % 4096 == 0,
    ensures
        a | 3 == a + 3,
        a + 3 <= u64::MAX,
{
}

/// A walk may start at the PML4 of any tables of 512 entries each.
pub proof fn lemma_walk_start(tables: Map<u64, Seq<u64>>, root: u64, virt: u64, leaf: u64)
    requires
        tables_sized(tables),
        tables.dom().contains(root),
    ensures
        walk_inv(tables, root, PageWalk { virt, leaf, level: 0, table: root }),
{
}

/// Each step of the walk, answered truthfully and with its writes carried
/// out, keeps the walk standing on its path; the step that is done leaves
/// the page's slot holding the entry the walk was to write, so that the page
/// of `virt` now walks to `leaf`.
pub proof fn lemma_walk_step(tables: Map<u64, Seq<u64>>, root: u64, w: PageWalk, event: WalkEvent)
    requires
        walk_inv(tables, root, w),
        w.level < 3,
        answers(tables, root, w, event),
    ensures
        ({
            let (w2, writes, next) = walk_step(w, event);
            let t2 = after_step(tables, event, writes);
            &&& next is Done ==> walk(t2, root, w.virt) == Some(w.leaf)
            &&& !(next is Done) ==> walk_inv(t2, root, w2)
            &&& t2.dom() == match event {
                WalkEvent::NewTable(a) => tables.dom().insert(a),
                WalkEvent::Entry(_) => tables.dom(),
            }
        }),
{
    let va = w.virt;
    let lv = w.level as nat;
    let s = level_index(va, w.level as int);
    let s3 = level_index(va, 3);
    let (w2, writes, next) = walk_step(w, event);
    let t2 = after_step(tables, event, writes);
    reveal_with_fuel(apply_writes, 3);
    lemma_path_prefix(tables, root, va, lv);
    match event {
        WalkEvent::Entry(e) => {
            if entry_present(e) {
                let n = entry_address(e);
                assert(path_table(tables, root, va, lv + 1) == Some(n));
                assert forall|k: nat| k <= lv implies #[trigger] path_table(tables, root, va, k) != Some(n) by {}
                if w.level + 1 == 3 {
                    assert(writes.drop_last() =~= Seq::<EntryWrite>::empty());
                    assert(t2 == tables.insert(n, tables[n].update(s3, w.leaf)));
                    assert forall|k: nat| k < 3 implies #[trigger] slot_kept(tables, t2, root, va, k) by {
                        assert(path_table(tables, root, va, k) != Some(n));
                        assert(path_table(tables, root, va, k) is Some);
                        assert(tables.dom().contains(path_table(tables, root, va, k)->0));
                    }
                    lemma_path_kept(tables, t2, root, va, 3);
                } else {
                    assert forall|i: nat, j: nat| i < j <= lv + 1 implies #[trigger] path_table(
                        tables,
                        root,
                        va,
                        i,
                    ) != #[trigger] path_table(tables, root, va, j) by {
                        if j == lv + 1 {
                            assert(path_table(tables, root, va, i) != Some(n));
                        }
                    }
                }
            }
        },
        WalkEvent::NewTable(a) => {
            lemma_link_value(a);
            lemma_link_then_follow(a);
            let base = tables.insert(a, empty_table());
            let link = EntryWrite { table: w.table, index: s as usize, value: a | 3 };
            let t1 = base.insert(w.table, base[w.table].update(s, a | 3));
            assert(apply_writes(base, seq![link]) == t1) by {
                assert(seq![link].drop_last() =~= Seq::<EntryWrite>::empty());
            }
            assert forall|k: nat| k < lv implies #[trigger] slot_kept(tables, t1, root, va, k) by {
                assert(path_table(tables, root, va, k) != path_table(tables, root, va, lv));
                assert(path_table(tables, root, va, k) is Some);
                assert(tables.dom().contains(path_table(tables, root, va, k)->0));
            }
            lemma_path_kept(tables, t1, root, va, lv);
            assert(path_table(t1, root, va, lv) == Some(w.table));
            assert(t1[w.table][s] == a | 3);
            assert(path_table(t1, root, va, lv + 1) == Some(a));
            if w.level + 1 == 3 {
                let leaf = EntryWrite { table: a, index: s3 as usize, value: w.leaf };
                assert(writes =~= seq![link, leaf]);
                assert(writes.drop_last() =~= seq![link]);
                assert(t2 == t1.insert(a, t1[a].update(s3, w.leaf)));
                assert forall|k: nat| k < 3 implies #[trigger] slot_kept(t1, t2, root, va, k) by {
                    if k < lv {
                        assert(path_table(t1, root, va, k) == path_table(tables, root, va, k));
                        assert(path_table(tables, root, va, k) is Some);
                        assert(tables.dom().contains(path_table(tables, root, va, k)->0));
                    } else {
                        assert(path_table(t1, root, va, k) == Some(w.table));
                    }
                }
                lemma_path_kept(t1, t2, root, va, 3);
            } else {
                assert(writes =~= seq![link]);
                assert forall|t: u64| #[trigger] t2.dom().contains(t) implies t2[t].len() == PAGE_TABLE_SIZE by {
                    if t != a && t != w.table {
                        assert(tables.dom().contains(t));
                    }
                }
                assert forall|i: nat, j: nat| i < j <= lv + 1 implies #[trigger] path_table(
                    t2,
                    root,
                    va,
                    i,
                ) != #[trigger] path_table(t2, root, va, j) by {
                    assert(path_table(t2, root, va, i) == path_table(tables, root, va, i));
                    if j <= lv {
                        assert(path_table(t2, root, va, j) == path_table(tables, root, va, j));
                    }
                }
            }
        },
    }
}

/// The tables form a tree under `root`, the PML4, with `levels` giving each
/// table's level: every present entry of a table above the page tables leads
/// to a table one level down, and no two such entries lead to the same table.
pub open spec fn tables_tree(tables: Map<u64, Seq<u64>>, levels: Map<u64, nat>, root: u64) -> bool {
    &&& tables_sized(tables)
    &&& tables.dom().contains(root)
    &&& levels[root] == 0
    &&& forall|t: u64, i: int|
        tables.dom().contains(t) && levels[t] < 3 && 0 <= i < PAGE_TABLE_SIZE && entry_present(
            #[trigger] tables[t][i],
        ) ==> tables.dom().contains(entry_address(tables[t][i])) && levels[entry_address(
            tables[t][i],
        )] == levels[t] + 1
    &&& forall|t1: u64, i1: int, t2: u64, i2: int|
        tables.dom().contains(t1) && tables.dom().contains(t2) && levels[t1] < 3 && levels[t2] < 3
            && 0 <= i1 < PAGE_TABLE_SIZE && 0 <= i2 < PAGE_TABLE_SIZE && entry_present(
            #[trigger] tables[t1][i1],
        ) && entry_present(#[trigger] tables[t2][i2]) && entry_address(tables[t1][i1])
            == entry_address(tables[t2][i2]) ==> t1 == t2 && i1 == i2
}

/// `va1` and `va2` use the same slot at every level: they lie in the same page
/// as far as the tables can tell.
pub open spec fn same_slots(va1: u64, va2: u64) -> bool {
    forall|m: int| 0 <= m < 4 ==> level_index(va1, m) == level_index(va2, m)
}

/// In a tree, the walk reaches at each level a table of that level.
proof fn lemma_tree_path(tables: Map<u64, Seq<u64>>, levels: Map<u64, nat>, root: u64, va: u64, n: nat)
    requires
        tables_tree(tables, levels, root),
        n <= 3,
    ensures
        forall|k: nat|
            k <= n && (#[trigger] path_table(tables, root, va, k)) is Some ==> tables.dom().contains(
                path_table(tables, root, va, k)->0,
            ) && levels[path_table(tables, root, va, k)->0] == k,
    decreases n,
{
    if n > 0 {
        lemma_tree_path(tables, levels, root, va, (n - 1) as nat);
        let m = (n - 1) as nat;
        if path_table(tables, root, va, n) is Some {
            let t = path_table(tables, root, va, m)->0;
            assert(tables[t][level_index(va, m as int)] == tables[t][level_index(va, m as int)]);
        }
    }
}

/// In a tree, two walks that reach the same table at level `n` used the same
/// slots on the way.
proof fn lemma_tree_unique(tables: Map<u64, Seq<u64>>, levels: Map<u64, nat>, root: u64, va1: u64, va2: u64, n: nat)
    requires
        tables_tree(tables, levels, root),
        n <= 3,
        path_table(tables, root, va1, n) is Some,
        path_table(tables, root, va1, n) == path_table(tables, root, va2, n),
    ensures
        forall|m: int| 0 <= m < n ==> level_index(va1, m) == level_index(va2, m),
    decreases n,
{
    if n > 0 {
        let m = (n - 1) as nat;
        lemma_tree_path(tables, levels, root, va1, n);
        lemma_tree_path(tables, levels, root, va2, n);
        let p1 = path_table(tables, root, va1, m)->0;
        let p2 = path_table(tables, root, va2, m)->0;
        let i1 = level_index(va1, m as int);
        let i2 = level_index(va2, m as int);
        assert(path_table(tables, root, va1, m) is Some);
        assert(path_table(tables, root, va2, m) is Some);
        assert(levels[p1] == m && levels[p2] == m);
        assert(entry_present(tables[p1][i1]) && entry_present(tables[p2][i2]));
        assert(p1 == p2 && i1 == i2);
        lemma_tree_unique(tables, levels, root, va1, va2, m);
    }
}

/// In a tree, a walk that stands on its path keeps the path's tables apart,
/// and the entry it reads answers it truthfully.
pub proof fn lemma_tree_walk(tables: Map<u64, Seq<u64>>, levels: Map<u64, nat>, root: u64, w: PageWalk)
    requires
        tables_tree(tables, levels, root),
        w.level <= 3,
        path_table(tables, root, w.virt, w.level as nat) == Some(w.table),
    ensures
        walk_inv(tables, root, w),
        levels[w.table] == w.level,
        w.level < 3 ==> answers(
            tables,
            root,
            w,
            WalkEvent::Entry(tables[w.table][level_index(w.virt, w.level as int)]),
        ),
{
    let va = w.virt;
    let lv = w.level as nat;
    lemma_tree_path(tables, levels, root, va, 3);
    lemma_path_prefix(tables, root, va, lv);
    assert forall|i: nat, j: nat| i < j <= lv implies #[trigger] path_table(tables, root, va, i)
        != #[trigger] path_table(tables, root, va, j) by {
        assert(path_table(tables, root, va, i) is Some);
        assert(path_table(tables, root, va, j) is Some);
    }
    if w.level < 3 {
        let s = level_index(va, w.level as int);
        let e = tables[w.table][s];
        if entry_present(e) {
            assert(tables[w.table][s] == e);
            assert forall|k: nat| k <= lv implies #[trigger] path_table(tables, root, va, k) != Some(
                entry_address(e),
            ) by {
                assert(path_table(tables, root, va, k) is Some);
            }
        }
    }
}

/// Writing a page's entry into its slot of page table `n` leaves the walk of
/// any page that uses a different slot somewhere.
proof fn lemma_keeps_other_page(
    tables: Map<u64, Seq<u64>>,
    levels: Map<u64, nat>,
    root: u64,
    t2: Map<u64, Seq<u64>>,
    vi: u64,
    va: u64,
    n: u64,
    s3: int,
    leaf: u64,
)
    requires
        tables_tree(tables, levels, root),
        path_table(tables, root, vi, 3) == Some(n),
        s3 == level_index(vi, 3),
        t2 == tables.insert(n, tables[n].update(s3, leaf)),
        walk(tables, root, va) is Some,
        !same_slots(va, vi),
    ensures
        walk(t2, root, va) == walk(tables, root, va),
{
    lemma_tree_path(tables, levels, root, vi, 3);
    lemma_tree_path(tables, levels, root, va, 3);
    lemma_path_prefix(tables, root, va, 3);
    assert forall|k: nat| k < 3 implies #[trigger] slot_kept(tables, t2, root, va, k) by {
        assert(path_table(tables, root, va, k) is Some);
        assert(levels[path_table(tables, root, va, k)->0] == k);
    }
    lemma_path_kept(tables, t2, root, va, 3);
    let p3 = path_table(tables, root, va, 3)->0;
    let j3 = level_index(va, 3);
    if p3 == n && j3 == s3 {
        lemma_tree_unique(tables, levels, root, va, vi, 3);
        assert(same_slots(va, vi));
    }
}

/// Linking a new table into an empty slot leaves the walk of every page that
/// was mapped: such a walk only reads present slots.
proof fn lemma_link_keeps_other_page(
    tables: Map<u64, Seq<u64>>,
    levels: Map<u64, nat>,
    root: u64,
    t2: Map<u64, Seq<u64>>,
    table: u64,
    s: int,
    value: u64,
    va: u64,
)
    requires
        tables_tree(tables, levels, root),
        tables.dom().contains(table),
        levels[table] < 3,
        0 <= s < PAGE_TABLE_SIZE,
        !entry_present(tables[table][s]),
        t2.dom().contains(table),
        t2[table] == tables[table].update(s, value),
        forall|t: u64| #[trigger] tables.dom().contains(t) && t != table ==> t2.dom().contains(t)
            && t2[t] == tables[t],
        walk(tables, root, va) is Some,
    ensures
        walk(t2, root, va) == walk(tables, root, va),
{
    lemma_tree_path(tables, levels, root, va, 3);
    lemma_path_prefix(tables, root, va, 3);
    assert forall|k: nat| k < 3 implies #[trigger] slot_kept(tables, t2, root, va, k) by {
        assert(path_table(tables, root, va, k) is Some);
        assert(path_table(tables, root, va, k + 1) is Some);
        let p = path_table(tables, root, va, k)->0;
        assert(tables.dom().contains(p));
        assert(entry_present(tables[p][level_index(va, k as int)]));
    }
    lemma_path_kept(tables, t2, root, va, 3);
    let p3 = path_table(tables, root, va, 3)->0;
    assert(levels[p3] == 3);
}

/// Mapping a page keeps the tables a tree and keeps every page that was
/// mapped before, wherever the two pages use different slots somewhere: each
/// step, answered truthfully with its writes carried out, leaves every page of
/// `mapped` (its address, then the entry it walks to) walking to that entry.
/// The levels of the tree after the step are returned.
pub proof fn lemma_walk_step_keeps_mapped(
    tables: Map<u64, Seq<u64>>,
    levels: Map<u64, nat>,
    root: u64,
    w: PageWalk,
    event: WalkEvent,
    mapped: Seq<(u64, u64)>,
) -> (levels2: Map<u64, nat>)
    requires
        tables_tree(tables, levels, root),
        w.level < 3,
        path_table(tables, root, w.virt, w.level as nat) == Some(w.table),
        answers(tables, root, w, event),
        forall|i: int|
            0 <= i < mapped.len() ==> walk(tables, root, (#[trigger] mapped[i]).0) == Some(mapped[i].1)
                && !same_slots(mapped[i].0, w.virt),
    ensures
        ({
            let (w2, writes, next) = walk_step(w, event);
            let t2 = after_step(tables, event, writes);
            &&& tables_tree(t2, levels2, root)
            &&& !(next is Done) ==> path_table(t2, root, w2.virt, w2.level as nat) == Some(w2.table)
            &&& forall|i: int|
                0 <= i < mapped.len() ==> walk(t2, root, (#[trigger] mapped[i]).0) == Some(mapped[i].1)
        }),
{
    let vi = w.virt;
    let lv = w.level as nat;
    let s = level_index(vi, w.level as int);
    let s3 = level_index(vi, 3);
    let (w2, writes, next) = walk_step(w, event);
    let t2 = after_step(tables, event, writes);
    reveal_with_fuel(apply_writes, 3);
    lemma_tree_walk(tables, levels, root, w);
    lemma_walk_step(tables, root, w, event);
    lemma_path_prefix(tables, root, vi, lv);
    lemma_tree_path(tables, levels, root, vi, 3);
    match event {
        WalkEvent::Entry(e) => {
            if !entry_present(e) || w.level + 1 < 3 {
                assert(writes =~= Seq::<EntryWrite>::empty());
                assert(t2 == tables);
                levels
            } else {
                let n = entry_address(e);
                assert(writes.drop_last() =~= Seq::<EntryWrite>::empty());
                assert(t2 == tables.insert(n, tables[n].update(s3, w.leaf)));
                assert(path_table(tables, root, vi, 3) == Some(n));
                assert(levels[n] == 3);
                assert forall|t: u64, i: int|
                    t2.dom().contains(t) && levels[t] < 3 && 0 <= i < PAGE_TABLE_SIZE && entry_present(
                        #[trigger] t2[t][i],
                    ) implies t2.dom().contains(entry_address(t2[t][i])) && levels[entry_address(
                    t2[t][i],
                )] == levels[t] + 1 by {
                    assert(t2[t][i] == tables[t][i]);
                }
                assert forall|t1: u64, i1: int, q1: u64, j1: int|
                    t2.dom().contains(t1) && t2.dom().contains(q1) && levels[t1] < 3 && levels[q1] < 3
                        && 0 <= i1 < PAGE_TABLE_SIZE && 0 <= j1 < PAGE_TABLE_SIZE && entry_present(
                        #[trigger] t2[t1][i1],
                    ) && entry_present(#[trigger] t2[q1][j1]) && entry_address(t2[t1][i1])
                        == entry_address(t2[q1][j1]) implies t1 == q1 && i1 == j1 by {
                    assert(t2[t1][i1] == tables[t1][i1]);
                    assert(t2[q1][j1] == tables[q1][j1]);
                }
                assert forall|i: int| 0 <= i < mapped.len() implies walk(t2, root, (#[trigger] mapped[i]).0)
                    == Some(mapped[i].1) by {
                    lemma_keeps_other_page(tables, levels, root, t2, vi, mapped[i].0, n, s3, w.leaf);
                }
                levels
            }
        },
        WalkEvent::NewTable(a) => {
            lemma_link_value(a);
            lemma_link_then_follow(a);
            let levels2 = levels.insert(a, lv + 1);
            let base = tables.insert(a, empty_table());
            let link = EntryWrite { table: w.table, index: s as usize, value: a | 3 };
            let t1 = base.insert(w.table, base[w.table].update(s, a | 3));
            assert(apply_writes(base, seq![link]) == t1) by {
                assert(seq![link].drop_last() =~= Seq::<EntryWrite>::empty());
            }
            assert(levels[w.table] == lv);
            assert(forall|i: int| 0 <= i < PAGE_TABLE_SIZE ==> #[trigger] t1[a][i] == 0u64);
            // the tables after the link form a tree
            assert forall|t: u64, i: int|
                t1.dom().contains(t) && levels2[t] < 3 && 0 <= i < PAGE_TABLE_SIZE && entry_present(
                    #[trigger] t1[t][i],
                ) implies t1.dom().contains(entry_address(t1[t][i])) && levels2[entry_address(
                t1[t][i],
            )] == levels2[t] + 1 by {
                if t != a && !(t == w.table && i == s) {
                    assert(t1[t][i] == tables[t][i]);
                    assert(tables.dom().contains(entry_address(tables[t][i])));
                }
            }
            assert forall|t: u64, i: int, q: u64, j: int|
                t1.dom().contains(t) && t1.dom().contains(q) && levels2[t] < 3 && levels2[q] < 3
                    && 0 <= i < PAGE_TABLE_SIZE && 0 <= j < PAGE_TABLE_SIZE && entry_present(
                    #[trigger] t1[t][i],
                ) && entry_present(#[trigger] t1[q][j]) && entry_address(t1[t][i]) == entry_address(
                    t1[q][j],
                ) implies t == q && i == j by {
                if t != a && q != a {
                    if t == w.table && i == s {
                        if !(q == w.table && j == s) {
                            assert(t1[q][j] == tables[q][j]);
                            assert(tables.dom().contains(entry_address(tables[q][j])));
                        }
                    } else if q == w.table && j == s {
                        assert(t1[t][i] == tables[t][i]);
                        assert(tables.dom().contains(entry_address(tables[t][i])));
                    } else {
                        assert(t1[t][i] == tables[t][i]);
                        assert(t1[q][j] == tables[q][j]);
                    }
                }
            }
            assert(tables_tree(t1, levels2, root));
            if w.level + 1 == 3 {
                let leaf = EntryWrite { table: a, index: s3 as usize, value: w.leaf };
                assert(writes =~= seq![link, leaf]);
                assert(writes.drop_last() =~= seq![link]);
                assert(t2 == t1.insert(a, t1[a].update(s3, w.leaf)));
                assert forall|t: u64, i: int|
                    t2.dom().contains(t) && levels2[t] < 3 && 0 <= i < PAGE_TABLE_SIZE && entry_present(
                        #[trigger] t2[t][i],
                    ) implies t2.dom().contains(entry_address(t2[t][i])) && levels2[entry_address(
                    t2[t][i],
                )] == levels2[t] + 1 by {
                    assert(t2[t][i] == t1[t][i]);
                }
                assert forall|t: u64, i: int, q: u64, j: int|
                    t2.dom().contains(t) && t2.dom().contains(q) && levels2[t] < 3 && levels2[q] < 3
                        && 0 <= i < PAGE_TABLE_SIZE && 0 <= j < PAGE_TABLE_SIZE && entry_present(
                        #[trigger] t2[t][i],
                    ) && entry_present(#[trigger] t2[q][j]) && entry_address(t2[t][i])
                        == entry_address(t2[q][j]) implies t == q && i == j by {
                    assert(t2[t][i] == t1[t][i]);
                    assert(t2[q][j] == t1[q][j]);
                }
            } else {
                assert(writes =~= seq![link]);
                assert(t2 == t1);
            }
            assert forall|i: int| 0 <= i < mapped.len() implies walk(t2, root, (#[trigger] mapped[i]).0)
                == Some(mapped[i].1) by {
                lemma_link_keeps_other_page(tables, levels, root, t2, w.table, s, a | 3, mapped[i].0);
            }
            levels2
        },
    }
}



/// The new tables handed to a walk are each at a page boundary, none of
/// them is a table yet, and no address comes twice.
pub open spec fn fresh_tables(tables: Map<u64, Seq<u64>>, fresh: Seq<u64>) -> bool {
    &&& forall|i: int| 0 <= i < fresh.len() ==> (#[trigger] fresh[i]) % 4096 == 0
    &&& forall|i: int| 0 <= i < fresh.len() ==> !tables.dom().contains(#[trigger] fresh[i])
    &&& forall|i: int, j: int| 0 <= i < j < fresh.len() ==> #[trigger] fresh[i] != #[trigger] fresh[j]
}

/// The tables after the walk `w` runs to its end against `tables`, each
/// request answered truthfully and each new table taken from the front of
/// `fresh`; with what is left of `fresh`.
pub open spec fn run_walk(tables: Map<u64, Seq<u64>>, w: PageWalk, fresh: Seq<u64>) -> (Map<u64, Seq<u64>>, Seq<u64>)
    decreases 3 - w.level,
{
    if w.level >= 3 {
        (tables, fresh)
    } else {
        let e = tables[w.table][level_index(w.virt, w.level as int)];
        let event = if entry_present(e) {
            WalkEvent::Entry(e)
        } else {
            WalkEvent::NewTable(fresh[0])
        };
        let rest = if entry_present(e) {
            fresh
        } else {
            fresh.drop_first()
        };
        let (w2, writes, next) = walk_step(w, event);
        run_walk(after_step(tables, event, writes), w2, rest)
    }
}

/// The walk that maps page `i` of the region at `virt_start`, backed by the
/// memory at `phys_start`, with `flags`, from the PML4 at `root`.
pub open spec fn region_walk(root: u64, virt_start: u64, phys_start: u64, flags: u64, i: int) -> PageWalk {
    PageWalk {
        virt: (virt_start + i * PAGE_SIZE) as u64,
        leaf: ((phys_start + i * PAGE_SIZE) as u64) | flags,
        level: 0,
        table: root,
    }
}

/// The tables after the first `n` pages of the region are mapped, in order.
pub open spec fn run_region(
    tables: Map<u64, Seq<u64>>,
    root: u64,
    virt_start: u64,
    phys_start: u64,
    flags: u64,
    n: nat,
    fresh: Seq<u64>,
) -> (Map<u64, Seq<u64>>, Seq<u64>)
    decreases n,
{
    if n == 0 {
        (tables, fresh)
    } else {
        let (t, f) = run_region(tables, root, virt_start, phys_start, flags, (n - 1) as nat, fresh);
        run_walk(t, region_walk(root, virt_start, phys_start, flags, n - 1), f)
    }
}

/// A walk run to its end maps its page and keeps the tables a tree and the
/// pages of `mapped` mapped; it takes at most one new table per level left.
/// Returns the levels of the tree after it and the number of new tables taken.
pub proof fn lemma_run_walk(
    tables: Map<u64, Seq<u64>>,
    levels: Map<u64, nat>,
    root: u64,
    w: PageWalk,
    fresh: Seq<u64>,
    mapped: Seq<(u64, u64)>,
) -> (r: (Map<u64, nat>, nat))
    requires
        tables_tree(tables, levels, root),
        w.level < 3,
        path_table(tables, root, w.virt, w.level as nat) == Some(w.table),
        fresh.len() >= 3 - w.level,
        fresh_tables(tables, fresh),
        forall|i: int|
            0 <= i < mapped.len() ==> walk(tables, root, (#[trigger] mapped[i]).0) == Some(mapped[i].1)
                && !same_slots(mapped[i].0, w.virt),
    ensures
        ({
            let (t2, f2) = run_walk(tables, w, fresh);
            &&& tables_tree(t2, r.0, root)
            &&& walk(t2, root, w.virt) == Some(w.leaf)
            &&& forall|i: int|
                0 <= i < mapped.len() ==> walk(t2, root, (#[trigger] mapped[i]).0) == Some(mapped[i].1)
            &&& r.1 <= 3 - w.level
            &&& f2 == fresh.skip(r.1 as int)
            &&& fresh_tables(t2, f2)
        }),
    decreases 3 - w.level,
{
    let e = tables[w.table][level_index(w.virt, w.level as int)];
    let present = entry_present(e);
    let event = if present {
        WalkEvent::Entry(e)
    } else {
        WalkEvent::NewTable(fresh[0])
    };
    let rest = if present {
        fresh
    } else {
        fresh.drop_first()
    };
    let k: nat = if present {
        0
    } else {
        1
    };
    assert(rest =~= fresh.skip(k as int));
    let (w2, writes, next) = walk_step(w, event);
    let t1 = after_step(tables, event, writes);
    lemma_tree_walk(tables, levels, root, w);
    lemma_walk_step(tables, root, w, event);
    let levels1 = lemma_walk_step_keeps_mapped(tables, levels, root, w, event, mapped);
    assert forall|i: int| 0 <= i < rest.len() implies !t1.dom().contains(#[trigger] rest[i]) by {
        assert(rest[i] == fresh[i + k]);
        if !present {
            assert(fresh[0] != fresh[i + 1]);
        }
    }
    assert forall|i: int, j: int| 0 <= i < j < rest.len() implies #[trigger] rest[i] != #[trigger] rest[j] by {
        assert(rest[i] == fresh[i + k]);
        assert(rest[j] == fresh[j + k]);
    }
    assert forall|i: int| 0 <= i < rest.len() implies (#[trigger] rest[i]) % 4096 == 0 by {
        assert(rest[i] == fresh[i + k]);
    }
    assert(run_walk(tables, w, fresh) == run_walk(t1, w2, rest));
    if next is Done {
        assert(w2.level == 3);
        (levels1, k)
    } else {
        let (levels2, k2) = lemma_run_walk(t1, levels1, root, w2, rest, mapped);
        assert(rest.skip(k2 as int) =~= fresh.skip((k + k2) as int));
        (levels2, k + k2)
    }
}

/// Mapping the pages of a region one after the other, each request
/// answered truthfully and each new table taken from `fresh`, leaves every
/// page of the region walking to its frame with `flags`, wherever no two of
/// its pages use the same slot at every level; the tables stay a tree. Returns
/// the levels of the tree after it and the number of new tables taken.
pub proof fn lemma_map_region(
    tables: Map<u64, Seq<u64>>,
    levels: Map<u64, nat>,
    root: u64,
    virt_start: u64,
    phys_start: u64,
    flags: u64,
    n: nat,
    fresh: Seq<u64>,
) -> (r: (Map<u64, nat>, nat))
    requires
        tables_tree(tables, levels, root),
        fresh.len() >= 3 * n,
        fresh_tables(tables, fresh),
        forall|i: int, j: int|
            0 <= i < j < n ==> !same_slots(
                #[trigger] region_walk(root, virt_start, phys_start, flags, i).virt,
                #[trigger] region_walk(root, virt_start, phys_start, flags, j).virt,
            ),
    ensures
        ({
            let (t, f) = run_region(tables, root, virt_start, phys_start, flags, n, fresh);
            &&& tables_tree(t, r.0, root)
            &&& forall|i: int|
                0 <= i < n ==> walk(t, root, (#[trigger] region_walk(root, virt_start, phys_start, flags, i)).virt)
                    == Some(region_walk(root, virt_start, phys_start, flags, i).leaf)
            &&& r.1 <= 3 * n
            &&& f == fresh.skip(r.1 as int)
            &&& fresh_tables(t, f)
        }),
    decreases n,
{
    if n == 0 {
        assert(fresh.skip(0) =~= fresh);
        (levels, 0)
    } else {
        let m = (n - 1) as nat;
        let (lv, k) = lemma_map_region(tables, levels, root, virt_start, phys_start, flags, m, fresh);
        let (t, f) = run_region(tables, root, virt_start, phys_start, flags, m, fresh);
        let w = region_walk(root, virt_start, phys_start, flags, m as int);
        let mapped = Seq::new(
            m,
            |i: int|
                (
                    region_walk(root, virt_start, phys_start, flags, i).virt,
                    region_walk(root, virt_start, phys_start, flags, i).leaf,
                ),
        );
        assert forall|i: int| 0 <= i < mapped.len() implies walk(t, root, (#[trigger] mapped[i]).0)
            == Some(mapped[i].1) && !same_slots(mapped[i].0, w.virt) by {
            assert(walk(t, root, region_walk(root, virt_start, phys_start, flags, i).virt) == Some(
                region_walk(root, virt_start, phys_start, flags, i).leaf,
            ));
            assert(!same_slots(
                region_walk(root, virt_start, phys_start, flags, i).virt,
                region_walk(root, virt_start, phys_start, flags, m as int).virt,
            ));
        }
        let (lv2, k2) = lemma_run_walk(t, lv, root, w, f, mapped);
        let (t2, f2) = run_walk(t, w, f);
        assert forall|i: int| 0 <= i < n implies walk(
            t2,
            root,
            (#[trigger] region_walk(root, virt_start, phys_start, flags, i)).virt,
        ) == Some(region_walk(root, virt_start, phys_start, flags, i).leaf) by {
            if i < m {
                assert(mapped[i].0 == region_walk(root, virt_start, phys_start, flags, i).virt);
            }
        }
        assert(f.skip(k2 as int) =~= fresh.skip((k + k2) as int));
        (lv2, k + k2)
    }
}

/// The two links that make the kernel's part of a new address space: the
/// page directory pointer table at the kernel's PML4 slot, the page
/// directory at the kernel's slot of that table, both present and writable.
pub fn kernel_space_links(pml4: u64, pdpt: u64, pd: u64) -> (r: Vec<EntryWrite>)
    ensures
        r@ == seq![
            EntryWrite { table: pml4, index: KERNEL_PML4_SLOT, value: pdpt | 3 },
            EntryWrite { table: pdpt, index: KERNEL_PDPT_SLOT, value: pd | 3 },
        ],
{
    let mut links = Vec::new();
    links.push(EntryWrite { table: pml4, index: KERNEL_PML4_SLOT, value: table_link(pdpt) });
    links.push(EntryWrite { table: pdpt, index: KERNEL_PDPT_SLOT, value: table_link(pd) });
    proof {
        assert(links@ =~= seq![
            EntryWrite { table: pml4, index: KERNEL_PML4_SLOT, value: pdpt | 3 },
            EntryWrite { table: pdpt, index: KERNEL_PDPT_SLOT, value: pd | 3 },
        ]);
    }
    links
}

/// The tables a new kernel address space starts with form a tree: an empty
/// PML4, page directory pointer table and page directory at three different
/// page boundaries, the first two linked at the kernel's slots.
pub proof fn lemma_kernel_tables_tree(pml4: u64, pdpt: u64, pd: u64)
    requires
        pml4 != pdpt,
        pml4 != pd,
        pdpt != pd,
        pdpt % 4096 == 0,
        pd % 4096 == 0,
    ensures
        tables_tree(
            map![
                pml4 => empty_table().update(KERNEL_PML4_SLOT as int, pdpt | 3),
                pdpt => empty_table().update(KERNEL_PDPT_SLOT as int, pd | 3),
                pd => empty_table(),
            ],
            map![pml4 => 0nat, pdpt => 1nat, pd => 2nat],
            pml4,
        ),
{
    lemma_link_value(pdpt);
    lemma_link_value(pd);
    lemma_link_then_follow(pdpt);
    lemma_link_then_follow(pd);
    let tables = map![
        pml4 => empty_table().update(KERNEL_PML4_SLOT as int, pdpt | 3),
        pdpt => empty_table().update(KERNEL_PDPT_SLOT as int, pd | 3),
        pd => empty_table(),
    ];
    let levels = map![pml4 => 0nat, pdpt => 1nat, pd => 2nat];
    assert forall|t: u64, i: int|
        tables.dom().contains(t) && levels[t] < 3 && 0 <= i < PAGE_TABLE_SIZE && entry_present(
            #[trigger] tables[t][i],
        ) implies tables.dom().contains(entry_address(tables[t][i])) && levels[entry_address(
        tables[t][i],
    )] == levels[t] + 1 by {
        assert(entry_present(0u64) == false);
    }
    assert forall|t1: u64, i1: int, t2: u64, i2: int|
        tables.dom().contains(t1) && tables.dom().contains(t2) && levels[t1] < 3 && levels[t2] < 3
            && 0 <= i1 < PAGE_TABLE_SIZE && 0 <= i2 < PAGE_TABLE_SIZE && entry_present(
            #[trigger] tables[t1][i1],
        ) && entry_present(#[trigger] tables[t2][i2]) && entry_address(tables[t1][i1])
            == entry_address(tables[t2][i2]) implies t1 == t2 && i1 == i2 by {
        assert(entry_present(0u64) == false);
    }
}

} // verus!
