use corrosium::memory::{
    kernel_space_links, next_table, page_entry, region_page, slot_index, table_link, EntryWrite, NextStep, PageTable, PageWalk, WalkEvent,
    KERNEL_PDPT_SLOT, KERNEL_PML4_SLOT, PAGE_PRESENT, PAGE_WRITABLE,
};
use std::collections::HashMap;
use corrosium::platform::address::{PhysicalAddress, VirtualAddress};

#[test]
fn next_table_reads_present_entries() {
    assert_eq!(next_table(0x5003), Some(0x5000));
    assert_eq!(next_table(0x8000_0000_0000_6fff), Some(0x8000_0000_0000_6000));
    assert_eq!(next_table(0x5002), None);
    assert_eq!(next_table(0), None);
}

#[test]
fn linked_tables_are_found_again() {
    let link = table_link(0x7000);
    assert_eq!(link, 0x7000 | PAGE_PRESENT | PAGE_WRITABLE);
    assert_eq!(next_table(link), Some(0x7000));
}

#[test]
fn page_entries_and_region_pages() {
    assert_eq!(page_entry(PhysicalAddress::new(0x20_0000), 3), 0x20_0003);
    let (v, p) = region_page(VirtualAddress::new(0xffff_ffff_8000_0000), PhysicalAddress::new(0x10_0000), 3);
    assert_eq!(v.as_u64(), 0xffff_ffff_8000_3000);
    assert_eq!(p.as_u64(), 0x10_3000);
}

#[test]
fn nullify_empties_the_table() {
    let mut t = PageTable { entries: [0xdead; 512] };
    t.nullify();
    assert!(t.entries.iter().all(|e| *e == 0));
}

const PML4: u64 = 0x1000;
const PDPT: u64 = 0x2000;
const PD: u64 = 0x3000;
const KERNEL_BASE: u64 = 0xffff_ffff_8000_0000;

fn kernel_tables() -> HashMap<u64, Vec<u64>> {
    let mut tables = HashMap::new();
    tables.insert(PML4, vec![0u64; 512]);
    tables.insert(PDPT, vec![0u64; 512]);
    tables.insert(PD, vec![0u64; 512]);
    for w in kernel_space_links(PML4, PDPT, PD) {
        tables.get_mut(&w.table).unwrap()[w.index] = w.value;
    }
    tables
}

#[test]
fn kernel_space_links_the_upper_tables() {
    assert_eq!(
        kernel_space_links(PML4, PDPT, PD),
        vec![
            EntryWrite { table: PML4, index: KERNEL_PML4_SLOT, value: PDPT | 3 },
            EntryWrite { table: PDPT, index: KERNEL_PDPT_SLOT, value: PD | 3 },
        ]
    );
}

/// Runs one page's walk against `tables`, new tables taken from `next_free`.
fn map_page(tables: &mut HashMap<u64, Vec<u64>>, next_free: &mut u64, mut walk: PageWalk, mut next: NextStep) -> usize {
    let mut allocations = 0;
    loop {
        let event = match next {
            NextStep::Read { table, index } => WalkEvent::Entry(tables[&table][index]),
            NextStep::Allocate => {
                let a = *next_free;
                *next_free += 0x1000;
                tables.insert(a, vec![0u64; 512]);
                allocations += 1;
                WalkEvent::NewTable(a)
            }
            NextStep::Done => return allocations,
        };
        let (writes, after) = walk.step(event);
        for w in writes {
            tables.get_mut(&w.table).unwrap()[w.index] = w.value;
        }
        next = after;
    }
}

fn walk_to(tables: &HashMap<u64, Vec<u64>>, root: u64, va: u64) -> Option<u64> {
    let virt = VirtualAddress::new(va);
    let mut table = root;
    for level in 0..3 {
        table = next_table(tables.get(&table)?[slot_index(virt, level)])?;
    }
    Some(tables.get(&table)?[slot_index(virt, 3)])
}

#[test]
fn walk_steps_follow_present_entries_and_link_new_tables() {
    let virt = VirtualAddress::new(KERNEL_BASE + 0x3000);
    let (mut walk, next) = PageWalk::start(PML4, virt, 0x55_5003);
    assert_eq!(next, NextStep::Read { table: PML4, index: 511 });
    let (writes, next) = walk.step(WalkEvent::Entry(PDPT | 3));
    assert!(writes.is_empty());
    assert_eq!(next, NextStep::Read { table: PDPT, index: 510 });
    let (_, next) = walk.step(WalkEvent::Entry(PD | 3));
    assert_eq!(next, NextStep::Read { table: PD, index: 0 });
    let (writes, next) = walk.step(WalkEvent::Entry(0));
    assert!(writes.is_empty());
    assert_eq!(next, NextStep::Allocate);
    let (writes, next) = walk.step(WalkEvent::NewTable(0x9000));
    assert_eq!(
        writes,
        vec![
            EntryWrite { table: PD, index: 0, value: 0x9003 },
            EntryWrite { table: 0x9000, index: 3, value: 0x55_5003 },
        ]
    );
    assert_eq!(next, NextStep::Done);
    assert_eq!(walk.level, 3);
    assert_eq!(walk.table, 0x9000);
}

#[test]
fn mapped_region_pages_walk_to_their_frames() {
    let mut tables = kernel_tables();
    let mut next_free = 0x10_0000;
    let flags = PAGE_PRESENT | PAGE_WRITABLE;
    let virt_start = VirtualAddress::new(KERNEL_BASE + 0x1f_e000);
    let phys_start = PhysicalAddress::new(0x40_0000);
    let mut allocations = Vec::new();
    for i in 0..4 {
        let (walk, next) = PageWalk::region_page(PML4, virt_start, phys_start, i, flags);
        allocations.push(map_page(&mut tables, &mut next_free, walk, next));
    }
    // the region crosses a page-directory boundary: one page table per side
    assert_eq!(allocations, vec![1, 0, 1, 0]);
    for i in 0..4u64 {
        let va = virt_start.as_u64() + i * 0x1000;
        assert_eq!(walk_to(&tables, PML4, va), Some((0x40_0000 + i * 0x1000) | flags));
    }
    assert_eq!(walk_to(&tables, PML4, KERNEL_BASE + 0x40_0000), None);
}

#[test]
fn remapping_a_page_replaces_its_entry_only() {
    let mut tables = kernel_tables();
    let mut next_free = 0x10_0000;
    let (walk, next) = PageWalk::start(PML4, VirtualAddress::new(KERNEL_BASE), 0x7000 | 3);
    assert_eq!(map_page(&mut tables, &mut next_free, walk, next), 1);
    let (walk, next) = PageWalk::start(PML4, VirtualAddress::new(KERNEL_BASE + 0x1000), 0x8000 | 3);
    assert_eq!(map_page(&mut tables, &mut next_free, walk, next), 0);
    let (walk, next) = PageWalk::start(PML4, VirtualAddress::new(KERNEL_BASE), 0x9000 | 1);
    assert_eq!(map_page(&mut tables, &mut next_free, walk, next), 0);
    assert_eq!(walk_to(&tables, PML4, KERNEL_BASE), Some(0x9001));
    assert_eq!(walk_to(&tables, PML4, KERNEL_BASE + 0x1000), Some(0x8003));
}

#[test]
fn pages_outside_the_kernel_slots_get_all_their_tables() {
    let mut tables = kernel_tables();
    let mut next_free = 0x10_0000;
    let (walk, next) = PageWalk::start(PML4, VirtualAddress::new(0x40_0000), 0x1234_5000 | 1);
    assert_eq!(map_page(&mut tables, &mut next_free, walk, next), 3);
    assert_eq!(walk_to(&tables, PML4, 0x40_0000), Some(0x1234_5001));
    assert_eq!(tables[&PML4][0], 0x10_0003);
}
