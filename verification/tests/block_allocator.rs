use corrosium::block_allocator::allocator::BlockAllocator;
use corrosium::block_allocator::map::{AllocationMap, AreaAllocationMap, TABLE_ENTRY_DEFAULT_VALUE};
use corrosium::block_allocator::table::{has_next, is_first, is_free, BlockAllocationTable};

fn table_of(bytes: &[u8]) -> BlockAllocationTable<AreaAllocationMap> {
    BlockAllocationTable::with_map(AreaAllocationMap::new(bytes.to_vec()))
}

fn entries_of(table: &BlockAllocationTable<AreaAllocationMap>) -> Vec<u8> {
    (0..table.size()).map(|i| table.entry(i).unwrap()).collect()
}

#[test]
fn flag_tests_read_the_entry_bits() {
    assert!(is_free(0));
    assert!(is_free(6));
    assert!(!is_free(1));
    assert!(!is_free(7));
    assert!(is_first(3));
    assert!(!is_first(5));
    assert!(has_next(5));
    assert!(!has_next(3));
}

#[test]
fn area_map_reads_and_writes_within_bounds() {
    let mut map = AreaAllocationMap::new(vec![0, 0, 0]);
    assert_eq!(map.size(), 3);
    assert!(map.set(1, 9));
    assert_eq!(map.get(1), Some(9));
    assert_eq!(map.get(3), None);
    assert!(!map.set(3, 1));
    assert_eq!(map.get(0), Some(TABLE_ENTRY_DEFAULT_VALUE));
}

#[test]
fn allocate_marks_first_middle_and_last_blocks() {
    let mut table = table_of(&[0; 8]);
    assert_eq!(table.allocate(3), Some(0));
    assert_eq!(entries_of(&table), vec![7, 5, 1, 0, 0, 0, 0, 0]);
    assert_eq!(table.allocate(1), Some(3));
    assert_eq!(entries_of(&table), vec![7, 5, 1, 3, 0, 0, 0, 0]);
}

#[test]
fn allocate_takes_the_lowest_free_run() {
    let mut table = table_of(&[0, 1, 0, 1, 0, 0, 0]);
    assert_eq!(table.allocate(2), Some(4));
    assert_eq!(entries_of(&table), vec![0, 1, 0, 1, 7, 1, 0]);
    assert_eq!(table.allocate(1), Some(0));
}

#[test]
fn allocate_counts_entries_without_occupied_bit_as_free() {
    // bit 0 clear: free, whatever the other bits say
    let mut table = table_of(&[2, 4, 6]);
    assert_eq!(table.allocate(3), Some(0));
    assert_eq!(entries_of(&table), vec![7, 5, 1]);
}

#[test]
fn allocate_refuses_zero_and_too_long_runs() {
    let mut table = table_of(&[0, 0, 1, 0]);
    assert_eq!(table.allocate(0), None);
    assert_eq!(table.allocate(3), None);
    assert_eq!(entries_of(&table), vec![0, 0, 1, 0]);
    let mut empty = table_of(&[]);
    assert_eq!(empty.allocate(1), None);
}

#[test]
fn deallocate_releases_the_whole_allocation() {
    let mut table = table_of(&[0; 6]);
    assert_eq!(table.allocate(2), Some(0));
    assert_eq!(table.allocate(3), Some(2));
    assert!(table.deallocate(2));
    assert_eq!(entries_of(&table), vec![7, 1, 0, 0, 0, 0]);
}

#[test]
fn deallocate_refuses_inner_blocks_and_positions_past_the_end() {
    let mut table = table_of(&[0; 4]);
    assert_eq!(table.allocate(3), Some(0));
    assert!(!table.deallocate(1));
    assert!(!table.deallocate(2));
    assert!(!table.deallocate(4));
    assert!(!table.deallocate(3));
    assert_eq!(entries_of(&table), vec![7, 5, 1, 0]);
}

#[test]
fn deallocate_stops_at_the_end_of_the_table() {
    // a chain whose last entry still claims a successor
    let mut table = table_of(&[0, 7, 5, 5]);
    assert!(table.deallocate(1));
    assert_eq!(entries_of(&table), vec![0, 0, 0, 0]);
}

#[test]
fn allocate_then_deallocate_restores_a_clean_table() {
    let mut table = table_of(&[0, 0, 3, 0, 0, 0]);
    let p = table.allocate(3).unwrap();
    assert_eq!(p, 3);
    assert!(table.deallocate(p));
    assert_eq!(entries_of(&table), vec![0, 0, 3, 0, 0, 0]);
}

#[test]
fn allocated_blocks_are_not_handed_out_again() {
    let mut table = table_of(&[0; 5]);
    let a = table.allocate(2).unwrap();
    let b = table.allocate(2).unwrap();
    assert_eq!((a, b), (0, 2));
    assert_eq!(table.allocate(2), None);
    assert_eq!(table.allocate(1), Some(4));
}

fn allocator(blocks: usize) -> BlockAllocator<AreaAllocationMap> {
    BlockAllocator::new(table_of(&vec![0; blocks]), 0x1000, 16)
}

#[test]
fn size_to_blocks_rounds_up() {
    let a = allocator(4);
    assert_eq!(a.size_to_blocks(0), 0);
    assert_eq!(a.size_to_blocks(1), 1);
    assert_eq!(a.size_to_blocks(16), 1);
    assert_eq!(a.size_to_blocks(17), 2);
    assert_eq!(a.size_to_blocks(64), 4);
}

#[test]
fn addresses_and_positions_correspond() {
    let a = allocator(4);
    assert_eq!(a.blocks_count(), 4);
    assert_eq!(a.position_to_address(0), 0x1000);
    assert_eq!(a.position_to_address(3), 0x1030);
    assert_eq!(a.address_to_position(0x1000), Some(0));
    assert_eq!(a.address_to_position(0x101f), Some(1));
    assert_eq!(a.address_to_position(0x103f), Some(3));
    assert_eq!(a.address_to_position(0x1040), None);
    assert_eq!(a.address_to_position(0x0fff), None);
    assert_eq!(a.address_to_position(a.position_to_address(2)), Some(2));
}

#[test]
fn allocator_hands_out_block_addresses() {
    let mut a = allocator(4);
    assert_eq!(a.allocate(20), Some(0x1000));
    assert_eq!(a.allocate(1), Some(0x1020));
    assert_eq!(a.allocate(32), None);
    assert_eq!(a.allocate(0), None);
    assert_eq!(entries_of(&a.table), vec![7, 1, 3, 0]);
}

#[test]
fn allocator_releases_from_any_address_in_the_first_block() {
    let mut a = allocator(4);
    assert_eq!(a.allocate(20), Some(0x1000));
    a.deallocate(0x1005);
    assert_eq!(entries_of(&a.table), vec![0, 0, 0, 0]);
    assert_eq!(a.allocate(64), Some(0x1000));
}

#[test]
fn allocator_ignores_foreign_and_inner_addresses() {
    let mut a = allocator(4);
    assert_eq!(a.allocate(48), Some(0x1000));
    a.deallocate(0x2000);
    a.deallocate(0x1010);
    assert_eq!(entries_of(&a.table), vec![7, 5, 1, 0]);
    a.deallocate(0x1000);
    assert_eq!(entries_of(&a.table), vec![0, 0, 0, 0]);
}

#[test]
fn allocator_without_block_size_holds_no_address() {
    let mut a = BlockAllocator::new(table_of(&[7, 1]), 0x1000, 0);
    assert_eq!(a.address_to_position(0x1000), None);
    a.deallocate(0x1000);
    assert_eq!(entries_of(&a.table), vec![7, 1]);
}

fn chains_well_formed(entries: &[u8]) -> bool {
    (0..entries.len()).all(|i| {
        let v = entries[i];
        let occupied = v & 1 != 0;
        let first = v & 2 != 0;
        let next = v & 4 != 0;
        (occupied || v == 0)
            && (!occupied || first || (i > 0 && entries[i - 1] & 1 != 0 && entries[i - 1] & 4 != 0))
            && (!occupied
                || !next
                || (i + 1 < entries.len() && entries[i + 1] & 1 != 0 && entries[i + 1] & 2 == 0))
    })
}

#[test]
fn allocations_and_releases_keep_whole_chains() {
    let mut table = table_of(&[0; 12]);
    assert!(chains_well_formed(&entries_of(&table)));
    let a = table.allocate(3).unwrap();
    let b = table.allocate(1).unwrap();
    let c = table.allocate(4).unwrap();
    assert!(chains_well_formed(&entries_of(&table)));
    assert!(table.deallocate(b));
    assert!(chains_well_formed(&entries_of(&table)));
    assert_eq!(table.allocate(2), Some(8));
    assert!(table.deallocate(a));
    assert!(table.deallocate(c));
    assert!(chains_well_formed(&entries_of(&table)));
    assert_eq!(entries_of(&table), vec![0, 0, 0, 0, 0, 0, 0, 0, 7, 1, 0, 0]);
}

fn disjoint(ranges: &[(usize, usize)]) -> bool {
    (0..ranges.len()).all(|i| {
        (0..ranges.len()).all(|j| {
            let (a, a_end) = ranges[i];
            let (b, b_end) = ranges[j];
            i == j || a_end <= b || b_end <= a
        })
    })
}

#[test]
fn live_allocations_never_overlap() {
    let mut a = allocator(16);
    let mut live: Vec<(usize, usize)> = Vec::new();
    for size in [20usize, 1, 48, 16, 33] {
        let p = a.allocate(size).unwrap();
        live.push((p, p + a.size_to_blocks(size) * 16));
    }
    assert!(disjoint(&live));
    assert!(live.iter().all(|&(p, end)| p >= 0x1000 && end <= 0x1000 + 16 * 16));
    let freed = live.remove(1);
    a.deallocate(freed.0);
    let freed = live.remove(2);
    a.deallocate(freed.0);
    for size in [16usize, 16, 17] {
        let p = a.allocate(size).unwrap();
        live.push((p, p + a.size_to_blocks(size) * 16));
        assert!(disjoint(&live));
    }
    assert_eq!(live[3], (0x1020, 0x1030));
    assert_eq!(live[4], (0x1060, 0x1070));
    assert_eq!(live[5], (0x10a0, 0x10c0));
}
