use corrosium::platform::address::{Address, PhysicalAddress, Virtual, VirtualAddress};
use corrosium::platform::paging::{PageTable, PageTableEntry, PAGE_TABLE_SIZE};

#[test]
fn address_keeps_its_value() {
    let a = PhysicalAddress::new(0x1234);
    assert_eq!(a.as_u64(), 0x1234);
    assert_eq!(a.add(0x10).as_u64(), 0x1244);
    assert_eq!(a.sub(0x34).as_u64(), 0x1200);
    let v: VirtualAddress = Address::<Virtual>::from(0xdead_beefu64);
    assert_eq!(v.as_u64(), 0xdead_beef);
    assert!(PhysicalAddress::new(1) < PhysicalAddress::new(2));
    assert_eq!(VirtualAddress::new(7), VirtualAddress::new(7));
}

#[test]
fn empty_entry_and_table_are_zero() {
    assert_eq!(PageTableEntry::empty().as_u64(), 0);
    let t = PageTable::empty();
    assert_eq!(t.entries.len(), PAGE_TABLE_SIZE);
    assert!(t.entries.iter().all(|e| e.as_u64() == 0));
}

#[test]
fn each_flag_sets_its_bit() {
    let e = PageTableEntry::empty();
    assert_eq!(e.present().as_u64(), 1 << 0);
    assert_eq!(e.writable().as_u64(), 1 << 1);
    assert_eq!(e.user_accessible().as_u64(), 1 << 2);
    assert_eq!(e.write_through().as_u64(), 1 << 3);
    assert_eq!(e.cache_disable().as_u64(), 1 << 4);
    assert_eq!(e.accessed().as_u64(), 1 << 5);
    assert_eq!(e.dirty().as_u64(), 1 << 6);
    assert_eq!(e.huge().as_u64(), 1 << 7);
    assert_eq!(e.global().as_u64(), 1 << 8);
    assert_eq!(e.no_execute().as_u64(), 1 << 63);
}

#[test]
fn each_clear_clears_only_its_bit() {
    let e = PageTableEntry::empty()
        .present()
        .writable()
        .user_accessible()
        .write_through()
        .cache_disable()
        .accessed()
        .dirty()
        .huge()
        .global()
        .no_execute()
        .address(PhysicalAddress::new(u64::MAX));
    let all = e.as_u64();
    assert_eq!(all, 0x800F_FFFF_FFFF_F1FF);
    assert_eq!(e.clear_present().as_u64(), all & !(1u64 << 0));
    assert_eq!(e.clear_writable().as_u64(), all & !(1u64 << 1));
    assert_eq!(e.clear_user_accessible().as_u64(), all & !(1u64 << 2));
    assert_eq!(e.clear_write_through().as_u64(), all & !(1u64 << 3));
    assert_eq!(e.clear_cache_disable().as_u64(), all & !(1u64 << 4));
    assert_eq!(e.clear_accessed().as_u64(), all & !(1u64 << 5));
    assert_eq!(e.clear_dirty().as_u64(), all & !(1u64 << 6));
    assert_eq!(e.clear_huge().as_u64(), all & !(1u64 << 7));
    assert_eq!(e.clear_global().as_u64(), all & !(1u64 << 8));
    assert_eq!(e.clear_no_execute().as_u64(), all & !(1u64 << 63));
}

#[test]
fn flags_combine_and_commute() {
    let a = PageTableEntry::empty().present().writable().no_execute();
    let b = PageTableEntry::empty().no_execute().writable().present();
    assert_eq!(a, b);
    assert_eq!(a.as_u64(), 0x8000_0000_0000_0003);
    assert_eq!(a.present(), a);
    assert_eq!(a.clear_writable().writable(), a);
    assert_eq!(a.writable().clear_writable(), a.clear_writable());
}

#[test]
fn address_replaces_bits_12_to_51() {
    let e = PageTableEntry::empty().present().writable().no_execute();
    let with_addr = e.address(PhysicalAddress::new(0xFFFF_1234_5678_9ABC));
    assert_eq!(with_addr.as_u64(), 0x800F_1234_5678_9003);
    let again = with_addr.address(PhysicalAddress::new(0x2000));
    assert_eq!(again.as_u64(), 0x8000_0000_0000_2003);
}

#[test]
fn table_indices_of_the_kernel_half() {
    let v = VirtualAddress::new(0xffff_ffff_8000_0000);
    assert_eq!(v.pml4_index(), 511);
    assert_eq!(v.pdpt_index(), 510);
    assert_eq!(v.pd_index(), 0);
    assert_eq!(v.pt_index(), 0);
}

#[test]
fn table_indices_compose_back_to_the_address() {
    let addr: u64 = 0x0000_7f12_3456_7abc;
    let v = VirtualAddress::new(addr);
    let rebuilt = ((v.pml4_index() as u64) << 39)
        | ((v.pdpt_index() as u64) << 30)
        | ((v.pd_index() as u64) << 21)
        | ((v.pt_index() as u64) << 12)
        | (addr & 0xfff);
    assert_eq!(rebuilt, addr);
    assert_eq!(v.pml4_index(), 0xfe);
    assert_eq!(v.pdpt_index(), 0x48);
    assert_eq!(v.pd_index(), 0x1a2);
    assert_eq!(v.pt_index(), 0x167);
}
