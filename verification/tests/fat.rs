use corrosium::fat::entry::DirectoryEntry;
use corrosium::fat::header::FatHeader;
use corrosium::fat::{
    kernel_entry, kernel_entry_in_sector, root_directory_sectors, root_directory_slots, sector_scan, validate_header,
    FatError, SectorRead, FAT, FAT_TABLE_SIZE, KERNEL_FILE_NAME,
};

fn header_bytes(bps: u16, spc: u8, reserved: u16, fats: u8, root_entries: u16, spf: u16) -> Vec<u8> {
    let mut b = vec![0u8; 36];
    b[0..3].copy_from_slice(&[0xEB, 0x3C, 0x90]);
    b[3..11].copy_from_slice(b"MSWIN4.1");
    b[11..13].copy_from_slice(&bps.to_le_bytes());
    b[13] = spc;
    b[14..16].copy_from_slice(&reserved.to_le_bytes());
    b[16] = fats;
    b[17..19].copy_from_slice(&root_entries.to_le_bytes());
    b[19..21].copy_from_slice(&2880u16.to_le_bytes());
    b[21] = 0xF0;
    b[22..24].copy_from_slice(&spf.to_le_bytes());
    b[24..26].copy_from_slice(&18u16.to_le_bytes());
    b[26..28].copy_from_slice(&2u16.to_le_bytes());
    b[28..32].copy_from_slice(&7u32.to_le_bytes());
    b[32..36].copy_from_slice(&0x0001_0000u32.to_le_bytes());
    b
}

fn entry_bytes(name: &[u8; 11], attributes: u8, high: u16, low: u16, size: u32) -> [u8; 32] {
    let mut b = [0u8; 32];
    b[0..11].copy_from_slice(name);
    b[11] = attributes;
    b[20..22].copy_from_slice(&high.to_le_bytes());
    b[26..28].copy_from_slice(&low.to_le_bytes());
    b[28..32].copy_from_slice(&size.to_le_bytes());
    b
}

fn standard_header() -> FatHeader {
    FatHeader::from_bytes(&header_bytes(512, 4, 1, 2, 512, 9))
}

#[test]
fn header_decodes_little_endian_fields() {
    let h = standard_header();
    assert_eq!(h.jump_instruction, [0xEB, 0x3C, 0x90]);
    assert_eq!(&h.oem_name, b"MSWIN4.1");
    assert_eq!(h.bytes_per_sector, 512);
    assert_eq!(h.sectors_per_cluster, 4);
    assert_eq!(h.reserved_sectors_count, 1);
    assert_eq!(h.fat_count, 2);
    assert_eq!(h.root_directory_entries, 512);
    assert_eq!(h.total_sectors, 2880);
    assert_eq!(h.media_descriptor_type, 0xF0);
    assert_eq!(h.sectors_per_fat, 9);
    assert_eq!(h.sectors_per_track, 18);
    assert_eq!(h.number_of_heads, 2);
    assert_eq!(h.hidden_sectors, 7);
    assert_eq!(h.total_sectors_32, 0x0001_0000);
}

#[test]
fn header_layout_arithmetic() {
    let h = standard_header();
    assert_eq!(h.root_directory_start_sector(), 19);
    assert_eq!(h.root_directory_size_bytes(), 16384);
    assert_eq!(h.root_directory_size_sectors(), 32);
    assert_eq!(h.data_region_start_sector(), 51);
    assert_eq!(h.sectors_for_size(0), 0);
    assert_eq!(h.sectors_for_size(512), 1);
    assert_eq!(h.sectors_for_size(513), 2);
}

#[test]
fn header_validation_errors() {
    assert_eq!(validate_header(&standard_header()), Ok(()));
    let big = FatHeader::from_bytes(&header_bytes(1024, 4, 1, 2, 512, 9));
    assert_eq!(validate_header(&big), Err(FatError::BadSectorSize(1024)));
    let no_fat = FatHeader::from_bytes(&header_bytes(512, 4, 1, 2, 512, 0));
    assert_eq!(validate_header(&no_fat), Err(FatError::BadFatSize(0)));
    let long_fat = FatHeader::from_bytes(&header_bytes(512, 4, 1, 2, 512, 21));
    assert_eq!(validate_header(&long_fat), Err(FatError::BadFatSize(21)));
    let max_fat = FatHeader::from_bytes(&header_bytes(512, 4, 1, 2, 512, 20));
    assert_eq!(validate_header(&max_fat), Ok(()));
    assert!(matches!(FAT::new(long_fat, [0; FAT_TABLE_SIZE]), Err(FatError::BadFatSize(21))));
}

#[test]
fn entry_tests() {
    let bytes = entry_bytes(b"KERNEL  BIN", 0x20, 0x0001, 0x0102, 4096);
    let e = DirectoryEntry::from_bytes(&bytes, 0);
    assert_eq!(&e.name, b"KERNEL  BIN");
    assert_eq!(e.file_size, 4096);
    assert!(!e.is_empty());
    assert!(!e.is_long_name());
    assert!(!e.is_directory());
    assert_eq!(e.get_start_cluster(), 0x0103);
    let dir = DirectoryEntry::from_bytes(&entry_bytes(b"BOOT       ", 0x10, 0, 5, 0), 0);
    assert!(!dir.is_directory());
    let long = DirectoryEntry::from_bytes(&entry_bytes(b"AB         ", 0x0F, 0, 0, 0), 0);
    assert!(long.is_long_name());
    let deleted = DirectoryEntry::from_bytes(&entry_bytes(b"\xE5BC        ", 0, 0, 0, 0), 0);
    assert!(deleted.is_empty());
    let unused = DirectoryEntry::from_bytes(&[0u8; 32], 0);
    assert!(unused.is_empty());
}

fn volume() -> FAT {
    let mut table = [0u8; FAT_TABLE_SIZE];
    table[8] = 0xff;
    table[9] = 0xff;
    match FAT::new(standard_header(), table) {
        Ok(f) => f,
        Err(_) => panic!("valid header refused"),
    }
}

#[test]
fn load_entry_reads_clusters_up_to_the_end_mark() {
    let fat = volume();
    let e = DirectoryEntry::from_bytes(&entry_bytes(b"KERNEL  BIN", 0x20, 0, 3, 4096), 0);
    let reads = fat.load_entry(&e, 0x100000);
    assert_eq!(
        reads,
        vec![
            SectorRead { lba: 55, sectors: 4, target: 0x100000 },
            SectorRead { lba: 59, sectors: 4, target: 0x100800 },
        ]
    );
    let last = DirectoryEntry::from_bytes(&entry_bytes(b"KERNEL  BIN", 0x20, 0, 4, 1), 0);
    assert_eq!(fat.load_entry(&last, 0x200000), vec![SectorRead { lba: 59, sectors: 4, target: 0x200000 }]);
}

#[test]
fn root_scan_covers_all_entries() {
    let fat = volume();
    assert_eq!(fat.root_entries_per_sector(), 14);
    let lbas = fat.root_scan();
    assert_eq!(lbas.len(), 37);
    assert_eq!(lbas[0], 19);
    assert_eq!(lbas[36], 55);
    assert_eq!(sector_scan(5, 28, 14), vec![5, 6]);
    assert_eq!(sector_scan(5, 29, 14), vec![5, 6, 7]);
    assert_eq!(sector_scan(5, 0, 14), Vec::<usize>::new());
}

#[test]
fn kernel_found_at_header_stride() {
    let fat = volume();
    let mut sector = vec![0u8; 512];
    sector[0..32].copy_from_slice(&entry_bytes(b"\xE5ERNEL  BIN", 0x20, 0, 2, 1));
    sector[36..68].copy_from_slice(&entry_bytes(b"KERNEL  BIN", 0x0F, 0, 2, 1));
    sector[72..104].copy_from_slice(&entry_bytes(b"OTHER   BIN", 0x20, 0, 2, 1));
    sector[108..140].copy_from_slice(&entry_bytes(b"KERNEL  BIN", 0x20, 0, 9, 777));
    let found = kernel_entry_in_sector(&fat, &sector).unwrap();
    assert_eq!(found.file_size, 777);
    assert_eq!(found.get_start_cluster(), 9);
    assert_eq!(&found.name, &KERNEL_FILE_NAME);
    let other = fat.find_root_entry(&sector, |e: &DirectoryEntry| &e.name == b"OTHER   BIN");
    assert_eq!(other.unwrap().file_size, 1);
    assert!(fat.find_root_entry(&sector, |e: &DirectoryEntry| &e.name == b"MISSING BIN").is_none());
    let mut at_32 = vec![0u8; 512];
    at_32[32..64].copy_from_slice(&entry_bytes(b"KERNEL  BIN", 0x20, 0, 9, 777));
    assert!(kernel_entry_in_sector(&fat, &at_32).is_none());
}

#[test]
fn predicate_search_takes_the_first_accepted_visible_entry() {
    let fat = volume();
    let mut sector = vec![0u8; 512];
    sector[0..32].copy_from_slice(&entry_bytes(b"\xE5IG     BIN", 0x20, 0, 2, 5000));
    sector[36..68].copy_from_slice(&entry_bytes(b"SMALL   BIN", 0x20, 0, 3, 10));
    sector[72..104].copy_from_slice(&entry_bytes(b"BIG     BIN", 0x20, 0, 4, 4000));
    sector[108..140].copy_from_slice(&entry_bytes(b"BIGGER  BIN", 0x20, 0, 5, 9000));
    let big = fat.find_root_entry(&sector, |e: &DirectoryEntry| e.file_size > 1000).unwrap();
    assert_eq!(&big.name, b"BIG     BIN");
    assert_eq!(big.get_start_cluster(), 4);
    let any = fat.find_root_entry(&sector, |_e: &DirectoryEntry| true).unwrap();
    assert_eq!(&any.name, b"SMALL   BIN");
    assert!(fat.find_root_entry(&sector, |e: &DirectoryEntry| e.file_size > 10000).is_none());
}

#[test]
fn whole_directory_search_stops_at_the_first_sector_with_a_match() {
    let fat = volume();
    let mut first = vec![0u8; 512];
    first[0..32].copy_from_slice(&entry_bytes(b"OTHER   BIN", 0x20, 0, 2, 1));
    let mut second = vec![0u8; 512];
    second[36..68].copy_from_slice(&entry_bytes(b"KERNEL  BIN", 0x20, 0, 7, 321));
    let mut third = vec![0u8; 512];
    third[0..32].copy_from_slice(&entry_bytes(b"KERNEL  BIN", 0x20, 0, 8, 999));
    let found = kernel_entry(&fat, &vec![first.clone(), second.clone(), third.clone()]).unwrap();
    assert_eq!(found.file_size, 321);
    assert_eq!(found.get_start_cluster(), 7);
    let later = kernel_entry(&fat, &vec![first.clone(), third]).unwrap();
    assert_eq!(later.file_size, 999);
    assert!(kernel_entry(&fat, &vec![first.clone(), first]).is_none());
    assert!(kernel_entry(&fat, &Vec::new()).is_none());
}

#[test]
fn root_listing_sectors_and_slots() {
    let h = standard_header();
    let lbas = root_directory_sectors(&h).unwrap();
    assert_eq!(lbas.len(), 32);
    assert_eq!(lbas[0], 19);
    assert_eq!(lbas[31], 50);
    let odd = FatHeader::from_bytes(&header_bytes(500, 4, 1, 2, 512, 9));
    assert!(root_directory_sectors(&odd).is_none());
    let mut sector = vec![0u8; 512];
    sector[0..32].copy_from_slice(&entry_bytes(b"A       TXT", 0x20, 0, 2, 1));
    sector[64..96].copy_from_slice(&entry_bytes(b"B       TXT", 0x0F, 0, 2, 1));
    sector[96..128].copy_from_slice(&entry_bytes(b"DIR        ", 0x10, 0, 2, 0));
    sector[128..160].copy_from_slice(&entry_bytes(b"\xE5       TXT", 0x20, 0, 2, 1));
    sector[480..512].copy_from_slice(&entry_bytes(b"Z       TXT", 0x01, 0, 2, 1));
    assert_eq!(root_directory_slots(&h, &sector), vec![0, 3, 15]);
}

#[test]
fn checked_load_refuses_unreadable_files() {
    let fat = volume();
    let ok = DirectoryEntry::from_bytes(&entry_bytes(b"KERNEL  BIN", 0x20, 0, 3, 4096), 0);
    assert_eq!(fat.load_entry_checked(&ok, 0x100000), Some(fat.load_entry(&ok, 0x100000)));
    let reserved = DirectoryEntry::from_bytes(&entry_bytes(b"KERNEL  BIN", 0x20, 0, 1, 1), 0);
    assert_eq!(fat.load_entry_checked(&reserved, 0x100000), None);
    let unmarked = DirectoryEntry::from_bytes(&entry_bytes(b"KERNEL  BIN", 0x20, 0, 5, 1), 0);
    assert_eq!(fat.load_entry_checked(&unmarked, 0x100000), None);
    assert_eq!(fat.load_entry_checked(&ok, usize::MAX - 100), None);
}

#[test]
fn layout_fits_checks_the_sector_arithmetic() {
    assert!(standard_header().layout_fits());
    assert!(!FatHeader::from_bytes(&header_bytes(0, 4, 1, 2, 512, 9)).layout_fits());
    assert!(!FatHeader::from_bytes(&header_bytes(512, 4, 60000, 2, 512, 3000)).layout_fits());
    assert!(!FatHeader::from_bytes(&header_bytes(512, 4, 65510, 1, 512, 1)).layout_fits());
}

#[test]
fn root_start_fits_checks_16_bits() {
    assert!(standard_header().root_start_fits());
    assert!(!FatHeader::from_bytes(&header_bytes(512, 4, 65535, 1, 512, 1)).root_start_fits());
    assert!(FatHeader::from_bytes(&header_bytes(512, 4, 65534, 1, 512, 1)).root_start_fits());
}
