use corrosium::kernel_loader::{
    load_plan, plan_kernel_load, plan_segment, ElfImage, LoadError, PlanEnd, ProgramSegment,
    SegmentPlan, PT_LOAD,
};

struct Phdr {
    p_type: u32,
    offset: u64,
    vaddr: u64,
    filesz: u64,
    memsz: u64,
}

fn elf64(entry: u64, phdrs: &[Phdr], class: u8, total_len: usize) -> Vec<u8> {
    let mut b = vec![0u8; 64];
    b[0..4].copy_from_slice(&[0x7f, b'E', b'L', b'F']);
    b[4] = class;
    b[5] = 1; // little endian
    b[6] = 1; // version
    b[16..18].copy_from_slice(&2u16.to_le_bytes());
    b[18..20].copy_from_slice(&0x3eu16.to_le_bytes());
    b[20..24].copy_from_slice(&1u32.to_le_bytes());
    b[24..32].copy_from_slice(&entry.to_le_bytes());
    let phoff: u64 = if phdrs.is_empty() { 0 } else { 64 };
    b[32..40].copy_from_slice(&phoff.to_le_bytes());
    b[52..54].copy_from_slice(&64u16.to_le_bytes());
    b[54..56].copy_from_slice(&56u16.to_le_bytes());
    b[56..58].copy_from_slice(&(phdrs.len() as u16).to_le_bytes());
    b[58..60].copy_from_slice(&64u16.to_le_bytes());
    for p in phdrs {
        let mut h = vec![0u8; 56];
        h[0..4].copy_from_slice(&p.p_type.to_le_bytes());
        h[4..8].copy_from_slice(&5u32.to_le_bytes());
        h[8..16].copy_from_slice(&p.offset.to_le_bytes());
        h[16..24].copy_from_slice(&p.vaddr.to_le_bytes());
        h[24..32].copy_from_slice(&p.vaddr.to_le_bytes());
        h[32..40].copy_from_slice(&p.filesz.to_le_bytes());
        h[40..48].copy_from_slice(&p.memsz.to_le_bytes());
        h[48..56].copy_from_slice(&0x1000u64.to_le_bytes());
        b.extend_from_slice(&h);
    }
    if b.len() < total_len {
        b.resize(total_len, 0xAA);
    }
    b
}

fn seg(p_type: u32, p_offset: u64, p_vaddr: u64, p_filesz: u64, p_memsz: u64) -> ProgramSegment {
    ProgramSegment::new(p_type, p_offset, p_vaddr, p_filesz, p_memsz)
}

#[test]
fn segment_plan_rounds_to_pages() {
    let p = seg(PT_LOAD, 0x1000, 0xffff_ffff_8000_0123, 0x100, 0x2000);
    assert_eq!(
        plan_segment(&p),
        Some(SegmentPlan {
            page_start: 0xffff_ffff_8000_0000,
            num_pages: 3,
            page_offset: 0x123,
            file_offset: 0x1000,
            file_size: 0x100,
            bss_size: 0x1f00,
        })
    );
    assert_eq!(plan_segment(&seg(PT_LOAD, 0, 0x2000, 0, 0)), None);
    assert_eq!(plan_segment(&seg(PT_LOAD, 0, 0x2001, 0, 0)).map(|s| s.num_pages), Some(1));
}

#[test]
fn plan_skips_other_segments_and_tracks_the_range() {
    let image = ElfImage {
        is_elf64: true,
        entry_point: 0xffff_ffff_8000_0010,
        segments: Some(vec![
            seg(6, 0, 0x40, 0x100, 0x100),
            seg(PT_LOAD, 0x1000, 0xffff_ffff_8000_1000, 0x200, 0x300),
            seg(PT_LOAD, 0, 0x5000, 0, 0),
            seg(PT_LOAD, 0x2000, 0xffff_ffff_8000_0000, 0x80, 0x80),
        ]),
    };
    let plan = match plan_kernel_load(&image, 0x3000) {
        Ok(p) => p,
        Err(_) => panic!("plan refused"),
    };
    assert_eq!(plan.segments.len(), 2);
    assert_eq!(plan.segments[0].page_start, 0xffff_ffff_8000_1000);
    assert_eq!(plan.segments[1].page_start, 0xffff_ffff_8000_0000);
    assert_eq!(plan.info.start_addr.as_u64(), 0xffff_ffff_8000_0000);
    assert_eq!(plan.info.end_addr.as_u64(), 0xffff_ffff_8000_1300);
    assert_eq!(plan.info.entry_point.as_u64(), 0xffff_ffff_8000_0010);
}

#[test]
fn plan_without_loaded_segments_reports_the_empty_range() {
    let image = ElfImage { is_elf64: true, entry_point: 5, segments: Some(vec![]) };
    let plan = plan_kernel_load(&image, 0).ok().unwrap();
    assert_eq!(plan.info.start_addr.as_u64(), u64::MAX);
    assert_eq!(plan.info.end_addr.as_u64(), 0);
}

#[test]
fn plan_refuses_32_bit_images_and_missing_headers() {
    let image32 = ElfImage { is_elf64: false, entry_point: 0, segments: Some(vec![]) };
    assert!(matches!(plan_kernel_load(&image32, 0), Err(LoadError::Unsupported)));
    let headless = ElfImage { is_elf64: true, entry_point: 0, segments: None };
    assert!(matches!(plan_kernel_load(&headless, 0), Err(LoadError::NoSegments)));
}

#[test]
fn load_plan_parses_an_elf64_file() {
    let phdrs = [
        Phdr { p_type: PT_LOAD, offset: 0x1000, vaddr: 0xffff_ffff_8000_0000, filesz: 0x800, memsz: 0x1800 },
        Phdr { p_type: 4, offset: 0, vaddr: 0, filesz: 0x10, memsz: 0x10 },
    ];
    let data = elf64(0xffff_ffff_8000_0040, &phdrs, 2, 0x1800);
    let plan = match load_plan(&data) {
        Ok(p) => p,
        _ => panic!("plan refused"),
    };
    assert_eq!(plan.segments.len(), 1);
    assert_eq!(plan.segments[0].num_pages, 2);
    assert_eq!(plan.segments[0].file_offset, 0x1000);
    assert_eq!(plan.segments[0].bss_size, 0x1000);
    assert_eq!(plan.info.entry_point.as_u64(), 0xffff_ffff_8000_0040);
    assert_eq!(plan.info.end_addr.as_u64(), 0xffff_ffff_8000_1800);
}

#[test]
fn load_plan_errors() {
    assert!(matches!(load_plan(&[1, 2, 3]), Err(LoadError::Parse)));
    let phdrs = [Phdr { p_type: PT_LOAD, offset: 0, vaddr: 0x1000, filesz: 0x10, memsz: 0x10 }];
    let data32 = elf64(0, &[], 1, 0);
    assert!(matches!(load_plan(&data32), Err(LoadError::Unsupported)));
    let headless = elf64(0x10, &[], 2, 0x100);
    assert!(matches!(load_plan(&headless), Err(LoadError::NoSegments)));
    let ok = elf64(0x10, &phdrs, 2, 0x200);
    assert!(matches!(load_plan(&ok), Ok(_)));
}

#[test]
fn load_stops_at_segments_past_the_file() {
    let phdrs = [Phdr { p_type: PT_LOAD, offset: 0x100, vaddr: 0x1000, filesz: 0x1000, memsz: 0x1000 }];
    let data = elf64(0x10, &phdrs, 2, 0x200);
    let plan = load_plan(&data).ok().unwrap();
    assert!(plan.segments.is_empty());
    assert_eq!(plan.end, PlanEnd::Unreadable { page_start: 0x1000, num_pages: 1 });
    let inverted = [Phdr { p_type: PT_LOAD, offset: 0, vaddr: 0x1000, filesz: 0x20, memsz: 0x10 }];
    let plan = load_plan(&elf64(0x10, &inverted, 2, 0x200)).ok().unwrap();
    assert_eq!(plan.end, PlanEnd::Unreadable { page_start: 0x1000, num_pages: 1 });
}

#[test]
fn load_goes_through_the_segments_before_the_bad_one() {
    let image = ElfImage {
        is_elf64: true,
        entry_point: 1,
        segments: Some(vec![
            seg(PT_LOAD, 0, 0x4000, 0x10, 0x20),
            seg(PT_LOAD, 0, 0xffff_ffff_ffff_f800, 0x10, 0x1000),
            seg(PT_LOAD, 0, 0x8000, 0x10, 0x20),
        ]),
    };
    let plan = plan_kernel_load(&image, 0x100).ok().unwrap();
    assert_eq!(plan.segments.len(), 1);
    assert_eq!(plan.segments[0].page_start, 0x4000);
    assert_eq!(plan.end, PlanEnd::Overflow);
    assert_eq!(plan.info.start_addr.as_u64(), 0x4000);
    assert_eq!(plan.info.end_addr.as_u64(), 0x4020);
    let past_file = ElfImage {
        is_elf64: true,
        entry_point: 1,
        segments: Some(vec![
            seg(PT_LOAD, 0, 0x4000, 0x10, 0x20),
            seg(PT_LOAD, 0x80, 0x6010, 0x100, 0x2000),
            seg(PT_LOAD, 0, 0x8000, 0x10, 0x20),
        ]),
    };
    let plan = plan_kernel_load(&past_file, 0x100).ok().unwrap();
    assert_eq!(plan.segments.len(), 1);
    assert_eq!(plan.end, PlanEnd::Unreadable { page_start: 0x6000, num_pages: 3 });
    let whole = plan_kernel_load(&past_file, 0x200).ok().unwrap();
    assert_eq!(whole.segments.len(), 3);
    assert_eq!(whole.end, PlanEnd::Complete);
}

#[test]
fn load_info_layout_and_range() {
    let image = ElfImage {
        is_elf64: true,
        entry_point: 1,
        segments: Some(vec![seg(PT_LOAD, 0, 0x4000, 0x10, 0x20)]),
    };
    let plan = plan_kernel_load(&image, 0x100).ok().unwrap();
    let layout = plan.info.layout();
    assert_eq!(layout.start_addr.as_u64(), 0x4000);
    assert_eq!(layout.end_addr.as_u64(), 0x4020);
    let range = layout.range();
    assert_eq!((range.start_addr, range.end_addr), (0x4000, 0x4020));
}

#[test]
fn empty_segments_are_not_checked_against_the_file() {
    let phdrs = [
        Phdr { p_type: PT_LOAD, offset: 0xffff_0000, vaddr: 0x3000, filesz: 0x50, memsz: 0 },
        Phdr { p_type: PT_LOAD, offset: 0x100, vaddr: 0x1000, filesz: 0x10, memsz: 0x10 },
    ];
    let data = elf64(0x10, &phdrs, 2, 0x200);
    let plan = match load_plan(&data) {
        Ok(p) => p,
        _ => panic!("plan refused"),
    };
    assert_eq!(plan.segments.len(), 1);
    assert_eq!(plan.info.start_addr.as_u64(), 0x1000);
}
