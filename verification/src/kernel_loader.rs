use vstd::prelude::*;

use crate::bootinfo::KernelLayout;
use crate::platform::address::VirtualAddress;

verus! {

/// Segment type of a loadable segment.
pub const PT_LOAD: u32 = 1;

/// Size of a page.
pub const PAGE_SIZE: u64 = 0x1000;

/// A program header of an ELF file, with the fields that loading reads.
#[derive(Clone, Copy, Debug, PartialEq, Eq)]
pub struct ProgramSegment {
    pub p_type: u32,
    pub p_offset: u64,
    pub p_vaddr: u64,
    pub p_filesz: u64,
    pub p_memsz: u64,
}

/// What the ELF parser finds in a file: whether it is a 64-bit file, its
/// entry point, and its program headers (none where the file has no
/// program header table).
pub struct ElfImage {
    pub is_elf64: bool,
    pub entry_point: u64,
    pub segments: Option<Vec<ProgramSegment>>,
}

impl View for ElfImage {
    type V = (bool, u64, Option<Seq<ProgramSegment>>);

    open spec fn view(&self) -> (bool, u64, Option<Seq<ProgramSegment>>) {
        (
            self.is_elf64,
            self.entry_point,
            match self.segments {
                Some(v) => Some(v@),
                None => None,
            },
        )
    }
}

/// What `elf::ElfBytes::minimal_parse` makes of the bytes: `None` where it
/// refuses them; else the class test, the entry point and the program headers
/// that its segment iterator yields.
pub uninterp spec fn elf_image_of(data: Seq<u8>) -> Option<(bool, u64, Option<Seq<ProgramSegment>>)>;

/// Parses an ELF file with `elf::ElfBytes::minimal_parse` (any endianness).
/// Trusted: the result is the one `elf_image_of` names for these bytes; it
/// holds, as plain values, whether the file header's class is ELF64, its
/// entry point, and the program headers that iterating the segment table
/// gives, each with its type, offset, address, file size and memory size.
#[verifier::external_body]
fn parse_elf(data: &[u8]) -> (r: Option<ElfImage>)
    ensures
        elf_image_of(data@) == match r {
            Some(img) => Some(img@),
            None => None,
        },
{
    let file = elf::ElfBytes::<elf::endian::AnyEndian>::minimal_parse(data).ok()?;
    let is_elf64 = match file.ehdr.class {
        elf::file::Class::ELF64 => true,
        elf::file::Class::ELF32 => false,
    };
    let segments = file.segments().map(|t| t.iter().map(|p| ProgramSegment::new(
        p.p_type, p.p_offset, p.p_vaddr, p.p_filesz, p.p_memsz)).collect());
    Some(ElfImage { is_elf64, entry_point: file.ehdr.e_entry, segments })
}

impl ProgramSegment {
    pub fn new(p_type: u32, p_offset: u64, p_vaddr: u64, p_filesz: u64, p_memsz: u64) -> (r: Self)
        ensures
            r == (ProgramSegment { p_type, p_offset, p_vaddr, p_filesz, p_memsz }),
    {
        ProgramSegment { p_type, p_offset, p_vaddr, p_filesz, p_memsz }
    }
}

/// Where a loadable segment goes: the pages it covers, where in the first
/// page it starts, and which bytes of the file fill it, the rest being zero.
#[derive(Clone, Copy, Debug, PartialEq, Eq)]
pub struct SegmentPlan {
    pub page_start: u64,
    pub num_pages: usize,
    pub page_offset: u64,
    pub file_offset: u64,
    pub file_size: u64,
    pub bss_size: u64,
}

/// The virtual range the kernel occupies and its entry point.
pub struct KernelLoadInfo {
    pub start_addr: VirtualAddress,
    pub end_addr: VirtualAddress,
    pub entry_point: VirtualAddress,
}

impl KernelLoadInfo {
    /// The kernel's range, as handed to the kernel.
    pub fn layout(&self) -> (r: KernelLayout)
        ensures
            r.start_addr@ == self.start_addr@,
            r.end_addr@ == self.end_addr@,
    {
        KernelLayout { start_addr: self.start_addr, end_addr: self.end_addr }
    }
}

/// How to load a kernel: the segments to map and fill, in order, what the
/// load reports once they are in place, and how it ends.
pub struct KernelPlan {
    pub segments: Vec<SegmentPlan>,
    pub info: KernelLoadInfo,
    pub end: PlanEnd,
}

/// Why a kernel image is refused.
#[derive(Clone, Copy, Debug, PartialEq, Eq)]
pub enum LoadError {
    /// The ELF parser refuses the file.
    Parse,
    /// The file is not a 64-bit ELF file.
    Unsupported,
    /// The file has no program header table.
    NoSegments,
}

/// Start of the page that holds `addr`.
pub open spec fn page_floor(addr: int) -> int {
    addr - addr % (PAGE_SIZE as int)
}

/// Start of the first page at or after `addr`.
pub open spec fn page_ceil(addr: int) -> int {
    page_floor(addr + PAGE_SIZE - 1)
}

/// The end of the segment in memory, rounded up to a page, stays below 2^64.
pub open spec fn segment_fits_space(p: ProgramSegment) -> bool {
    p.p_vaddr + p.p_memsz + PAGE_SIZE - 1 <= u64::MAX
}

/// A loadable segment can be placed without overflow and, where it covers
/// pages, its file bytes lie within a file of `file_len` bytes, with no more
/// of them than its memory size.
pub open spec fn segment_loadable(p: ProgramSegment, file_len: int) -> bool {
    p.p_type == PT_LOAD ==> {
        &&& segment_fits_space(p)
        &&& segment_placed(p) ==> p.p_offset + p.p_filesz <= file_len && p.p_filesz <= p.p_memsz
    }
}

/// Every loadable segment of `segs` can be loaded from a file of `file_len` bytes.
pub open spec fn segments_loadable(segs: Seq<ProgramSegment>, file_len: int) -> bool {
    forall|i: int| 0 <= i < segs.len() ==> segment_loadable(#[trigger] segs[i], file_len)
}

/// Pages a segment covers: from the page of its start to the page boundary
/// at or after its end in memory.
pub open spec fn segment_pages(p: ProgramSegment) -> int {
    (page_ceil(p.p_vaddr + p.p_memsz) - page_floor(p.p_vaddr as int)) / (PAGE_SIZE as int)
}

/// The plan of a segment that covers at least one page.
pub open spec fn plan_of(p: ProgramSegment) -> SegmentPlan {
    SegmentPlan {
        page_start: page_floor(p.p_vaddr as int) as u64,
        num_pages: segment_pages(p) as usize,
        page_offset: (p.p_vaddr - page_floor(p.p_vaddr as int)) as u64,
        file_offset: p.p_offset,
        file_size: p.p_filesz,
        bss_size: (p.p_memsz - p.p_filesz) as u64,
    }
}

/// The segment is loaded: it is loadable by type and its page count, taken
/// as a `usize`, is not zero.
pub open spec fn segment_placed(p: ProgramSegment) -> bool {
    p.p_type == PT_LOAD && segment_pages(p) as usize > 0
}

/// Plans of the segments that are loaded, in order.
pub open spec fn planned_segments(segs: Seq<ProgramSegment>) -> Seq<SegmentPlan>
    decreases segs.len(),
{
    if segs.len() == 0 {
        Seq::empty()
    } else if segment_placed(segs.last()) {
        planned_segments(segs.drop_last()).push(plan_of(segs.last()))
    } else {
        planned_segments(segs.drop_last())
    }
}

/// Lowest start address of the loaded segments, `u64::MAX` where none is.
pub open spec fn range_start(segs: Seq<ProgramSegment>) -> int
    decreases segs.len(),
{
    if segs.len() == 0 {
        u64::MAX as int
    } else if segment_placed(segs.last()) {
        let s = range_start(segs.drop_last());
        if segs.last().p_vaddr < s {
            segs.last().p_vaddr as int
        } else {
            s
        }
    } else {
        range_start(segs.drop_last())
    }
}

/// Highest end address of the loaded segments, 0 where none is.
pub open spec fn range_end(segs: Seq<ProgramSegment>) -> int
    decreases segs.len(),
{
    if segs.len() == 0 {
        0
    } else if segment_placed(segs.last()) {
        let e = range_end(segs.drop_last());
        if segs.last().p_vaddr + segs.last().p_memsz > e {
            segs.last().p_vaddr + segs.last().p_memsz
        } else {
            e
        }
    } else {
        range_end(segs.drop_last())
    }
}

/// The reported range holds every loaded segment: each starts at or after
/// its start and ends at or before its end.
pub proof fn lemma_range_covers_segments(segs: Seq<ProgramSegment>, i: int)
    requires
        0 <= i < segs.len(),
        segment_placed(segs[i]),
    ensures
        range_start(segs) <= segs[i].p_vaddr,
        segs[i].p_vaddr + segs[i].p_memsz <= range_end(segs),
    decreases segs.len(),
{
    if i < segs.len() - 1 {
        lemma_range_covers_segments(segs.drop_last(), i);
        assert(segs.drop_last()[i] == segs[i]);
    }
}

/// Whether a segment is placed depends on its type, address and memory size
/// alone: where its file bytes are, or how many there are, does not matter.
pub proof fn lemma_placement_ignores_file_bytes(p: ProgramSegment, q: ProgramSegment)
    requires
        p.p_type == q.p_type,
        p.p_vaddr == q.p_vaddr,
        p.p_memsz == q.p_memsz,
    ensures
        segment_placed(p) == segment_placed(q),
        segment_pages(p) == segment_pages(q),
{
}

/// A loadable segment that takes memory is placed, whether or not any of it
/// comes from the file: it covers at least the pages its memory size needs,
/// and its plan fills `p_filesz` bytes from the file and zeroes the rest of
/// its memory.
pub proof fn lemma_memory_segment_placed(p: ProgramSegment)
    requires
        p.p_type == PT_LOAD,
        segment_fits_space(p),
        p.p_memsz > 0,
        p.p_filesz <= p.p_memsz,
        segment_pages(p) <= usize::MAX,
    ensures
        segment_placed(p),
        segment_pages(p) * (PAGE_SIZE as int) >= p.p_memsz,
        plan_of(p).num_pages >= 1,
        plan_of(p).file_size == p.p_filesz,
        plan_of(p).file_size + plan_of(p).bss_size == p.p_memsz,
        plan_of(p).page_start + plan_of(p).page_offset == p.p_vaddr,
{
    let v = p.p_vaddr as int;
    let b = v + p.p_memsz + PAGE_SIZE - 1;
    let lo = page_floor(v);
    let hi = page_ceil(v + p.p_memsz);
    assert(hi == b - b % 4096);
    assert(lo == v - v % 4096);
    let d = hi - lo;
    assert(d >= p.p_memsz);
    assert(d % 4096 == 0) by {
        vstd::arithmetic::div_mod::lemma_fundamental_div_mod(b, 4096);
        vstd::arithmetic::div_mod::lemma_fundamental_div_mod(v, 4096);
        assert(hi == 4096 * (b / 4096));
        assert(lo == 4096 * (v / 4096));
        assert(d == 4096 * (b / 4096 - v / 4096)) by (nonlinear_arith)
            requires
                hi == 4096 * (b / 4096),
                lo == 4096 * (v / 4096),
                d == hi - lo,
        ;
        vstd::arithmetic::div_mod::lemma_mod_multiples_basic(b / 4096 - v / 4096, 4096);
    }
    assert(d / 4096 * 4096 == d) by {
        vstd::arithmetic::div_mod::lemma_fundamental_div_mod(d, 4096);
    }
    assert(segment_pages(p) == d / 4096);
}

/// Start of the page that holds the segment's first byte.
fn page_start_of(p: &ProgramSegment) -> (r: u64)
    ensures
        r == page_floor(p.p_vaddr as int),
{
    let v = p.p_vaddr;
    assert(v & !0xFFFu64 == v - v % 4096) by (bit_vector);
    v & !0xFFF
}

/// Pages the segment covers, as a `usize`.
pub fn segment_page_count(p: &ProgramSegment) -> (r: usize)
    requires
        segment_fits_space(*p),
    ensures
        r == segment_pages(*p) as usize,
{
    let page_start = page_start_of(p);
    let page_end = (p.p_vaddr + p.p_memsz + 0xFFF) & !0xFFF;
    proof {
        let e = (p.p_vaddr + p.p_memsz + 0xFFF) as u64;
        assert(e & !0xFFFu64 == e - e % 4096) by (bit_vector);
    }
    (#[verifier::truncate] (((page_end - page_start) / 0x1000) as usize))
}

/// Where the segment goes, or `None` where it covers no page.
pub fn plan_segment(p: &ProgramSegment) -> (r: Option<SegmentPlan>)
    requires
        p.p_type == PT_LOAD,
        segment_fits_space(*p),
        segment_placed(*p) ==> p.p_filesz <= p.p_memsz,
    ensures
        match r {
            Some(plan) => segment_placed(*p) && plan == plan_of(*p),
            None => !segment_placed(*p),
        },
        p.p_memsz > 0 && segment_pages(*p) <= usize::MAX ==> r is Some,
{
    proof {
        if p.p_memsz > 0 && segment_pages(*p) <= usize::MAX && p.p_filesz <= p.p_memsz {
            lemma_memory_segment_placed(*p);
        }
    }
    let page_start = page_start_of(p);
    let num_pages = segment_page_count(p);
    if num_pages == 0 {
        return None;
    }
    Some(
        SegmentPlan {
            page_start,
            num_pages,
            page_offset: p.p_vaddr - page_start,
            file_offset: p.p_offset,
            file_size: p.p_filesz,
            bss_size: p.p_memsz - p.p_filesz,
        },
    )
}

/// Number of segments before the first one that cannot be loaded from a
/// file of `file_len` bytes; all of them where each can.
pub open spec fn loadable_prefix(segs: Seq<ProgramSegment>, file_len: int) -> int
    decreases segs.len(),
{
    if segments_loadable(segs, file_len) || segs.len() == 0 {
        segs.len() as int
    } else {
        loadable_prefix(segs.drop_last(), file_len)
    }
}

/// The segments a load goes through before it stops: those before the first
/// one that cannot be loaded.
pub open spec fn loaded_segments(segs: Seq<ProgramSegment>, file_len: int) -> Seq<ProgramSegment> {
    segs.subrange(0, loadable_prefix(segs, file_len))
}

/// How a load ends, after the segments before it are in place.
#[derive(Clone, Copy, Debug, PartialEq, Eq)]
pub enum PlanEnd {
    /// Every loadable segment is in place.
    Complete,
    /// The next loadable segment ends past the top of the address space: the
    /// load stops before mapping it.
    Overflow,
    /// The next loadable segment covers `num_pages` pages from `page_start`,
    /// but its file bytes lie past the end of the file or exceed its memory
    /// size: the load stops once those pages are mapped.
    Unreadable { page_start: u64, num_pages: usize },
}

/// How a load stops at the segment `p` that cannot be loaded.
pub open spec fn stop_at(p: ProgramSegment) -> PlanEnd {
    if !segment_fits_space(p) {
        PlanEnd::Overflow
    } else {
        PlanEnd::Unreadable {
            page_start: page_floor(p.p_vaddr as int) as u64,
            num_pages: segment_pages(p) as usize,
        }
    }
}

/// How the load of `segs` from a file of `file_len` bytes ends.
pub open spec fn plan_end(segs: Seq<ProgramSegment>, file_len: int) -> PlanEnd {
    let k = loadable_prefix(segs, file_len);
    if k < segs.len() {
        stop_at(segs[k])
    } else {
        PlanEnd::Complete
    }
}

/// Where the first `i` segments can be loaded and segment `i`, if there is
/// one, cannot, the load goes through exactly the first `i`.
proof fn lemma_loadable_prefix_at(segs: Seq<ProgramSegment>, file_len: int, i: int)
    requires
        0 <= i <= segs.len(),
        forall|j: int| 0 <= j < i ==> segment_loadable(#[trigger] segs[j], file_len),
        i < segs.len() ==> !segment_loadable(segs[i], file_len),
    ensures
        loadable_prefix(segs, file_len) == i,
    decreases segs.len(),
{
    if i < segs.len() {
        assert(!segments_loadable(segs, file_len));
        let d = segs.drop_last();
        assert forall|j: int| 0 <= j < i implies segment_loadable(#[trigger] d[j], file_len) by {
            assert(d[j] == segs[j]);
        }
        if i < d.len() {
            assert(d[i] == segs[i]);
        }
        lemma_loadable_prefix_at(d, file_len, i);
    }
}

/// The load of a parsed image from a file of `file_len` bytes: refused where
/// the image is not 64-bit or has no program headers; else the segments are
/// gone through in order up to the first one that cannot be loaded, giving
/// the plans of those that cover pages, the range from the lowest start to
/// the highest end of those, the entry point, and how the load ends.
pub fn plan_kernel_load(image: &ElfImage, file_len: usize) -> (r: Result<KernelPlan, LoadError>)
    ensures
        match r {
            Ok(plan) => {
                let segs = image.segments->0@;
                let done = loaded_segments(segs, file_len as int);
                &&& image.is_elf64
                &&& image.segments is Some
                &&& plan.segments@ == planned_segments(done)
                &&& plan.info.start_addr@ == range_start(done)
                &&& plan.info.end_addr@ == range_end(done)
                &&& plan.info.entry_point@ == image.entry_point
                &&& plan.end == plan_end(segs, file_len as int)
            },
            Err(e) => e == if !image.is_elf64 {
                LoadError::Unsupported
            } else {
                LoadError::NoSegments
            } && (!image.is_elf64 || image.segments is None),
        },
{
    if !image.is_elf64 {
        return Err(LoadError::Unsupported);
    }
    let segments = match &image.segments {
        Some(s) => s,
        None => return Err(LoadError::NoSegments),
    };
    let mut start_addr: u64 = u64::MAX;
    let mut end_addr: u64 = 0;
    let mut plans: Vec<SegmentPlan> = Vec::new();
    let mut end = PlanEnd::Complete;
    let mut i: usize = 0;
    while i < segments.len()
        invariant_except_break
            end == PlanEnd::Complete,
        invariant
            i <= segments@.len(),
            file_len <= u64::MAX,
            forall|j: int| 0 <= j < i ==> segment_loadable(#[trigger] segments@[j], file_len as int),
            plans@ == planned_segments(segments@.subrange(0, i as int)),
            start_addr == range_start(segments@.subrange(0, i as int)),
            end_addr == range_end(segments@.subrange(0, i as int)),
        ensures
            i == segments@.len() ==> end == PlanEnd::Complete,
            i < segments@.len() ==> !segment_loadable(segments@[i as int], file_len as int) && end
                == stop_at(segments@[i as int]),
        decreases segments@.len() - i,
    {
        let p = segments[i];
        proof {
            assert(segments@.subrange(0, i + 1).drop_last() =~= segments@.subrange(0, i as int));
        }
        if p.p_type == PT_LOAD {
            let fits_space = p.p_vaddr <= u64::MAX - 0xFFF && p.p_memsz <= u64::MAX - 0xFFF
                - p.p_vaddr;
            if !fits_space {
                end = PlanEnd::Overflow;
                break;
            }
            let pages = segment_page_count(&p);
            if pages > 0 {
                let fits_file = p.p_offset <= file_len as u64 && p.p_filesz <= file_len as u64
                    - p.p_offset;
                if !(fits_file && p.p_filesz <= p.p_memsz) {
                    end = PlanEnd::Unreadable { page_start: page_start_of(&p), num_pages: pages };
                    break;
                }
            }
            if let Some(plan) = plan_segment(&p) {
                plans.push(plan);
                start_addr = if p.p_vaddr < start_addr { p.p_vaddr } else { start_addr };
                end_addr = if p.p_vaddr + p.p_memsz > end_addr {
                    p.p_vaddr + p.p_memsz
                } else {
                    end_addr
                };
            }
        }
        i += 1;
    }
    proof {
        lemma_loadable_prefix_at(segments@, file_len as int, i as int);
    }
    Ok(
        KernelPlan {
            segments: plans,
            info: KernelLoadInfo {
                start_addr: VirtualAddress::new(start_addr),
                end_addr: VirtualAddress::new(end_addr),
                entry_point: VirtualAddress::new(image.entry_point),
            },
            end,
        },
    )
}

/// Parses the kernel file and plans its load: refused where the parser
/// refuses the file, where it is not 64-bit or has no program headers; else
/// the plan of `plan_kernel_load` for the parsed image.
pub fn load_plan(data: &[u8]) -> (r: Result<KernelPlan, LoadError>)
    ensures
        match elf_image_of(data@) {
            None => r matches Err(e) && e == LoadError::Parse,
            Some(img) => if !img.0 {
                r matches Err(e) && e == LoadError::Unsupported
            } else if img.2 is None {
                r matches Err(e) && e == LoadError::NoSegments
            } else {
                let done = loaded_segments(img.2->0, data@.len() as int);
                r matches Ok(plan) && plan.segments@ == planned_segments(done)
                    && plan.info.start_addr@ == range_start(done) && plan.info.end_addr@
                    == range_end(done) && plan.info.entry_point@ == img.1 && plan.end
                    == plan_end(img.2->0, data@.len() as int)
            },
        },
{
    let image = match parse_elf(data) {
        Some(img) => img,
        None => return Err(LoadError::Parse),
    };
    plan_kernel_load(&image, data.len())
}

} // verus!
