pub mod bytes;
pub mod entry;
pub mod header;

use vstd::prelude::*;

use crate::fat::entry::{
    entry_decodes, entry_visible, start_cluster, DirectoryEntry, ATTR_DIRECTORY, ATTR_LONG_NAME,
    DIRECTORY_ENTRY_SIZE,
};
use crate::fat::header::{FatHeader, FAT_HEADER_SIZE};

verus! {

/// Size of a disk sector, in bytes.
pub const SECTOR_SIZE: usize = 0x200;

/// Largest allocation table that is accepted, in sectors.
pub const FAT_TABLE_MAX_SECTORS: usize = 20;

/// Room for the allocation table, in bytes.
pub const FAT_TABLE_SIZE: usize = 10240;

/// Name of the kernel file in the root directory: "KERNEL  BIN" (8.3, space padded).
pub const KERNEL_FILE_NAME: [u8; 11] = [
    0x4B, 0x45, 0x52, 0x4E, 0x45, 0x4C, 0x20, 0x20, 0x42, 0x49, 0x4E,
];

/// Why a boot sector is refused.
#[derive(Clone, Copy, Debug, PartialEq, Eq)]
pub enum FatError {
    /// The sector size is not 512 bytes.
    BadSectorSize(usize),
    /// The allocation table is empty or longer than 20 sectors.
    BadFatSize(usize),
}

/// What `validate_header` answers for `header`.
pub open spec fn header_check(header: FatHeader) -> Result<(), FatError> {
    if header.bytes_per_sector != SECTOR_SIZE {
        Err(FatError::BadSectorSize(header.bytes_per_sector as usize))
    } else if header.sectors_per_fat > FAT_TABLE_MAX_SECTORS || header.sectors_per_fat == 0 {
        Err(FatError::BadFatSize(header.sectors_per_fat as usize))
    } else {
        Ok(())
    }
}

/// A boot sector passes the header check exactly when its sectors are 512
/// bytes and its allocation table has 1 to 20 sectors; any other sector size
/// is refused with that size, whatever the rest of the header holds, and a
/// 512-byte sector with a table size out of range is refused with that size.
pub proof fn lemma_header_check_decides(header: FatHeader)
    ensures
        header_check(header) is Ok <==> header.bytes_per_sector == 512 && 1
            <= header.sectors_per_fat <= 20,
        header.bytes_per_sector != 512 ==> header_check(header) == Err::<(), FatError>(
            FatError::BadSectorSize(header.bytes_per_sector as usize),
        ),
        header.bytes_per_sector == 512 && !(1 <= header.sectors_per_fat <= 20) ==> header_check(
            header,
        ) == Err::<(), FatError>(FatError::BadFatSize(header.sectors_per_fat as usize)),
{
}

/// Accepts a boot sector with 512-byte sectors and an allocation table of 1
/// to 20 sectors.
pub fn validate_header(header: &FatHeader) -> (r: Result<(), FatError>)
    ensures
        r == header_check(*header),
        r is Ok <==> header.bytes_per_sector == 512 && 1 <= header.sectors_per_fat <= 20,
        header.bytes_per_sector != 512 ==> r == Err::<(), FatError>(
            FatError::BadSectorSize(header.bytes_per_sector as usize),
        ),
{
    proof {
        lemma_header_check_decides(*header);
    }
    let sector_size = header.bytes_per_sector as usize;
    if sector_size != SECTOR_SIZE {
        return Err(FatError::BadSectorSize(sector_size));
    }
    let fat_size = header.sectors_per_fat as usize;
    if fat_size > FAT_TABLE_MAX_SECTORS || fat_size == 0 {
        return Err(FatError::BadFatSize(fat_size));
    }
    return Ok(());
}

/// One read from the disk: `sectors` sectors from `lba` on, to memory at
/// `target`.
#[derive(Clone, Copy, Debug, PartialEq, Eq)]
pub struct SectorRead {
    pub lba: usize,
    pub sectors: u8,
    pub target: usize,
}

/// The read of the `k`-th cluster of a file that starts at cluster `start`:
/// clusters 0 and 1 are reserved, so cluster `c` starts `(c - 2) * cs` sectors
/// into the data region at sector `data`.
pub open spec fn cluster_read(data: int, start: int, k: int, cs: int, target: int) -> SectorRead {
    SectorRead {
        lba: (data + (start + k - 2) * cs) as usize,
        sectors: cs as u8,
        target: (target + k * cs * SECTOR_SIZE) as usize,
    }
}

/// `r` is what a search of `sector` for `name` answers: the first entry,
/// at a stride of the header size, that is in use, no long-name part, no
/// directory, and named `name`; `None` where there is none.
pub open spec fn finds_entry(r: Option<DirectoryEntry>, sector: Seq<u8>, name: Seq<u8>) -> bool {
    match r {
        Some(e) => first_match(e, sector, name),
        None => forall|j: int|
            0 <= j < SECTOR_SIZE / FAT_HEADER_SIZE ==> !slot_matches(sector, j, name),
    }
}

/// `e` is the first entry of `sector`, at a stride of the header size, that is
/// in use, no long-name part, no directory, and named `name`.
pub open spec fn first_match(e: DirectoryEntry, sector: Seq<u8>, name: Seq<u8>) -> bool {
    exists|i: int|
        #![trigger slot_decodes(e, sector, i)]
        0 <= i < SECTOR_SIZE / FAT_HEADER_SIZE && slot_decodes(e, sector, i) && entry_visible(e)
            && e.name@ == name && forall|j: int| 0 <= j < i ==> !slot_matches(sector, j, name)
}

/// No entry among the first `count` that a search of `sector` reads, in use,
/// no long-name part and no directory, is one `predicate` may accept.
pub open spec fn none_accepted<F: Fn(&DirectoryEntry) -> bool>(predicate: F, sector: Seq<u8>, count: int) -> bool {
    forall|j: int, f: DirectoryEntry|
        0 <= j < count && #[trigger] slot_decodes(f, sector, j) && entry_visible(f) ==> call_ensures(
            predicate,
            (&f,),
            false,
        )
}

/// `e` is the first entry that a search of `sector` reads, in use, no
/// long-name part and no directory, that `predicate` accepts.
pub open spec fn first_accepted<F: Fn(&DirectoryEntry) -> bool>(predicate: F, e: DirectoryEntry, sector: Seq<u8>) -> bool {
    exists|i: int|
        #![trigger slot_decodes(e, sector, i)]
        0 <= i < SECTOR_SIZE / FAT_HEADER_SIZE && slot_decodes(e, sector, i) && entry_visible(e)
            && call_ensures(predicate, (&e,), true) && none_accepted(predicate, sector, i)
}

/// The two table bytes of `cluster` are both 0xff: the file ends there.
pub open spec fn terminal_cluster(table: Seq<u8>, cluster: int) -> bool {
    table[2 * cluster] == 0xff && table[2 * cluster + 1] == 0xff
}

/// `last` is the first cluster from `start` on whose table bytes mark the
/// end, and its bytes lie inside the table.
pub open spec fn last_cluster(table: Seq<u8>, start: int, last: int) -> bool {
    &&& start <= last
    &&& 2 * last + 1 < table.len()
    &&& terminal_cluster(table, last)
    &&& forall|c: int| start <= c < last ==> !terminal_cluster(table, c)
}

/// `lbas` are the sectors that a scan of `entries` directory entries, `per_sector`
/// to a sector, reads in order: consecutive sectors from `start` on, as few as
/// cover all entries.
pub open spec fn scans(lbas: Seq<usize>, start: int, entries: int, per_sector: int) -> bool {
    &&& lbas.len() * per_sector >= entries
    &&& (lbas.len() == 0 || (lbas.len() - 1) * per_sector < entries)
    &&& forall|k: int| 0 <= k < lbas.len() ==> #[trigger] lbas[k] == start + k
}

/// A FAT volume: its boot sector header and its allocation table.
pub struct FAT {
    pub header: FatHeader,
    pub table: [u8; 10240],
}

impl FAT {
    /// Header accepted by `validate_header`, with the sector arithmetic in range.
    pub open spec fn valid(&self) -> bool {
        &&& header_check(self.header) is Ok
        &&& self.header.sector_layout_fits()
    }

    /// Builds the volume from its boot sector and its table, refusing a boot
    /// sector that `validate_header` refuses.
    pub fn new(header: FatHeader, table: [u8; 10240]) -> (r: Result<FAT, FatError>)
        ensures
            match r {
                Ok(fat) => header_check(header) is Ok && fat.header == header && fat.table
                    == table,
                Err(e) => header_check(header) == Err::<(), FatError>(e),
            },
            r is Ok <==> header.bytes_per_sector == 512 && 1 <= header.sectors_per_fat <= 20,
            header.bytes_per_sector != 512 ==> (r matches Err(e) && e == FatError::BadSectorSize(
                header.bytes_per_sector as usize,
            )),
    {
        if let Err(error) = validate_header(&header) {
            return Err(error);
        }
        Ok(Self { header, table })
    }

    /// Entries a root-directory search reads from each sector: the sector
    /// size divided by the size of the boot sector header.
    pub fn root_entries_per_sector(&self) -> (r: usize)
        requires
            self.valid(),
        ensures
            r == SECTOR_SIZE / FAT_HEADER_SIZE,
    {
        self.header.bytes_per_sector as usize / FAT_HEADER_SIZE
    }

    /// Sectors that a root-directory search reads, in order.
    pub fn root_scan(&self) -> (r: Vec<usize>)
        requires
            self.valid(),
        ensures
            scans(
                r@,
                self.header.root_start(),
                self.header.root_directory_entries as int,
                (SECTOR_SIZE / FAT_HEADER_SIZE) as int,
            ),
    {
        let per_sector = self.root_entries_per_sector();
        let start = self.header.root_directory_start_sector() as usize;
        let entries = self.header.root_directory_entries as usize;
        sector_scan(start, entries, per_sector)
    }

    /// The first entry in a root-directory sector, as a search reads it,
    /// that is in use, is no long-name part, is no directory, and for which
    /// `predicate` answers true; the predicate is asked about each such
    /// entry in turn until it answers true.
    pub fn find_root_entry<F: Fn(&DirectoryEntry) -> bool>(&self, sector: &[u8], predicate: F) -> (r:
        Option<DirectoryEntry>)
        requires
            self.valid(),
            sector@.len() == SECTOR_SIZE,
            forall|e: DirectoryEntry| #[trigger] predicate.requires((&e,)),
        ensures
            match r {
                Some(e) => first_accepted(predicate, e, sector@),
                None => none_accepted(predicate, sector@, (SECTOR_SIZE / FAT_HEADER_SIZE) as int),
            },
    {
        let per_sector = self.root_entries_per_sector();
        let mut i: usize = 0;
        while i < per_sector
            invariant
                per_sector == SECTOR_SIZE / FAT_HEADER_SIZE,
                sector@.len() == SECTOR_SIZE,
                i <= per_sector,
                forall|e: DirectoryEntry| #[trigger] predicate.requires((&e,)),
                none_accepted(predicate, sector@, i as int),
            decreases per_sector - i,
        {
            let entry = DirectoryEntry::from_bytes(sector, FAT_HEADER_SIZE * i);
            proof {
                assert(slot_decodes(entry, sector@, i as int));
            }
            if entry.is_empty() || entry.is_long_name() || entry.is_directory() {
                proof {
                    lemma_none_accepted_step(predicate, sector@, i as int, entry, false);
                }
                i += 1;
                continue;
            }
            if predicate(&entry) {
                return Some(entry);
            }
            proof {
                lemma_none_accepted_step(predicate, sector@, i as int, entry, true);
            }
            i += 1;
        }
        None
    }

    /// The file of `entry` can be read to `target`: its first cluster is a data
    /// cluster, its end mark lies inside the table, and its clusters fit in
    /// memory from `target` on.
    pub open spec fn entry_loadable(&self, entry: DirectoryEntry, target: usize) -> bool {
        &&& start_cluster(entry) >= 2
        &&& exists|last: int|
            last_cluster(self.table@, start_cluster(entry) as int, last) && target + (last
                - start_cluster(entry) + 1) * self.header.sectors_per_cluster * SECTOR_SIZE
                <= usize::MAX
    }

    /// `reads` read the clusters of `entry`'s file, from its first cluster up
    /// to and including the first one marked as the end, each to the next
    /// cluster-sized stretch of memory from `target` on.
    pub open spec fn loads(&self, entry: DirectoryEntry, target: usize, reads: Seq<SectorRead>) -> bool {
        let start = start_cluster(entry) as int;
        let cs = self.header.sectors_per_cluster as int;
        let data = self.header.root_start() + self.header.root_sectors() % 0x10000;
        &&& last_cluster(self.table@, start, start + reads.len() - 1)
        &&& forall|k: int|
            0 <= k < reads.len() ==> #[trigger] reads[k] == cluster_read(
                data,
                start,
                k,
                cs,
                target as int,
            )
    }

    /// `load_entry` where the file can be read; `None` where it cannot (its
    /// first cluster is reserved, no end mark lies inside the table, or it
    /// would not fit in memory).
    pub fn load_entry_checked(&self, entry: &DirectoryEntry, target: usize) -> (r: Option<
        Vec<SectorRead>,
    >)
        requires
            self.valid(),
        ensures
            match r {
                Some(reads) => self.entry_loadable(*entry, target) && self.loads(
                    *entry,
                    target,
                    reads@,
                ),
                None => !self.entry_loadable(*entry, target),
            },
    {
        let start = entry.get_start_cluster() as usize;
        if start < 2 {
            return None;
        }
        let cs = self.header.sectors_per_cluster as usize;
        let mut c = start;
        while 2 * c + 1 < FAT_TABLE_SIZE
            invariant
                self.valid(),
                2 <= start <= c,
                c <= 65535,
                start == start_cluster(*entry),
                cs == self.header.sectors_per_cluster,
                forall|d: int| start <= d < c ==> !terminal_cluster(self.table@, d),
            decreases FAT_TABLE_SIZE - c,
        {
            if self.table[2 * c] == 0xff && self.table[2 * c + 1] == 0xff {
                proof {
                    assert(terminal_cluster(self.table@, c as int));
                    assert(last_cluster(self.table@, start as int, c as int));
                    assert forall|last: int| last_cluster(self.table@, start as int, last)
                        implies last == c by {
                        if last < c {
                            assert(!terminal_cluster(self.table@, last));
                        } else if last > c {
                            assert(!terminal_cluster(self.table@, c as int));
                        }
                    }
                }
                let clusters = c - start + 1;
                let room = usize::MAX - target;
                proof {
                    assert(clusters * cs * 512 <= 5120 * 255 * 512) by (nonlinear_arith)
                        requires
                            clusters <= 5120,
                            cs <= 255,
                    ;
                }
                if clusters * cs * SECTOR_SIZE > room {
                    return None;
                }
                return Some(self.load_entry(entry, target));
            }
            c += 1;
        }
        proof {
            assert forall|last: int| !last_cluster(self.table@, start as int, last) by {
                if start <= last && 2 * last + 1 < 10240 {
                    assert(last < c);
                }
            }
        }
        None
    }

    /// The reads that load the file that starts at `entry`'s first cluster to
    /// memory at `target`: one cluster per read, from that cluster on, up to
    /// and including the first cluster whose two table bytes are 0xff.
    /// Consecutive clusters are read; the table only marks where the file ends.
    pub fn load_entry(&self, entry: &DirectoryEntry, target: usize) -> (r: Vec<SectorRead>)
        requires
            self.valid(),
            self.entry_loadable(*entry, target),
        ensures
            self.loads(*entry, target, r@),
    {
        let ghost start = start_cluster(*entry) as int;
        let ghost last = choose|last: int|
            last_cluster(self.table@, start, last) && target + (last - start + 1)
                * self.header.sectors_per_cluster * SECTOR_SIZE <= usize::MAX;
        let cluster_size = self.header.sectors_per_cluster as usize;
        let lba_data_region = self.header.data_region_start_sector() as usize;
        let mut cluster = entry.get_start_cluster() as usize;
        let mut addr = target;
        let mut is_terminal_cluster = false;
        let mut reads: Vec<SectorRead> = Vec::new();
        let ghost cs = cluster_size as int;
        let ghost data = lba_data_region as int;
        while !is_terminal_cluster
            invariant
                self.valid(),
                cs == self.header.sectors_per_cluster,
                cluster_size == cs,
                data == lba_data_region,
                data <= u16::MAX,
                last_cluster(self.table@, start, last),
                target + (last - start + 1) * cs * SECTOR_SIZE <= usize::MAX,
                2 <= start <= cluster,
                cluster == start + reads@.len(),
                is_terminal_cluster ==> cluster == last + 1,
                !is_terminal_cluster ==> cluster <= last,
                addr == target + reads@.len() * cs * SECTOR_SIZE,
                forall|k: int|
                    0 <= k < reads@.len() ==> #[trigger] reads@[k] == cluster_read(
                        data,
                        start,
                        k,
                        cs,
                        target as int,
                    ),
            decreases last + 1 - cluster,
        {
            let index = cluster * 2;
            is_terminal_cluster = self.table[index] == 0xff && self.table[index + 1] == 0xff;
            proof {
                if is_terminal_cluster {
                    assert(terminal_cluster(self.table@, cluster as int));
                }
                lemma_cluster_arithmetic(data, cluster as int, cs, start, last, target as int);
            }
            // first two clusters are reserved
            let lba = lba_data_region + (cluster - 2) * cluster_size;
            let ghost k = reads@.len() as int;
            reads.push(SectorRead { lba, sectors: cluster_size as u8, target: addr });
            addr += cluster_size * SECTOR_SIZE;
            cluster += 1;
        }
        reads
    }
}

/// Compares two 8.3 names byte by byte.
fn names_equal(a: &[u8; 11], b: &[u8; 11]) -> (r: bool)
    ensures
        r == (a@ == b@),
{
    let mut i: usize = 0;
    while i < 11
        invariant
            i <= 11,
            a@.len() == 11,
            b@.len() == 11,
            forall|j: int| 0 <= j < i ==> a@[j] == b@[j],
        decreases 11 - i,
    {
        if a[i] != b[i] {
            return false;
        }
        i += 1;
    }
    assert(a@ =~= b@);
    true
}

/// The entry stored at byte `o` of `sector` is one a search takes, and has
/// the name `name`.
pub open spec fn matching_entry_at(sector: Seq<u8>, o: int, name: Seq<u8>) -> bool {
    exists|e: DirectoryEntry| entry_decodes(e, sector, o) && entry_visible(e) && e.name@ == name
}

/// The `slot`-th entry that a search reads from `sector`, at a stride of the
/// header size, is one it takes, with the name `name`.
pub open spec fn slot_matches(sector: Seq<u8>, slot: int, name: Seq<u8>) -> bool {
    matching_entry_at(sector, slot * FAT_HEADER_SIZE, name)
}

/// `e` is the `slot`-th entry that a search reads from `sector`.
pub open spec fn slot_decodes(e: DirectoryEntry, sector: Seq<u8>, slot: int) -> bool {
    entry_decodes(e, sector, slot * FAT_HEADER_SIZE)
}

/// An entry that the search takes, with none taken before it, is the answer.
proof fn lemma_finds_at(e: DirectoryEntry, sector: Seq<u8>, name: Seq<u8>, i: int)
    requires
        0 <= i < SECTOR_SIZE / FAT_HEADER_SIZE,
        slot_decodes(e, sector, i),
        entry_visible(e),
        e.name@ == name,
        forall|j: int| 0 <= j < i ==> !slot_matches(sector, j, name),
    ensures
        finds_entry(Some(e), sector, name),
{
    assert(first_match(e, sector, name));
}

/// An entry's bytes decide every field of it.
proof fn lemma_decoding_unique(e: DirectoryEntry, f: DirectoryEntry, sector: Seq<u8>, o: int)
    requires
        entry_decodes(e, sector, o),
        entry_decodes(f, sector, o),
    ensures
        e == f,
{
    assert(e.name =~= f.name);
}

/// The search goes past slot `i`: the entry there is skipped, or the
/// predicate declined it.
proof fn lemma_none_accepted_step<F: Fn(&DirectoryEntry) -> bool>(
    predicate: F,
    sector: Seq<u8>,
    i: int,
    e: DirectoryEntry,
    asked: bool,
)
    requires
        0 <= i,
        none_accepted(predicate, sector, i),
        slot_decodes(e, sector, i),
        asked ==> call_ensures(predicate, (&e,), false),
        !asked ==> !entry_visible(e),
    ensures
        none_accepted(predicate, sector, i + 1),
{
    assert forall|j: int, f: DirectoryEntry|
        0 <= j < i + 1 && #[trigger] slot_decodes(f, sector, j) && entry_visible(f) implies call_ensures(
        predicate,
        (&f,),
        false,
    ) by {
        if j == i {
            lemma_decoding_unique(e, f, sector, i * FAT_HEADER_SIZE);
        }
    }
}

/// Bounds for one step of the cluster walk.
proof fn lemma_cluster_arithmetic(data: int, cluster: int, cs: int, start: int, last: int, target: int)
    requires
        0 <= data <= u16::MAX,
        0 <= cs <= u8::MAX,
        2 <= start <= cluster <= last,
        2 * last + 1 < 10240,
        target >= 0,
        target + (last - start + 1) * cs * 512 <= usize::MAX,
    ensures
        data + (cluster - 2) * cs <= usize::MAX,
        0 <= (cluster - 2) * cs <= 5120 * 255,
        target + (cluster - start) * cs * 512 + cs * 512 <= usize::MAX,
        target + (cluster - start + 1) * cs * 512 == target + (cluster - start) * cs * 512 + cs
            * 512,
{
    assert(0 <= (cluster - 2) * cs <= 5120 * 255) by (nonlinear_arith)
        requires
            0 <= cs <= 255,
            0 <= cluster - 2 <= 5120,
    ;
    assert((cluster - start + 1) * cs * 512 <= (last - start + 1) * cs * 512) by (nonlinear_arith)
        requires
            0 <= cs,
            cluster <= last,
    ;
    assert((cluster - start + 1) * cs * 512 == (cluster - start) * cs * 512 + cs * 512) by (nonlinear_arith);
}

/// Sector numbers from `start` on, one for each `per_sector` entries until
/// `entries` entries are covered.
pub fn sector_scan(start: usize, entries: usize, per_sector: usize) -> (r: Vec<usize>)
    requires
        per_sector > 0 || entries == 0,
        start + entries <= usize::MAX,
        entries + per_sector <= usize::MAX,
    ensures
        scans(r@, start as int, entries as int, per_sector as int),
{
    let mut lbas: Vec<usize> = Vec::new();
    if entries == 0 {
        return lbas;
    }
    let mut lba = start;
    let mut items: usize = 0;
    while items < entries
        invariant
            per_sector > 0,
            start + entries <= usize::MAX,
            entries + per_sector <= usize::MAX,
            lba == start + lbas@.len(),
            items == lbas@.len() * per_sector,
            items < entries + per_sector,
            lbas@.len() <= entries,
            forall|k: int| 0 <= k < lbas@.len() ==> #[trigger] lbas@[k] == start + k,
            lbas@.len() == 0 || (lbas@.len() - 1) * per_sector < entries,
        decreases entries - lbas@.len(),
    {
        proof {
            let n = lbas@.len() as int;
            assert(n < entries && (n + 1) * per_sector == n * per_sector + per_sector) by (nonlinear_arith)
                requires
                    n * per_sector == items,
                    items < entries,
                    per_sector >= 1,
                    n >= 0,
            ;
        }
        lbas.push(lba);
        lba += 1;
        items += per_sector;
    }
    lbas
}

/// The kernel's entry among the root-directory entries of `sector`, as the
/// search finds it.
pub fn kernel_entry_in_sector(fat: &FAT, sector: &[u8]) -> (r: Option<DirectoryEntry>)
    requires
        fat.valid(),
        sector@.len() == SECTOR_SIZE,
    ensures
        finds_entry(r, sector@, KERNEL_FILE_NAME@),
{
    let predicate = |entry: &DirectoryEntry| -> (b: bool)
        ensures
            b == (entry.name@ == KERNEL_FILE_NAME@),
        { names_equal(&entry.name, &KERNEL_FILE_NAME) };
    let r = fat.find_root_entry(sector, predicate);
    proof {
        let name = KERNEL_FILE_NAME@;
        assert forall|j: int| 0 <= j < SECTOR_SIZE / FAT_HEADER_SIZE && none_accepted(predicate, sector@, j + 1)
            implies !slot_matches(sector@, j, name) by {
            if slot_matches(sector@, j, name) {
                let f = choose|f: DirectoryEntry|
                    entry_decodes(f, sector@, j * FAT_HEADER_SIZE) && entry_visible(f) && f.name@ == name;
                assert(slot_decodes(f, sector@, j));
            }
        }
        match r {
            Some(e) => {
                let i = choose|i: int|
                    #![trigger slot_decodes(e, sector@, i)]
                    0 <= i < SECTOR_SIZE / FAT_HEADER_SIZE && slot_decodes(e, sector@, i)
                        && entry_visible(e) && call_ensures(predicate, (&e,), true) && none_accepted(
                        predicate,
                        sector@,
                        i,
                    );
                assert forall|j: int| 0 <= j < i implies !slot_matches(sector@, j, name) by {
                    if slot_matches(sector@, j, name) {
                        let f = choose|f: DirectoryEntry|
                            entry_decodes(f, sector@, j * FAT_HEADER_SIZE) && entry_visible(f)
                                && f.name@ == name;
                        assert(slot_decodes(f, sector@, j));
                    }
                }
                lemma_finds_at(e, sector@, name, i);
            },
            None => {
                assert forall|j: int| 0 <= j < SECTOR_SIZE / FAT_HEADER_SIZE implies !slot_matches(
                    sector@,
                    j,
                    name,
                ) by {
                    if slot_matches(sector@, j, name) {
                        let f = choose|f: DirectoryEntry|
                            entry_decodes(f, sector@, j * FAT_HEADER_SIZE) && entry_visible(f)
                                && f.name@ == name;
                        assert(slot_decodes(f, sector@, j));
                    }
                }
            },
        }
    }
    r
}

/// Some entry of `sector` is one a search for `name` takes.
pub open spec fn sector_has_match(sector: Seq<u8>, name: Seq<u8>) -> bool {
    exists|j: int| 0 <= j < SECTOR_SIZE / FAT_HEADER_SIZE && #[trigger] slot_matches(sector, j, name)
}

/// `r` is what a search of the whole root directory for `name` answers, its
/// sectors read in scan order: the first matching entry of the first sector
/// that has one, or `None` where no sector has one.
pub open spec fn scan_finds(r: Option<DirectoryEntry>, sectors: Seq<Seq<u8>>, name: Seq<u8>) -> bool {
    match r {
        Some(e) => found_in_scan(e, sectors, name),
        None => forall|k: int| 0 <= k < sectors.len() ==> !sector_has_match(#[trigger] sectors[k], name),
    }
}

/// `e` is the first match of the first sector, in scan order, that has a match.
pub open spec fn found_in_scan(e: DirectoryEntry, sectors: Seq<Seq<u8>>, name: Seq<u8>) -> bool {
    exists|k: int|
        #![trigger first_match(e, sectors[k], name)]
        0 <= k < sectors.len() && first_match(e, sectors[k], name) && forall|j: int|
            0 <= j < k ==> !sector_has_match(#[trigger] sectors[j], name)
}

/// A search that reads sector after sector and stops at the first match
/// answers for the whole root directory: the sectors after it do not matter.
pub proof fn lemma_scan_stops_at_first_hit(
    sectors: Seq<Seq<u8>>,
    k: int,
    e: DirectoryEntry,
    name: Seq<u8>,
)
    requires
        0 <= k < sectors.len(),
        forall|j: int| 0 <= j < k ==> !sector_has_match(#[trigger] sectors[j], name),
        finds_entry(Some(e), sectors[k], name),
    ensures
        scan_finds(Some(e), sectors, name),
{
    assert(first_match(e, sectors[k], name));
}

/// The kernel's entry in the root directory whose sectors, in scan order,
/// are `sectors`: the first match of the first sector that has one.
pub fn kernel_entry(fat: &FAT, sectors: &Vec<Vec<u8>>) -> (r: Option<DirectoryEntry>)
    requires
        fat.valid(),
        forall|k: int| 0 <= k < sectors@.len() ==> (#[trigger] sectors@[k])@.len() == SECTOR_SIZE,
    ensures
        scan_finds(r, sectors@.map_values(|v: Vec<u8>| v@), KERNEL_FILE_NAME@),
{
    let ghost all = sectors@.map_values(|v: Vec<u8>| v@);
    let ghost name = KERNEL_FILE_NAME@;
    let mut k: usize = 0;
    while k < sectors.len()
        invariant
            fat.valid(),
            k <= sectors@.len(),
            all == sectors@.map_values(|v: Vec<u8>| v@),
            name == KERNEL_FILE_NAME@,
            forall|i: int| 0 <= i < sectors@.len() ==> (#[trigger] sectors@[i])@.len() == SECTOR_SIZE,
            forall|j: int| 0 <= j < k ==> !sector_has_match(#[trigger] all[j], name),
        decreases sectors@.len() - k,
    {
        let found = kernel_entry_in_sector(fat, sectors[k].as_slice());
        assert(all[k as int] == sectors@[k as int]@);
        match found {
            Some(e) => {
                proof {
                    lemma_scan_stops_at_first_hit(all, k as int, e, name);
                }
                return Some(e);
            },
            None => {},
        }
        k += 1;
    }
    None
}

} // verus!

verus! {

/// The entry stored at byte `o` of `b` is in use, no long-name part and, by
/// the directory test, no directory: read from its first name byte and its
/// attribute byte.
pub open spec fn slot_visible(b: Seq<u8>, o: int) -> bool {
    &&& b[o] != 0
    &&& b[o] != 0xe5
    &&& b[o + 11] != ATTR_LONG_NAME
    &&& b[o + 11] & ATTR_DIRECTORY != 1
}

/// The `i`-th 32-byte entry of `b` is one that a listing shows.
pub open spec fn slot_shown(b: Seq<u8>, i: int) -> bool {
    slot_visible(b, 32 * i)
}

/// Sectors that a listing of the root directory reads, in order, with one
/// entry per 32 bytes of a sector; `None` where the sector size is not a
/// multiple of the entry size.
pub fn root_directory_sectors(header: &FatHeader) -> (r: Option<Vec<usize>>)
    requires
        header.root_start() <= u16::MAX,
        header.bytes_per_sector != 0 || header.root_directory_entries == 0,
    ensures
        match r {
            Some(lbas) => {
                &&& header.bytes_per_sector % 32 == 0
                &&& scans(
                    lbas@,
                    header.root_start(),
                    header.root_directory_entries as int,
                    (header.bytes_per_sector / 32) as int,
                )
            },
            None => header.bytes_per_sector % 32 != 0,
        },
{
    let entry_size = DIRECTORY_ENTRY_SIZE;
    if header.bytes_per_sector as usize % entry_size != 0 {
        return None;
    }
    let count = header.bytes_per_sector as usize / entry_size;
    let entries = header.root_directory_entries as usize;
    let start = header.root_directory_start_sector() as usize;
    Some(sector_scan(start, entries, count))
}

/// Positions, in order, of the entries of one root-directory sector that a
/// listing shows: those in use, no long-name part and no directory, among
/// the `bytes_per_sector / 32` entries of the sector.
pub fn root_directory_slots(header: &FatHeader, sector: &[u8]) -> (r: Vec<usize>)
    requires
        header.bytes_per_sector <= sector@.len(),
    ensures
        forall|k: int| 0 <= k < r@.len() ==> #[trigger] r@[k] < header.bytes_per_sector / 32,
        forall|k: int|
            0 <= k < r@.len() ==> #[trigger] slot_shown(sector@, r@[k] as int),
        forall|k: int, l: int| 0 <= k < l < r@.len() ==> r@[k] < r@[l],
        forall|i: int|
            0 <= i < header.bytes_per_sector / 32 && #[trigger] slot_shown(sector@, i) ==> r@.contains(
                i as usize,
            ),
{
    let count = header.bytes_per_sector as usize / DIRECTORY_ENTRY_SIZE;
    let mut slots: Vec<usize> = Vec::new();
    for i in 0..count
        invariant
            count == header.bytes_per_sector / 32,
            header.bytes_per_sector <= sector@.len(),
            forall|k: int| 0 <= k < slots@.len() ==> #[trigger] slots@[k] < i,
            forall|k: int|
                0 <= k < slots@.len() ==> #[trigger] slot_shown(sector@, slots@[k] as int),
            forall|k: int, l: int| 0 <= k < l < slots@.len() ==> slots@[k] < slots@[l],
            forall|j: int| 0 <= j < i && #[trigger] slot_shown(sector@, j) ==> slots@.contains(j as usize),
    {
        let entry = DirectoryEntry::from_bytes(sector, DIRECTORY_ENTRY_SIZE * i);
        let ghost before = slots@;
        proof {
            assert(entry.name@[0] == sector@[32 * i]);
            assert(entry_visible(entry) == slot_shown(sector@, i as int));
        }
        if !(entry.is_empty() || entry.is_long_name() || entry.is_directory()) {
            slots.push(i);
            proof {
                assert(slots@[slots@.len() - 1] == i);
            }
        }
        proof {
            assert forall|j: int| 0 <= j < i + 1 && #[trigger] slot_shown(sector@, j) implies slots@.contains(
                j as usize,
            ) by {
                if j < i {
                    let k = choose|k: int| 0 <= k < before.len() && before[k] == j as usize;
                    assert(slots@[k] == j as usize);
                } else {
                    assert(slots@[slots@.len() - 1] == i);
                }
            }
        }
    }
    slots
}

} // verus!
