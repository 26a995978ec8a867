use vstd::prelude::*;

use crate::fat::bytes::{le_u16, le_u32, read_u16, read_u32};
use crate::fat::entry::DIRECTORY_ENTRY_SIZE;

verus! {

/// Size of the boot sector header on disk, in bytes.
pub const FAT_HEADER_SIZE: usize = 36;

/// Common FAT-family boot sector and BIOS parameter block.
#[derive(Clone, Copy, Debug, PartialEq, Eq)]
pub struct FatHeader {
    pub jump_instruction: [u8; 3],
    pub oem_name: [u8; 8],
    pub bytes_per_sector: u16,
    pub sectors_per_cluster: u8,
    pub reserved_sectors_count: u16,
    pub fat_count: u8,
    pub root_directory_entries: u16,
    pub total_sectors: u16,
    pub media_descriptor_type: u8,
    pub sectors_per_fat: u16,
    pub sectors_per_track: u16,
    pub number_of_heads: u16,
    pub hidden_sectors: u32,
    pub total_sectors_32: u32,
}

/// `h` is the header that the first 36 bytes of `b` encode.
pub open spec fn header_decodes(h: FatHeader, b: Seq<u8>) -> bool {
    &&& h.jump_instruction@ == b.subrange(0, 3)
    &&& h.oem_name@ == b.subrange(3, 11)
    &&& h.bytes_per_sector == le_u16(b, 11)
    &&& h.sectors_per_cluster == b[13]
    &&& h.reserved_sectors_count == le_u16(b, 14)
    &&& h.fat_count == b[16]
    &&& h.root_directory_entries == le_u16(b, 17)
    &&& h.total_sectors == le_u16(b, 19)
    &&& h.media_descriptor_type == b[21]
    &&& h.sectors_per_fat == le_u16(b, 22)
    &&& h.sectors_per_track == le_u16(b, 24)
    &&& h.number_of_heads == le_u16(b, 26)
    &&& h.hidden_sectors == le_u32(b, 28)
    &&& h.total_sectors_32 == le_u32(b, 32)
}

/// Sectors of `bps` bytes needed for `size` bytes (rounded up).
pub open spec fn sectors_needed(size: int, bps: int) -> int {
    size / bps + if size % bps != 0 { 1int } else { 0int }
}

impl FatHeader {
    /// First sector of the root directory: after the reserved sectors and
    /// the copies of the allocation table.
    pub open spec fn root_start(&self) -> int {
        self.reserved_sectors_count + self.sectors_per_fat * self.fat_count
    }

    /// Size of the root directory in bytes.
    pub open spec fn root_bytes(&self) -> int {
        self.root_directory_entries * DIRECTORY_ENTRY_SIZE
    }

    /// Size of the root directory in sectors.
    pub open spec fn root_sectors(&self) -> int {
        sectors_needed(self.root_bytes(), self.bytes_per_sector as int)
    }

    /// The sector arithmetic of the header stays within 16 bits.
    pub open spec fn sector_layout_fits(&self) -> bool {
        &&& self.bytes_per_sector > 0
        &&& self.root_start() <= u16::MAX
        &&& self.root_start() + self.root_sectors() % 0x10000 <= u16::MAX
    }

    /// Whether the root directory's first sector fits in 16 bits.
    pub fn root_start_fits(&self) -> (r: bool)
        ensures
            r == (self.root_start() <= u16::MAX),
    {
        proof {
            let spf = self.sectors_per_fat as int;
            let fc = self.fat_count as int;
            assert(0 <= spf * fc <= 65535 * 255) by (nonlinear_arith)
                requires
                    0 <= spf <= 65535,
                    0 <= fc <= 255,
            ;
        }
        self.reserved_sectors_count as u64 + self.sectors_per_fat as u64 * self.fat_count as u64
            <= 0xffff
    }

    /// Whether `sector_layout_fits` holds.
    pub fn layout_fits(&self) -> (r: bool)
        ensures
            r == self.sector_layout_fits(),
    {
        if self.bytes_per_sector == 0 {
            return false;
        }
        proof {
            let spf = self.sectors_per_fat as int;
            let fc = self.fat_count as int;
            assert(0 <= spf * fc <= 65535 * 255) by (nonlinear_arith)
                requires
                    0 <= spf <= 65535,
                    0 <= fc <= 255,
            ;
        }
        let start = self.reserved_sectors_count as u64 + self.sectors_per_fat as u64
            * self.fat_count as u64;
        if start > 0xffff {
            return false;
        }
        let size = self.root_directory_size_sectors() as u64;
        start + size % 0x10000 <= 0xffff
    }

    /// Decodes the header stored in the first 36 bytes of `bytes`.
    pub fn from_bytes(bytes: &[u8]) -> (r: Self)
        requires
            FAT_HEADER_SIZE <= bytes@.len(),
        ensures
            header_decodes(r, bytes@),
    {
        let jump_instruction = [bytes[0], bytes[1], bytes[2]];
        let oem_name = [
            bytes[3],
            bytes[4],
            bytes[5],
            bytes[6],
            bytes[7],
            bytes[8],
            bytes[9],
            bytes[10],
        ];
        assert(jump_instruction@ =~= bytes@.subrange(0, 3));
        assert(oem_name@ =~= bytes@.subrange(3, 11));
        FatHeader {
            jump_instruction,
            oem_name,
            bytes_per_sector: read_u16(bytes, 11),
            sectors_per_cluster: bytes[13],
            reserved_sectors_count: read_u16(bytes, 14),
            fat_count: bytes[16],
            root_directory_entries: read_u16(bytes, 17),
            total_sectors: read_u16(bytes, 19),
            media_descriptor_type: bytes[21],
            sectors_per_fat: read_u16(bytes, 22),
            sectors_per_track: read_u16(bytes, 24),
            number_of_heads: read_u16(bytes, 26),
            hidden_sectors: read_u32(bytes, 28),
            total_sectors_32: read_u32(bytes, 32),
        }
    }

    /// Sectors needed for `size` bytes (rounded up).
    pub fn sectors_for_size(&self, size: usize) -> (r: usize)
        requires
            self.bytes_per_sector > 0,
        ensures
            r == sectors_needed(size as int, self.bytes_per_sector as int),
    {
        let bps = self.bytes_per_sector as usize;
        let mut sectors = size / bps;
        if size % bps != 0 {
            proof {
                let n = size as int;
                let b = bps as int;
                assert(b >= 2);
                assert(n / b <= n / 2) by (nonlinear_arith)
                    requires
                        b >= 2,
                        n >= 0,
                ;
            }
            sectors += 1;
        }
        sectors
    }

    /// First sector of the root directory.
    pub fn root_directory_start_sector(&self) -> (r: u16)
        requires
            self.root_start() <= u16::MAX,
        ensures
            r == self.root_start(),
    {
        proof {
            assert(0 <= self.sectors_per_fat * self.fat_count) by (nonlinear_arith)
                requires
                    self.sectors_per_fat >= 0,
                    self.fat_count >= 0,
            ;
        }
        self.reserved_sectors_count + self.sectors_per_fat * self.fat_count as u16
    }

    /// First sector of the data region: after the root directory, whose size
    /// in sectors is taken modulo 2^16.
    pub fn data_region_start_sector(&self) -> (r: u16)
        requires
            self.sector_layout_fits(),
        ensures
            r == self.root_start() + self.root_sectors() % 0x10000,
    {
        let start = self.root_directory_start_sector();
        let size = self.root_directory_size_sectors();
        let low = (size % 0x10000) as u16;
        start + low
    }

    /// Size of the root directory in bytes.
    pub fn root_directory_size_bytes(&self) -> (r: usize)
        ensures
            r == self.root_bytes(),
    {
        self.root_directory_entries as usize * DIRECTORY_ENTRY_SIZE
    }

    /// Size of the root directory in sectors (rounded up).
    pub fn root_directory_size_sectors(&self) -> (r: usize)
        requires
            self.bytes_per_sector > 0,
        ensures
            r == self.root_sectors(),
    {
        self.sectors_for_size(self.root_directory_size_bytes())
    }
}

} // verus!
