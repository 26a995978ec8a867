use vstd::prelude::*;

use crate::fat::bytes::{le_u16, le_u32, read_u16, read_u32};

verus! {

pub const ATTR_READ_ONLY: u8 = 0x01;

pub const ATTR_HIDDEN: u8 = 0x02;

pub const ATTR_SYSTEM: u8 = 0x04;

pub const ATTR_VOLUME_ID: u8 = 0x08;

pub const ATTR_DIRECTORY: u8 = 0x10;

/// Attributes of a long-name entry: read-only, hidden, system and volume id.
pub const ATTR_LONG_NAME: u8 = 0x0F;

/// Size of a directory entry on disk, in bytes.
pub const DIRECTORY_ENTRY_SIZE: usize = 32;

/// A FAT directory entry (32 bytes on disk, little-endian).
#[derive(Clone, Copy, Debug, PartialEq, Eq)]
pub struct DirectoryEntry {
    pub name: [u8; 11],
    pub attributes: u8,
    pub reserved: u8,
    pub creation_time_tenth: u8,
    pub creation_time: u16,
    pub creation_date: u16,
    pub last_access_date: u16,
    pub first_cluster_high: u16,
    pub write_time: u16,
    pub write_date: u16,
    pub first_cluster_low: u16,
    pub file_size: u32,
}

/// The entry is a long-name part, to be skipped.
pub open spec fn entry_long_name(e: DirectoryEntry) -> bool {
    e.attributes == ATTR_LONG_NAME
}

/// The entry is unused: never used (first name byte 0) or deleted (0xe5).
pub open spec fn entry_empty(e: DirectoryEntry) -> bool {
    e.name@[0] == 0 || e.name@[0] == 0xe5
}

/// The directory test: the attribute byte masked with the directory bit,
/// compared with 1.
pub open spec fn entry_directory(e: DirectoryEntry) -> bool {
    e.attributes & ATTR_DIRECTORY == 1
}

/// An entry that a root-directory scan looks at: in use, not a long-name
/// part, not (by the directory test) a directory.
pub open spec fn entry_visible(e: DirectoryEntry) -> bool {
    !entry_empty(e) && !entry_long_name(e) && !entry_directory(e)
}

/// `e` is the entry that the 32 bytes of `b` from `o` on encode.
pub open spec fn entry_decodes(e: DirectoryEntry, b: Seq<u8>, o: int) -> bool {
    &&& e.name@ == b.subrange(o, o + 11)
    &&& e.attributes == b[o + 11]
    &&& e.reserved == b[o + 12]
    &&& e.creation_time_tenth == b[o + 13]
    &&& e.creation_time == le_u16(b, o + 14)
    &&& e.creation_date == le_u16(b, o + 16)
    &&& e.last_access_date == le_u16(b, o + 18)
    &&& e.first_cluster_high == le_u16(b, o + 20)
    &&& e.write_time == le_u16(b, o + 22)
    &&& e.write_date == le_u16(b, o + 24)
    &&& e.first_cluster_low == le_u16(b, o + 26)
    &&& e.file_size == le_u32(b, o + 28)
}

/// First cluster of the file: the two halves of the cluster number combined
/// with a bitwise or.
pub open spec fn start_cluster(e: DirectoryEntry) -> u16 {
    e.first_cluster_high | e.first_cluster_low
}

impl DirectoryEntry {
    /// Decodes the entry stored in the 32 bytes of `bytes` from `offset` on.
    pub fn from_bytes(bytes: &[u8], offset: usize) -> (r: Self)
        requires
            offset + DIRECTORY_ENTRY_SIZE <= bytes@.len(),
        ensures
            entry_decodes(r, bytes@, offset as int),
    {
        let o = offset;
        let name = [
            bytes[o],
            bytes[o + 1],
            bytes[o + 2],
            bytes[o + 3],
            bytes[o + 4],
            bytes[o + 5],
            bytes[o + 6],
            bytes[o + 7],
            bytes[o + 8],
            bytes[o + 9],
            bytes[o + 10],
        ];
        assert(name@ =~= bytes@.subrange(o as int, o + 11));
        DirectoryEntry {
            name,
            attributes: bytes[o + 11],
            reserved: bytes[o + 12],
            creation_time_tenth: bytes[o + 13],
            creation_time: read_u16(bytes, o + 14),
            creation_date: read_u16(bytes, o + 16),
            last_access_date: read_u16(bytes, o + 18),
            first_cluster_high: read_u16(bytes, o + 20),
            write_time: read_u16(bytes, o + 22),
            write_date: read_u16(bytes, o + 24),
            first_cluster_low: read_u16(bytes, o + 26),
            file_size: read_u32(bytes, o + 28),
        }
    }

    pub fn is_long_name(&self) -> (r: bool)
        ensures
            r == entry_long_name(*self),
    {
        self.attributes == ATTR_LONG_NAME
    }

    pub fn is_empty(&self) -> (r: bool)
        ensures
            r == entry_empty(*self),
    {
        self.name[0] == 0 || self.name[0] == 0xe5
    }

    /// The directory test. The mask leaves 0 or 0x10, so its comparison
    /// with 1 never holds and no entry counts as a directory.
    pub fn is_directory(&self) -> (r: bool)
        ensures
            r == entry_directory(*self),
            !r,
    {
        let a = self.attributes;
        assert(a & 0x10u8 != 1u8) by (bit_vector);
        self.attributes & ATTR_DIRECTORY == 1
    }

    /// The first cluster of the file: the two halves of the cluster number
    /// combined with a bitwise or.
    pub fn get_start_cluster(&self) -> (r: u16)
        ensures
            r == start_cluster(*self),
    {
        self.first_cluster_high | self.first_cluster_low
    }
}

} // verus!
