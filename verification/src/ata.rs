use vstd::prelude::*;

use crate::port::{PortAddress, PortWrite};

verus! {

pub const PRIMARY_DRIVE: PortAddress = 0x1f0;

/// data read/write
pub const REG_DATA: PortAddress = 0;

/// number of sectors
pub const REG_SEC_COUNT: PortAddress = 2;

/// LBA low
pub const REG_LBA_LOW: PortAddress = 3;

/// LBA mid
pub const REG_LBA_MID: PortAddress = 4;

/// LBA high
pub const REG_LBA_HIGH: PortAddress = 5;

/// select drive
pub const REG_DRIVE: PortAddress = 6;

/// command/status
pub const REG_CMD_STAT: PortAddress = 7;

/// The READ SECTORS command.
pub const CMD_READ_SECTORS: u8 = 0x20;

/// The byte of `lba` whose lowest bit has the value `unit`.
pub open spec fn lba_byte(lba: usize, unit: int) -> u8 {
    ((lba as int / unit) % 256) as u8
}

/// The register writes that start reading `sectors` sectors from `lba` on
/// the drive at `drive_port`: drive select with the top LBA byte (master,
/// LBA mode), sector count, the three low LBA bytes, then the READ command.
pub open spec fn read_command_writes(drive_port: PortAddress, lba: usize, sectors: u8) -> Seq<
    PortWrite,
> {
    seq![
        PortWrite { port: (drive_port + REG_DRIVE) as u16, value: lba_byte(lba, 0x1000000) | 0xe0 },
        PortWrite { port: (drive_port + REG_SEC_COUNT) as u16, value: sectors },
        PortWrite { port: (drive_port + REG_LBA_LOW) as u16, value: lba_byte(lba, 1) },
        PortWrite { port: (drive_port + REG_LBA_MID) as u16, value: lba_byte(lba, 0x100) },
        PortWrite { port: (drive_port + REG_LBA_HIGH) as u16, value: lba_byte(lba, 0x10000) },
        PortWrite { port: (drive_port + REG_CMD_STAT) as u16, value: CMD_READ_SECTORS },
    ]
}

/// The register writes that start a read on the drive at `drive_port`.
pub fn ata_command(drive_port: PortAddress, lba: usize, sectors: u8) -> (r: Vec<PortWrite>)
    requires
        drive_port + REG_CMD_STAT <= u16::MAX,
    ensures
        r@ == read_command_writes(drive_port, lba, sectors),
{
    let b0 = (lba & 0xff) as u8;
    let b1 = ((lba >> 8) & 0xff) as u8;
    let b2 = ((lba >> 16) & 0xff) as u8;
    let b3 = ((lba >> 24) & 0xff) as u8;
    proof {
        lemma_lba_bytes(lba);
        assert(sectors & 0xffu8 == sectors) by (bit_vector);
    }
    let mut w: Vec<PortWrite> = Vec::new();
    // highest 8 bit of LBA | master
    w.push(PortWrite { port: drive_port + REG_DRIVE, value: b3 | 0xe0 });
    // number of sectors
    w.push(PortWrite { port: drive_port + REG_SEC_COUNT, value: sectors & 0xff });
    // LBA
    w.push(PortWrite { port: drive_port + REG_LBA_LOW, value: b0 });
    w.push(PortWrite { port: drive_port + REG_LBA_MID, value: b1 });
    w.push(PortWrite { port: drive_port + REG_LBA_HIGH, value: b2 });
    // send read sectors command
    w.push(PortWrite { port: drive_port + REG_CMD_STAT, value: CMD_READ_SECTORS });
    assert(w@ =~= read_command_writes(drive_port, lba, sectors));
    w
}

/// The register writes that start reading `sectors` sectors from `lba` on
/// the primary drive.
pub fn load(lba: usize, sectors: u8) -> (r: Vec<PortWrite>)
    ensures
        r@ == read_command_writes(PRIMARY_DRIVE, lba, sectors),
{
    ata_command(PRIMARY_DRIVE, lba, sectors)
}

/// The status byte says that the drive has data ready (bit 3, DRQ).
pub fn ata_data_ready(status: u8) -> (r: bool)
    ensures
        r == (status & 8 != 0),
{
    status & 8 != 0
}

/// Shifting and masking takes the bytes of the LBA.
proof fn lemma_lba_bytes(lba: usize)
    ensures
        (lba & 0xff) as u8 == lba_byte(lba, 1),
        ((lba >> 8) & 0xff) as u8 == lba_byte(lba, 0x100),
        ((lba >> 16) & 0xff) as u8 == lba_byte(lba, 0x10000),
        ((lba >> 24) & 0xff) as u8 == lba_byte(lba, 0x1000000),
{
    assert((lba & 0xff) == lba % 256) by (bit_vector);
    assert(((lba >> 8) & 0xff) == (lba / 0x100) % 256) by (bit_vector);
    assert(((lba >> 16) & 0xff) == (lba / 0x10000) % 256) by (bit_vector);
    assert(((lba >> 24) & 0xff) == (lba / 0x1000000) % 256) by (bit_vector);
}

} // verus!
