use vstd::prelude::*;

use crate::port::{io_wait, wait_write, PortAddress, PortWrite};

verus! {

/// IO base address for master PIC
pub const PIC1: PortAddress = 0x20;

/// IO base address for slave PIC
pub const PIC2: PortAddress = 0xA0;

pub const PIC1_COMMAND: PortAddress = 0x20;

pub const PIC1_DATA: PortAddress = 0x21;

pub const PIC2_COMMAND: PortAddress = 0xA0;

pub const PIC2_DATA: PortAddress = 0xA1;

/// Indicates that ICW4 will be present
pub const ICW1_ICW4: u8 = 0x01;

/// Initialization - required!
pub const ICW1_INIT: u8 = 0x10;

/// 8086/88 (MCS-80/85) mode
pub const ICW4_8086: u8 = 0x01;

/// End-of-interrupt command code
pub const PIC_EOI: u8 = 0x20;

pub open spec fn out(port: PortAddress, value: u8) -> PortWrite {
    PortWrite { port, value }
}

/// The writes that reprogram the two 8259 controllers in cascade mode with
/// vector offsets `master_offset` and `slave_offset`, then put back the
/// interrupt masks `master_mask` and `slave_mask` read before.
pub open spec fn remap_writes(
    master_offset: u8,
    slave_offset: u8,
    master_mask: u8,
    slave_mask: u8,
) -> Seq<PortWrite> {
    seq![
        out(PIC1_COMMAND, 0x11),
        wait_write(),
        out(PIC2_COMMAND, 0x11),
        wait_write(),
        out(PIC1_DATA, master_offset),
        wait_write(),
        out(PIC2_DATA, slave_offset),
        wait_write(),
        out(PIC1_DATA, 4),
        wait_write(),
        out(PIC2_DATA, 2),
        wait_write(),
        out(PIC1_DATA, ICW4_8086),
        wait_write(),
        out(PIC2_DATA, ICW4_8086),
        wait_write(),
        out(PIC1_DATA, master_mask),
        out(PIC2_DATA, slave_mask),
    ]
}

fn push_out(writes: &mut Vec<PortWrite>, port: PortAddress, value: u8)
    ensures
        final(writes)@ == old(writes)@.push(out(port, value)),
{
    writes.push(PortWrite { port, value });
}

/// The writes that remap the controllers to vectors 0x20 and 0x28.
pub fn remap(master_mask: u8, slave_mask: u8) -> (r: Vec<PortWrite>)
    ensures
        r@ == remap_writes(0x20, 0x28, master_mask, slave_mask),
{
    remap_with_offsets(0x20, 0x28, master_mask, slave_mask)
}

/// The writes that remap the controllers to the given vector offsets,
/// keeping the masks they had.
pub fn remap_with_offsets(master_offset: u8, slave_offset: u8, master_mask: u8, slave_mask: u8) -> (r:
    Vec<PortWrite>)
    ensures
        r@ == remap_writes(master_offset, slave_offset, master_mask, slave_mask),
{
    let mut w: Vec<PortWrite> = Vec::new();
    // starts the initialization sequence (in cascade mode)
    push_out(&mut w, PIC1_COMMAND, ICW1_INIT | ICW1_ICW4);
    w.push(io_wait());
    push_out(&mut w, PIC2_COMMAND, ICW1_INIT | ICW1_ICW4);
    w.push(io_wait());
    // ICW2: Master PIC vector offset
    push_out(&mut w, PIC1_DATA, master_offset);
    w.push(io_wait());
    // ICW2: Slave PIC vector offset
    push_out(&mut w, PIC2_DATA, slave_offset);
    w.push(io_wait());
    // ICW3: tell Master PIC that there is a slave PIC at IRQ2 (0000 0100)
    push_out(&mut w, PIC1_DATA, 4);
    w.push(io_wait());
    // ICW3: tell Slave PIC its cascade identity (0000 0010)
    push_out(&mut w, PIC2_DATA, 2);
    w.push(io_wait());
    // ICW4: have the PICs use 8086 mode (and not 8080 mode)
    push_out(&mut w, PIC1_DATA, ICW4_8086);
    w.push(io_wait());
    push_out(&mut w, PIC2_DATA, ICW4_8086);
    w.push(io_wait());
    // restore masks
    push_out(&mut w, PIC1_DATA, master_mask);
    push_out(&mut w, PIC2_DATA, slave_mask);
    assert(0x10u8 | 0x01u8 == 0x11u8) by (bit_vector);
    assert(w@ =~= remap_writes(master_offset, slave_offset, master_mask, slave_mask));
    w
}

/// The writes that acknowledge interrupt line `irq`: the slave controller
/// too for lines 8 and up, then the master.
pub fn send_eoi(irq: u8) -> (r: Vec<PortWrite>)
    ensures
        r@ == if irq >= 8 {
            seq![out(PIC2_COMMAND, PIC_EOI), out(PIC1_COMMAND, PIC_EOI)]
        } else {
            seq![out(PIC1_COMMAND, PIC_EOI)]
        },
{
    let mut w: Vec<PortWrite> = Vec::new();
    if irq >= 8 {
        push_out(&mut w, PIC2_COMMAND, PIC_EOI);
    }
    push_out(&mut w, PIC1_COMMAND, PIC_EOI);
    proof {
        if irq >= 8 {
            assert(w@ =~= seq![out(PIC2_COMMAND, PIC_EOI), out(PIC1_COMMAND, PIC_EOI)]);
        } else {
            assert(w@ =~= seq![out(PIC1_COMMAND, PIC_EOI)]);
        }
    }
    w
}

} // verus!
