use corrosium::ata::{ata_command, ata_data_ready, load};
use corrosium::idt::{idt_init, InterruptDescriptor, InterruptDescriptorTable, TOTAL_INTERRUPTS};
use corrosium::pic::{remap, remap_with_offsets, send_eoi};
use corrosium::port::{io_wait, PortWrite};

fn w(port: u16, value: u8) -> PortWrite {
    PortWrite { port, value }
}

#[test]
fn io_wait_writes_zero_to_port_0x80() {
    assert_eq!(io_wait(), w(0x80, 0));
}

#[test]
fn remap_programs_both_controllers_and_restores_masks() {
    let wait = w(0x80, 0);
    let expected = vec![
        w(0x20, 0x11), wait, w(0xA0, 0x11), wait,
        w(0x21, 0x20), wait, w(0xA1, 0x28), wait,
        w(0x21, 4), wait, w(0xA1, 2), wait,
        w(0x21, 1), wait, w(0xA1, 1), wait,
        w(0x21, 0xAB), w(0xA1, 0xCD),
    ];
    assert_eq!(remap(0xAB, 0xCD), expected);
    let other = remap_with_offsets(0x40, 0x48, 0, 0xff);
    assert_eq!(other[4], w(0x21, 0x40));
    assert_eq!(other[6], w(0xA1, 0x48));
    assert_eq!(other[17], w(0xA1, 0xff));
}

#[test]
fn eoi_goes_to_the_slave_for_high_lines() {
    assert_eq!(send_eoi(3), vec![w(0x20, 0x20)]);
    assert_eq!(send_eoi(7), vec![w(0x20, 0x20)]);
    assert_eq!(send_eoi(8), vec![w(0xA0, 0x20), w(0x20, 0x20)]);
    assert_eq!(send_eoi(15), vec![w(0xA0, 0x20), w(0x20, 0x20)]);
}

#[test]
fn ata_read_command_registers() {
    assert_eq!(
        load(0x1234_5678, 4),
        vec![
            w(0x1f6, 0x12 | 0xe0),
            w(0x1f2, 4),
            w(0x1f3, 0x78),
            w(0x1f4, 0x56),
            w(0x1f5, 0x34),
            w(0x1f7, 0x20),
        ]
    );
    assert_eq!(ata_command(0x170, 0, 1)[0], w(0x176, 0xe0));
}

#[test]
fn ata_ready_reads_the_drq_bit() {
    assert!(ata_data_ready(0x08));
    assert!(ata_data_ready(0x58));
    assert!(!ata_data_ready(0x50));
}

#[test]
fn descriptor_points_at_handler_and_becomes_present() {
    let mut d = InterruptDescriptor::new();
    assert_eq!(d.selector, 8);
    assert_eq!(d.type_attributes, 0x6e);
    d.set(0x1234_5678);
    assert_eq!(d.offset_low, 0x5678);
    assert_eq!(d.offset_high, 0x1234);
    assert_eq!(d.type_attributes, 0xee);
    assert_eq!(d.selector, 8);
    assert_eq!(d.zero, 0);
}

#[test]
fn table_add_refuses_numbers_past_the_end() {
    let mut idt = InterruptDescriptorTable::new();
    assert_eq!(idt.limit(), 4095);
    assert!(idt.add(3, 0xabcd));
    assert_eq!(idt.entries[3].offset_low, 0xabcd);
    assert_eq!(idt.entries[2].type_attributes, 0x6e);
    assert!(!idt.add(TOTAL_INTERRUPTS, 0xabcd));
    assert!(idt.add(TOTAL_INTERRUPTS - 1, 0x1_0000));
    assert_eq!(idt.entries[511].offset_high, 1);
}

#[test]
fn init_points_every_descriptor_at_the_handler() {
    let mut idt = InterruptDescriptorTable::new();
    idt_init(&mut idt, 0x0010_2030);
    assert!(idt
        .entries
        .iter()
        .all(|d| d.offset_low == 0x2030 && d.offset_high == 0x10 && d.type_attributes & 0x80 != 0));
}
