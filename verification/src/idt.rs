use vstd::prelude::*;

verus! {

/// Number of descriptors in the table.
pub const TOTAL_INTERRUPTS: usize = 512;

pub const KERNEL_CODE_SELECTOR: u16 = 0x8;

pub const KERNEL_DATA_SELECTOR: u16 = 0x10;

pub const DESCRIPTOR_TYPE_INTERRUPT_GATE_32: u8 = 0xe;

pub const DESCRIPTOR_TYPE_TRAP_GATE_32: u8 = 0xf;

/// Type and attributes of a fresh descriptor: a 32-bit interrupt gate,
/// privilege level 3, not present.
pub const DEFAULT_TYPE_ATTRIBUTES: u8 = 0x6e;

/// Size of one descriptor in bytes.
pub const DESCRIPTOR_SIZE: usize = 8;

/// A gate descriptor of the interrupt descriptor table.
#[derive(Clone, Copy, Debug, PartialEq, Eq)]
pub struct InterruptDescriptor {
    /// offset bits 0..15
    pub offset_low: u16,
    /// a code segment selector in GDT or LDT
    pub selector: u16,
    /// unused, set to 0
    pub zero: u8,
    /// gate type, dpl, and p fields
    pub type_attributes: u8,
    /// offset bits 16..31
    pub offset_high: u16,
}

/// The descriptor that every slot of the table starts with.
pub open spec fn default_descriptor() -> InterruptDescriptor {
    InterruptDescriptor {
        offset_low: 0,
        selector: KERNEL_CODE_SELECTOR,
        zero: 0,
        type_attributes: DEFAULT_TYPE_ATTRIBUTES,
        offset_high: 0,
    }
}

/// `d` is `old` pointed at `handler` and marked present: the low 32 bits
/// of the handler's address split over the two offset fields, the present
/// bit (7) set, the other attribute bits and fields kept.
pub open spec fn points_to(d: InterruptDescriptor, old: InterruptDescriptor, handler: usize) -> bool {
    &&& d.offset_low == handler as int % 0x10000
    &&& d.offset_high == (handler as int / 0x10000) % 0x10000
    &&& d.type_attributes == old.type_attributes | 0x80
    &&& d.selector == old.selector
    &&& d.zero == old.zero
}

/// A descriptor pointed at a handler is present (bit 7 of its attributes).
pub proof fn lemma_pointed_is_present(d: InterruptDescriptor, old: InterruptDescriptor, handler: usize)
    requires
        points_to(d, old, handler),
    ensures
        d.type_attributes & 0x80 == 0x80,
{
    let t = old.type_attributes;
    assert((t | 0x80u8) & 0x80u8 == 0x80u8) by (bit_vector);
}

impl InterruptDescriptor {
    /// The descriptor of a fresh table.
    pub fn new() -> (r: Self)
        ensures
            r == default_descriptor(),
    {
        let gate_type: u8 = DESCRIPTOR_TYPE_INTERRUPT_GATE_32;
        // storage segment bit clear, ring 3
        let type_attributes: u8 = gate_type | 0 | (3 << 5);
        assert(0xeu8 | 0u8 | (3u8 << 5u8) == 0x6eu8) by (bit_vector);
        InterruptDescriptor {
            offset_low: 0,
            selector: KERNEL_CODE_SELECTOR,
            zero: 0,
            type_attributes,
            offset_high: 0,
        }
    }

    /// Points the descriptor at the handler at address `handler` and marks it present.
    pub fn set(&mut self, handler: usize)
        ensures
            points_to(*final(self), *old(self), handler),
    {
        let address = handler;
        proof {
            assert((address & 0xffff) == address % 0x10000) by (bit_vector);
            assert(((address >> 16) as u16) == (address / 0x10000) % 0x10000) by (bit_vector);
            assert(1u8 << 7u8 == 0x80u8) by (bit_vector);
        }
        self.offset_low = (address & 0xffff) as u16;
        self.offset_high = (address >> 16) as u16;
        // set present bit
        self.type_attributes = self.type_attributes | (1 << 7);
    }
}

/// The interrupt descriptor table: 512 descriptors.
pub struct InterruptDescriptorTable {
    pub entries: [InterruptDescriptor; 512],
}

impl InterruptDescriptorTable {
    /// A table of default descriptors.
    pub fn new() -> (r: Self)
        ensures
            forall|i: int| 0 <= i < 512 ==> #[trigger] r.entries@[i] == default_descriptor(),
    {
        InterruptDescriptorTable {
            entries: vstd::array::array_fill_for_copy_types(InterruptDescriptor::new()),
        }
    }

    /// Size of the table in bytes, less one: the limit loaded with it.
    pub fn limit(&self) -> (r: u16)
        ensures
            r == TOTAL_INTERRUPTS * DESCRIPTOR_SIZE - 1,
    {
        (TOTAL_INTERRUPTS * DESCRIPTOR_SIZE - 1) as u16
    }

    /// Points descriptor `interrupt` at `handler`; refuses, changing nothing,
    /// a number past the table.
    pub fn add(&mut self, interrupt: usize, handler: usize) -> (r: bool)
        ensures
            r == (interrupt < TOTAL_INTERRUPTS),
            r ==> points_to(final(self).entries@[interrupt as int], old(self).entries@[interrupt as int], handler),
            forall|i: int| 0 <= i < 512 && i != interrupt ==> #[trigger] final(self).entries@[i] == old(self).entries@[i],
    {
        if interrupt >= TOTAL_INTERRUPTS {
            return false;
        }
        let mut descriptor = self.entries[interrupt];
        descriptor.set(handler);
        self.entries[interrupt] = descriptor;
        true
    }
}

/// Points every descriptor of the table at `handler`.
pub fn idt_init(idt: &mut InterruptDescriptorTable, handler: usize)
    ensures
        forall|i: int|
            0 <= i < 512 ==> points_to(#[trigger] final(idt).entries@[i], old(idt).entries@[i], handler),
{
    for i in 0..TOTAL_INTERRUPTS
        invariant
            forall|j: int| 0 <= j < i ==> points_to(#[trigger] idt.entries@[j], old(idt).entries@[j], handler),
            forall|j: int| i <= j < 512 ==> #[trigger] idt.entries@[j] == old(idt).entries@[j],
    {
        idt.add(i, handler);
    }
}

} // verus!
