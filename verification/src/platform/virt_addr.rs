use vstd::prelude::*;

use crate::platform::address::{Address, Virtual};

verus! {

/// Size of the region that one entry maps at each level of the page tables,
/// from the top (PML4) down to a page.
pub const PML4_ENTRY_SPAN: u64 = 0x80_0000_0000;

pub const PDPT_ENTRY_SPAN: u64 = 0x4000_0000;

pub const PD_ENTRY_SPAN: u64 = 0x20_0000;

pub const PT_ENTRY_SPAN: u64 = 0x1000;

/// Index into a 512-entry table of the region of `span` bytes that holds `addr`.
pub open spec fn table_index(addr: u64, span: u64) -> int {
    (addr / span) as int % 512
}

/// The address that the four table indices and the offset within a page
/// make up.
pub open spec fn compose_address(pml4: int, pdpt: int, pd: int, pt: int, offset: int) -> int {
    pml4 * PML4_ENTRY_SPAN + pdpt * PDPT_ENTRY_SPAN + pd * PD_ENTRY_SPAN + pt * PT_ENTRY_SPAN
        + offset
}

impl Address<Virtual> {
    /// Index of the address in the PML4 table (bits 39 to 47).
    pub fn pml4_index(self) -> (r: usize)
        ensures
            r == table_index(self@, PML4_ENTRY_SPAN),
            r < 512,
    {
        let v = self.as_u64();
        let r = (v >> 39) & 0x1FF;
        assert(r == (v / 0x80_0000_0000u64) % 512 && r < 512) by (bit_vector)
            requires
                r == (v >> 39) & 0x1FF,
        ;
        r as usize
    }

    /// Index of the address in the page directory pointer table (bits 30 to 38).
    pub fn pdpt_index(self) -> (r: usize)
        ensures
            r == table_index(self@, PDPT_ENTRY_SPAN),
            r < 512,
    {
        let v = self.as_u64();
        let r = (v >> 30) & 0x1FF;
        assert(r == (v / 0x4000_0000u64) % 512 && r < 512) by (bit_vector)
            requires
                r == (v >> 30) & 0x1FF,
        ;
        r as usize
    }

    /// Index of the address in the page directory (bits 21 to 29).
    pub fn pd_index(self) -> (r: usize)
        ensures
            r == table_index(self@, PD_ENTRY_SPAN),
            r < 512,
    {
        let v = self.as_u64();
        let r = (v >> 21) & 0x1FF;
        assert(r == (v / 0x20_0000u64) % 512 && r < 512) by (bit_vector)
            requires
                r == (v >> 21) & 0x1FF,
        ;
        r as usize
    }

    /// Index of the address in the page table (bits 12 to 20).
    pub fn pt_index(self) -> (r: usize)
        ensures
            r == table_index(self@, PT_ENTRY_SPAN),
            r < 512,
    {
        let v = self.as_u64();
        let r = (v >> 12) & 0x1FF;
        assert(r == (v / 0x1000u64) % 512 && r < 512) by (bit_vector)
            requires
                r == (v >> 12) & 0x1FF,
        ;
        r as usize
    }
}

/// An address below 2^48 is its four table indices and its offset within
/// the page, put back together.
pub proof fn lemma_indices_compose(addr: u64)
    requires
        addr < 0x1_0000_0000_0000,
    ensures
        addr == compose_address(
            table_index(addr, PML4_ENTRY_SPAN),
            table_index(addr, PDPT_ENTRY_SPAN),
            table_index(addr, PD_ENTRY_SPAN),
            table_index(addr, PT_ENTRY_SPAN),
            addr as int % 4096,
        ),
{
    let a = addr as int;
    assert(a == (a / 0x80_0000_0000) % 512 * 0x80_0000_0000 + (a / 0x4000_0000) % 512
        * 0x4000_0000 + (a / 0x20_0000) % 512 * 0x20_0000 + (a / 0x1000) % 512 * 0x1000 + a
        % 4096) by (nonlinear_arith)
        requires
            0 <= a < 0x1_0000_0000_0000,
    ;
}

} // verus!
