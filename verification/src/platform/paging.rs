use vstd::prelude::*;

use crate::platform::address::PhysicalAddress;

verus! {

/// Number of entries in a page table.
pub const PAGE_TABLE_SIZE: usize = 512;

/// Bits 12 to 51 of an entry: the physical address it points to.
pub const PAGE_ADDRESS_MASK: u64 = 0x000F_FFFF_FFFF_F000;

/// Bit `b` of `v` is set.
pub open spec fn bit_of(v: u64, b: u64) -> bool {
    (v >> b) & 1 == 1
}

/// `new` is `old` with bit `bit` set to `value` and every other bit kept.
pub open spec fn sets_bit(old: u64, new: u64, bit: u64, value: bool) -> bool {
    forall|b: u64| b < 64 ==> #[trigger] bit_of(new, b) == if b == bit {
        value
    } else {
        bit_of(old, b)
    }
}

/// `new` holds the address bits (12 to 51) of `addr` and the other bits of `old`.
pub open spec fn sets_address(old: u64, new: u64, addr: u64) -> bool {
    forall|b: u64| b < 64 ==> #[trigger] bit_of(new, b) == if 12 <= b < 52 {
        bit_of(addr, b)
    } else {
        bit_of(old, b)
    }
}

/// Shifting `x` right by `k` keeps the bits from `k` up: those above `k`
/// shifted once more, and bit `k` itself as the lowest.
proof fn lemma_shift_split(x: u64, k: u64, k1: u64)
    by (bit_vector)
    requires
        k < 63,
        k1 == k + 1,
    ensures
        x >> k == ((x >> k1) << 1u64) | ((x >> k) & 1u64),
        (x >> k) & 1u64 == 0u64 || (x >> k) & 1u64 == 1u64,
{
}

/// The top bit alone remains after a shift by 63, and no shift leaves the word.
proof fn lemma_shift_ends(x: u64)
    by (bit_vector)
    ensures
        x >> 63u64 == (x >> 63u64) & 1u64,
        (x >> 63u64) & 1u64 == 0u64 || (x >> 63u64) & 1u64 == 1u64,
        x >> 0u64 == x,
{
}

/// Words whose bits agree from `k` up agree once shifted right by `k`.
proof fn lemma_high_bits_determine(x: u64, y: u64, k: u64)
    requires
        k < 64,
        forall|b: u64| b < 64 ==> #[trigger] bit_of(x, b) == bit_of(y, b),
    ensures
        x >> k == y >> k,
    decreases 64 - k,
{
    assert(bit_of(x, k) == bit_of(y, k));
    if k == 63 {
        lemma_shift_ends(x);
        lemma_shift_ends(y);
    } else {
        let k1 = (k + 1) as u64;
        lemma_high_bits_determine(x, y, k1);
        lemma_shift_split(x, k, k1);
        lemma_shift_split(y, k, k1);
    }
}

/// Two words with the same 64 bits are equal.
pub proof fn lemma_bits_determine(x: u64, y: u64)
    requires
        forall|b: u64| b < 64 ==> #[trigger] bit_of(x, b) == bit_of(y, b),
    ensures
        x == y,
{
    lemma_high_bits_determine(x, y, 0);
    lemma_shift_ends(x);
    lemma_shift_ends(y);
}

/// Setting a flag twice is setting it once.
pub proof fn lemma_set_bit_idempotent(a: u64, b: u64, c: u64, bit: u64, value: bool)
    requires
        bit < 64,
        sets_bit(a, b, bit, value),
        sets_bit(b, c, bit, value),
    ensures
        b == c,
{
    assert forall|k: u64| k < 64 implies #[trigger] bit_of(b, k) == bit_of(c, k) by {}
    lemma_bits_determine(b, c);
}

/// The last write of a flag wins: setting then clearing (or the reverse) is
/// the same as writing only the second value.
pub proof fn lemma_set_bit_last_wins(a: u64, b: u64, c: u64, d: u64, bit: u64, first: bool, second: bool)
    requires
        bit < 64,
        sets_bit(a, b, bit, first),
        sets_bit(b, c, bit, second),
        sets_bit(a, d, bit, second),
    ensures
        c == d,
{
    assert forall|k: u64| k < 64 implies #[trigger] bit_of(c, k) == bit_of(d, k) by {}
    lemma_bits_determine(c, d);
}

/// Flags are independent: writing two different flags in either order gives
/// the same entry.
pub proof fn lemma_set_bits_commute(
    a: u64,
    b1: u64,
    c1: u64,
    b2: u64,
    c2: u64,
    i: u64,
    vi: bool,
    j: u64,
    vj: bool,
)
    requires
        i < 64,
        j < 64,
        i != j,
        sets_bit(a, b1, i, vi),
        sets_bit(b1, c1, j, vj),
        sets_bit(a, b2, j, vj),
        sets_bit(b2, c2, i, vi),
    ensures
        c1 == c2,
{
    assert forall|k: u64| k < 64 implies #[trigger] bit_of(c1, k) == bit_of(c2, k) by {}
    lemma_bits_determine(c1, c2);
}

/// An x86-64 page table entry.
#[derive(Copy, Clone, Debug, PartialEq, Eq)]
pub struct PageTableEntry(u64);

impl View for PageTableEntry {
    type V = u64;

    /// The entry's 64 bits.
    closed spec fn view(&self) -> u64 {
        self.0
    }
}

/// A page table: 512 entries.
#[derive(Clone)]
pub struct PageTable {
    pub entries: [PageTableEntry; 512],
}

impl PageTable {
    /// A table whose entries are all empty.
    pub fn empty() -> (r: Self)
        ensures
            forall|i: int| 0 <= i < 512 ==> (#[trigger] r.entries@[i])@ == 0,
    {
        Self { entries: vstd::array::array_fill_for_copy_types(PageTableEntry::empty()) }
    }
}

impl PageTableEntry {
    /// The entry with no bit set.
    pub fn empty() -> (r: Self)
        ensures
            r@ == 0,
    {
        Self(0)
    }

    pub fn as_u64(self) -> (r: u64)
        ensures
            r == self@,
    {
        self.0
    }

    /// Bit `bit` set to `set`, the others kept.
    fn set_bit(self, bit: u8, set: bool) -> (r: Self)
        requires
            bit < 64,
        ensures
            sets_bit(self@, r@, bit as u64, set),
    {
        let bit_value = (if set { 1u64 } else { 0u64 }) << bit;
        let v = self.0;
        let r = (v & !(1u64 << bit)) | bit_value;
        proof {
            let bb = bit as u64;
            let bv: u64 = if set { 1u64 } else { 0u64 };
            assert forall|b: u64| b < 64 implies #[trigger] bit_of(r, b) == if b == bb {
                set
            } else {
                bit_of(v, b)
            } by {
                assert(((((v & !(1u64 << bb)) | (bv << bb)) >> b) & 1 == 1) == (if b == bb {
                    bv == 1
                } else {
                    (v >> b) & 1 == 1
                })) by (bit_vector)
                    requires
                        bb < 64,
                        b < 64,
                        bv == 0 || bv == 1,
                ;
            }
        }
        Self(r)
    }

    /// Set the Present (P) flag.
    pub fn present(self) -> (r: Self)
        ensures
            sets_bit(self@, r@, 0, true),
    {
        self.set_bit(0, true)
    }

    /// Clear the Present (P) flag.
    pub fn clear_present(self) -> (r: Self)
        ensures
            sets_bit(self@, r@, 0, false),
    {
        self.set_bit(0, false)
    }

    /// Set the Read/Write (R/W) flag.
    pub fn writable(self) -> (r: Self)
        ensures
            sets_bit(self@, r@, 1, true),
    {
        self.set_bit(1, true)
    }

    /// Clear the Read/Write (R/W) flag.
    pub fn clear_writable(self) -> (r: Self)
        ensures
            sets_bit(self@, r@, 1, false),
    {
        self.set_bit(1, false)
    }

    /// Set the User/Supervisor (U/S) flag.
    pub fn user_accessible(self) -> (r: Self)
        ensures
            sets_bit(self@, r@, 2, true),
    {
        self.set_bit(2, true)
    }

    /// Clear the User/Supervisor (U/S) flag.
    pub fn clear_user_accessible(self) -> (r: Self)
        ensures
            sets_bit(self@, r@, 2, false),
    {
        self.set_bit(2, false)
    }

    /// Set the Page-level Write-Through (PWT) flag.
    pub fn write_through(self) -> (r: Self)
        ensures
            sets_bit(self@, r@, 3, true),
    {
        self.set_bit(3, true)
    }

    /// Clear the Page-level Write-Through (PWT) flag.
    pub fn clear_write_through(self) -> (r: Self)
        ensures
            sets_bit(self@, r@, 3, false),
    {
        self.set_bit(3, false)
    }

    /// Set the Page-level Cache Disable (PCD) flag.
    pub fn cache_disable(self) -> (r: Self)
        ensures
            sets_bit(self@, r@, 4, true),
    {
        self.set_bit(4, true)
    }

    /// Clear the Page-level Cache Disable (PCD) flag.
    pub fn clear_cache_disable(self) -> (r: Self)
        ensures
            sets_bit(self@, r@, 4, false),
    {
        self.set_bit(4, false)
    }

    /// Set the Accessed (A) flag.
    pub fn accessed(self) -> (r: Self)
        ensures
            sets_bit(self@, r@, 5, true),
    {
        self.set_bit(5, true)
    }

    /// Clear the Accessed (A) flag.
    pub fn clear_accessed(self) -> (r: Self)
        ensures
            sets_bit(self@, r@, 5, false),
    {
        self.set_bit(5, false)
    }

    /// Set the Dirty (D) flag.
    pub fn dirty(self) -> (r: Self)
        ensures
            sets_bit(self@, r@, 6, true),
    {
        self.set_bit(6, true)
    }

    /// Clear the Dirty (D) flag.
    pub fn clear_dirty(self) -> (r: Self)
        ensures
            sets_bit(self@, r@, 6, false),
    {
        self.set_bit(6, false)
    }

    /// Set the Page Size (PS) flag.
    pub fn huge(self) -> (r: Self)
        ensures
            sets_bit(self@, r@, 7, true),
    {
        self.set_bit(7, true)
    }

    /// Clear the Page Size (PS) flag.
    pub fn clear_huge(self) -> (r: Self)
        ensures
            sets_bit(self@, r@, 7, false),
    {
        self.set_bit(7, false)
    }

    /// Set the Global (G) flag.
    pub fn global(self) -> (r: Self)
        ensures
            sets_bit(self@, r@, 8, true),
    {
        self.set_bit(8, true)
    }

    /// Clear the Global (G) flag.
    pub fn clear_global(self) -> (r: Self)
        ensures
            sets_bit(self@, r@, 8, false),
    {
        self.set_bit(8, false)
    }

    /// Set the Execute-Disable (XD) flag.
    pub fn no_execute(self) -> (r: Self)
        ensures
            sets_bit(self@, r@, 63, true),
    {
        self.set_bit(63, true)
    }

    /// Clear the Execute-Disable (XD) flag.
    pub fn clear_no_execute(self) -> (r: Self)
        ensures
            sets_bit(self@, r@, 63, false),
    {
        self.set_bit(63, false)
    }

    /// Set the physical address: bits 12 to 51 of `addr` replace those of the
    /// entry; the flags and the other bits stay.
    pub fn address(self, addr: PhysicalAddress) -> (r: Self)
        ensures
            sets_address(self@, r@, addr@),
            r@ & PAGE_ADDRESS_MASK == addr@ & PAGE_ADDRESS_MASK,
            r@ & !PAGE_ADDRESS_MASK == self@ & !PAGE_ADDRESS_MASK,
    {
        let addr_u64 = addr.as_u64();
        let addr_mask = PAGE_ADDRESS_MASK;
        let v = self.0;
        let r = (v & !addr_mask) | (addr_u64 & addr_mask);
        proof {
            assert forall|b: u64| b < 64 implies #[trigger] bit_of(r, b) == if 12 <= b < 52 {
                bit_of(addr_u64, b)
            } else {
                bit_of(v, b)
            } by {
                assert(((((v & !0x000F_FFFF_FFFF_F000u64) | (addr_u64 & 0x000F_FFFF_FFFF_F000u64))
                    >> b) & 1 == 1) == (if 12 <= b < 52 {
                    (addr_u64 >> b) & 1 == 1
                } else {
                    (v >> b) & 1 == 1
                })) by (bit_vector)
                    requires
                        b < 64,
                ;
            }
            assert(((v & !0x000F_FFFF_FFFF_F000u64) | (addr_u64 & 0x000F_FFFF_FFFF_F000u64))
                & 0x000F_FFFF_FFFF_F000u64 == addr_u64 & 0x000F_FFFF_FFFF_F000u64) by (bit_vector);
            assert(((v & !0x000F_FFFF_FFFF_F000u64) | (addr_u64 & 0x000F_FFFF_FFFF_F000u64))
                & !0x000F_FFFF_FFFF_F000u64 == v & !0x000F_FFFF_FFFF_F000u64) by (bit_vector);
        }
        Self(r)
    }
}

} // verus!
