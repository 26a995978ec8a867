use vstd::prelude::*;

verus! {

/// Value of a table entry that belongs to no allocation.
pub const TABLE_ENTRY_DEFAULT_VALUE: u8 = 0;

/// Storage of the allocation table: one byte per block.
///
/// The view is the sequence of entry bytes, one per block.
pub trait AllocationMap: View<V = Seq<u8>> {
    /// Number of entries.
    fn size(&self) -> (r: usize)
        ensures
            r == self@.len(),
    ;

    /// Entry at `position`, or `None` past the end.
    fn get(&self, position: usize) -> (r: Option<u8>)
        ensures
            position < self@.len() ==> r == Some(self@[position as int]),
            position >= self@.len() ==> r is None,
    ;

    /// Writes `value` at `position`; refuses (and changes nothing) past the end.
    fn set(&mut self, position: usize, value: u8) -> (r: bool)
        ensures
            r == (position < old(self)@.len()),
            r ==> final(self)@ == old(self)@.update(position as int, value),
            !r ==> final(self)@ == old(self)@,
    ;
}

/// An allocation map kept in a contiguous memory area of `size` bytes.
pub struct AreaAllocationMap {
    area: Vec<u8>,
}

impl View for AreaAllocationMap {
    type V = Seq<u8>;

    closed spec fn view(&self) -> Seq<u8> {
        self.area@
    }
}

impl AreaAllocationMap {
    /// Takes over an area whose current bytes are `area`.
    pub fn new(area: Vec<u8>) -> (r: Self)
        ensures
            r@ == area@,
    {
        Self { area }
    }
}

impl AllocationMap for AreaAllocationMap {
    fn size(&self) -> (r: usize) {
        self.area.len()
    }

    fn get(&self, position: usize) -> (r: Option<u8>) {
        if position >= self.area.len() {
            return None;
        }
        Some(self.area[position])
    }

    fn set(&mut self, position: usize, value: u8) -> (r: bool) {
        if position >= self.area.len() {
            return false;
        }
        self.area.set(position, value);
        true
    }
}

} // verus!
