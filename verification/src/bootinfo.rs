use vstd::prelude::*;

use crate::platform::address::VirtualAddress;

verus! {

/// Virtual range of the loaded kernel, as raw addresses.
#[derive(Debug, Clone, Copy)]
pub struct KernelRange {
    pub start_addr: u64,
    pub end_addr: u64,
}

/// Virtual range of the loaded kernel.
#[derive(Debug, Clone, Copy)]
pub struct KernelLayout {
    pub start_addr: VirtualAddress,
    pub end_addr: VirtualAddress,
}

impl KernelLayout {
    /// The same range as raw addresses.
    pub fn range(&self) -> (r: KernelRange)
        ensures
            r.start_addr == self.start_addr@,
            r.end_addr == self.end_addr@,
    {
        KernelRange { start_addr: self.start_addr.as_u64(), end_addr: self.end_addr.as_u64() }
    }
}

} // verus!
