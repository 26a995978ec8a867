use core::marker::PhantomData;
use vstd::prelude::*;

verus! {

/// Physical address space.
#[derive(Debug, Copy, Clone, PartialEq, Eq, PartialOrd, Ord)]
pub struct Physical;

/// Virtual address space.
#[derive(Debug, Copy, Clone, PartialEq, Eq, PartialOrd, Ord)]
pub struct Virtual;

/// A 64-bit address in the address space `Kind`.
#[derive(Debug, PartialEq, Eq, PartialOrd, Ord)]
pub struct Address<Kind> {
    addr: u64,
    _marker: PhantomData<Kind>,
}

impl<Kind> Clone for Address<Kind> {
    fn clone(&self) -> (r: Self)
        ensures
            r == *self,
    {
        Address { addr: self.addr, _marker: PhantomData }
    }
}

impl<Kind> Copy for Address<Kind> {

}

pub type PhysicalAddress = Address<Physical>;

pub type VirtualAddress = Address<Virtual>;

impl<Kind> View for Address<Kind> {
    type V = u64;

    closed spec fn view(&self) -> u64 {
        self.addr
    }
}

impl<Kind> Address<Kind> {
    pub fn new(addr: u64) -> (r: Self)
        ensures
            r@ == addr,
    {
        Self { addr, _marker: PhantomData }
    }

    pub fn as_u64(self) -> (r: u64)
        ensures
            r == self@,
    {
        self.addr
    }

    /// The address `rhs` bytes further on.
    pub fn add(self, rhs: u64) -> (r: Self)
        requires
            self@ + rhs <= u64::MAX,
        ensures
            r@ == self@ + rhs,
    {
        Self::new(self.addr + rhs)
    }

    /// The address `rhs` bytes back.
    pub fn sub(self, rhs: u64) -> (r: Self)
        requires
            self@ >= rhs,
        ensures
            r@ == self@ - rhs,
    {
        Self::new(self.addr - rhs)
    }
}

impl From<u64> for Address<Virtual> {
    fn from(addr: u64) -> (r: Self) {
        Self::new(addr)
    }
}

impl vstd::std_specs::convert::FromSpecImpl<u64> for Address<Virtual> {
    open spec fn obeys_from_spec() -> bool {
        true
    }

    closed spec fn from_spec(v: u64) -> Self {
        Address { addr: v, _marker: PhantomData }
    }
}

/// Converting a `u64` gives the virtual address with that value.
pub proof fn lemma_from_u64(v: u64)
    ensures
        <Address<Virtual> as vstd::std_specs::convert::FromSpec<u64>>::from_spec(v)@ == v,
{
}

} // verus!
