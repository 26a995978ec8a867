use vstd::prelude::*;

verus! {

/// An I/O port number.
pub type PortAddress = u16;

/// One byte written to an I/O port.
#[derive(Clone, Copy, Debug, PartialEq, Eq)]
pub struct PortWrite {
    pub port: PortAddress,
    pub value: u8,
}

/// Port whose writes do nothing but take time.
pub const IO_WAIT_PORT: PortAddress = 0x80;

/// The write that waits a moment: a zero to the unused port 0x80.
pub open spec fn wait_write() -> PortWrite {
    PortWrite { port: IO_WAIT_PORT, value: 0 }
}

/// The write that waits a moment between two port accesses.
pub fn io_wait() -> (r: PortWrite)
    ensures
        r == wait_write(),
{
    PortWrite { port: IO_WAIT_PORT, value: 0 }
}

} // verus!
