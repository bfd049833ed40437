//! Writes to I/O ports, as plain values.

use vstd::prelude::*;

verus! {

/// A byte for an I/O port.
#[derive(Clone, Copy, Debug, PartialEq, Eq, Structural)]
pub struct PortWrite {
    pub port: u16,
    pub value: u8,
}

/// A byte for an I/O port, in contracts.
pub open spec fn out(port: u16, value: u8) -> PortWrite {
    PortWrite { port, value }
}

/// A byte for an I/O port.
pub fn outb(port: u16, value: u8) -> (r: PortWrite)
    ensures
        r == out(port, value),
{
    PortWrite { port, value }
}

} // verus!
