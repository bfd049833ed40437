//! The interrupt descriptor table.

use crate::gdt::{DOUBLE_FAULT_IST, KERNEL_CODE};
use vstd::prelude::*;

verus! {

/// One gate.
#[derive(Clone, Copy, Debug, PartialEq, Eq, Structural)]
pub struct IdtEntry {
    pub offset_low: u16,
    pub selector: u16,
    pub ist: u8,
    pub type_attr: u8,
    pub offset_mid: u16,
    pub offset_high: u32,
    pub reserved: u32,
}

/// A present 64-bit interrupt gate for the kernel.
pub open spec fn gate(offset: u64, selector: u16, ist: u8) -> IdtEntry {
    IdtEntry {
        offset_low: (offset % 0x1_0000) as u16,
        selector,
        ist,
        type_attr: 0x8E,
        offset_mid: (offset / 0x1_0000 % 0x1_0000) as u16,
        offset_high: (offset / 0x1_0000_0000) as u32,
        reserved: 0,
    }
}

impl IdtEntry {
    pub fn new(offset: u64, selector: u16, ist: u8) -> (r: Self)
        ensures
            r == gate(offset, selector, ist),
    {
        IdtEntry {
            offset_low: (offset % 0x1_0000) as u16,
            selector,
            ist,
            type_attr: 0x8E,
            offset_mid: (offset / 0x1_0000 % 0x1_0000) as u16,
            offset_high: (offset / 0x1_0000_0000) as u32,
            reserved: 0,
        }
    }
}

/// The three pieces of a gate's address make up the handler's.
pub proof fn law_gate_leads_to_handler(offset: u64, selector: u16, ist: u8)
    ensures
        ({
            let g = gate(offset, selector, ist);
            g.offset_low + g.offset_mid * 0x1_0000 + g.offset_high * 0x1_0000_0000 == offset
        }),
{
}

pub struct Idt {
    pub entries: Vec<IdtEntry>,
}

impl Idt {
    /// A gate for each of the 256 vectors; a double fault gets its own
    /// stack.
    pub fn new(handlers: &[u64; 256]) -> (r: Self)
        ensures
            r.entries@.len() == 256,
            forall|i: int|
                0 <= i < 256 ==> #[trigger] r.entries@[i] == gate(
                    handlers@[i],
                    KERNEL_CODE,
                    if i == 8 {
                        DOUBLE_FAULT_IST
                    } else {
                        0
                    },
                ),
    {
        let mut entries: Vec<IdtEntry> = Vec::new();
        let mut i: usize = 0;
        while i < 256
            invariant
                i <= 256,
                entries@.len() == i,
                forall|k: int|
                    0 <= k < i ==> #[trigger] entries@[k] == gate(
                        handlers@[k],
                        KERNEL_CODE,
                        if k == 8 {
                            DOUBLE_FAULT_IST
                        } else {
                            0
                        },
                    ),
            decreases 256 - i,
        {
            let ist = if i == 8 { DOUBLE_FAULT_IST } else { 0 };
            entries.push(IdtEntry::new(handlers[i], KERNEL_CODE, ist));
            i += 1;
        }
        Idt { entries }
    }

    /// The table's limit: its size in bytes less one.
    pub fn limit(&self) -> (r: u16)
        requires
            self.entries@.len() == 256,
        ensures
            r == 16 * 256 - 1,
    {
        4095
    }
}

} // verus!
