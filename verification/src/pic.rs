//! The two interrupt controllers.

use crate::port::{out, outb, PortWrite};
use vstd::prelude::*;

verus! {

pub const PIC1_COMMAND: u16 = 0x20;

pub const PIC1_DATA: u16 = 0x21;

pub const PIC2_COMMAND: u16 = 0xA0;

pub const PIC2_DATA: u16 = 0xA1;

/// Moves IRQ0-15 to vectors 0x20-0x2F and unmasks only the timer and the
/// keyboard: the writes that do it, in order.
pub fn remap() -> (r: Vec<PortWrite>)
    ensures
        r@ == seq![
            out(PIC1_COMMAND, 0x11),
            out(PIC2_COMMAND, 0x11),
            out(PIC1_DATA, 0x20),
            out(PIC2_DATA, 0x28),
            out(PIC1_DATA, 0x04),
            out(PIC2_DATA, 0x02),
            out(PIC1_DATA, 0x01),
            out(PIC2_DATA, 0x01),
            out(PIC1_DATA, 0xFC),
            out(PIC2_DATA, 0xFF),
        ],
{
    vec![
        outb(PIC1_COMMAND, 0x11),
        outb(PIC2_COMMAND, 0x11),
        outb(PIC1_DATA, 0x20),
        outb(PIC2_DATA, 0x28),
        outb(PIC1_DATA, 0x04),
        outb(PIC2_DATA, 0x02),
        outb(PIC1_DATA, 0x01),
        outb(PIC2_DATA, 0x01),
        outb(PIC1_DATA, 0xFC),
        outb(PIC2_DATA, 0xFF),
    ]
}

/// Acknowledges an interrupt: at the second controller too where the
/// interrupt came through it.
pub fn eoi(irq: u8) -> (r: Vec<PortWrite>)
    ensures
        r@ == if irq >= 8 {
            seq![out(PIC2_COMMAND, 0x20), out(PIC1_COMMAND, 0x20)]
        } else {
            seq![out(PIC1_COMMAND, 0x20)]
        },
{
    let mut writes: Vec<PortWrite> = Vec::new();
    if irq >= 8 {
        writes.push(outb(PIC2_COMMAND, 0x20));
    }
    writes.push(outb(PIC1_COMMAND, 0x20));
    assert(writes@ =~= if irq >= 8 {
        seq![out(PIC2_COMMAND, 0x20), out(PIC1_COMMAND, 0x20)]
    } else {
        seq![out(PIC1_COMMAND, 0x20)]
    });
    writes
}

} // verus!
