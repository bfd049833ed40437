//! The programmable interval timer.

use crate::port::{out, outb, PortWrite};
use vstd::prelude::*;

verus! {

pub const CHANNEL0: u16 = 0x40;

pub const COMMAND: u16 = 0x43;

pub const PIT_FREQUENCY_HZ: u32 = 1193182;

pub const TICK_HZ: u32 = 100;

/// The number of timer cycles in a tick.
pub open spec fn divisor() -> int {
    PIT_FREQUENCY_HZ as int / TICK_HZ as int
}

/// Programs channel 0 for a square wave at the tick rate: the mode, then the
/// divisor's low and high byte.
pub fn init() -> (r: Vec<PortWrite>)
    ensures
        r@ == seq![
            out(COMMAND, 0x36),
            out(CHANNEL0, (divisor() % 256) as u8),
            out(CHANNEL0, (divisor() / 256) as u8),
        ],
{
    let divisor = (PIT_FREQUENCY_HZ / TICK_HZ) as u16;
    vec![
        outb(COMMAND, 0x36),
        outb(CHANNEL0, (divisor % 256) as u8),
        outb(CHANNEL0, (divisor / 256) as u8),
    ]
}

} // verus!
