//! The first serial port.

use crate::port::{out, outb, PortWrite};
use vstd::prelude::*;
use vstd::utf8::encode_utf8;

verus! {

pub const COM1: u16 = 0x3F8;

/// 38400 baud, 8 data bits, no parity, 1 stop bit, FIFO on: the writes that
/// set it up, in order.
pub fn init() -> (r: Vec<PortWrite>)
    ensures
        r@ == seq![
            out(0x3F9, 0x00),
            out(0x3FB, 0x80),
            out(0x3F8, 0x03),
            out(0x3F9, 0x00),
            out(0x3FB, 0x03),
            out(0x3FA, 0xC7),
            out(0x3FC, 0x0B),
        ],
{
    vec![
        outb(COM1 + 1, 0x00),
        outb(COM1 + 3, 0x80),
        outb(COM1, 0x03),
        outb(COM1 + 1, 0x00),
        outb(COM1 + 3, 0x03),
        outb(COM1 + 2, 0xC7),
        outb(COM1 + 4, 0x0B),
    ]
}

/// Whether the line status lets a byte go out.
pub fn tx_ready(status: u8) -> (r: bool)
    ensures
        r == (status as int / 32 % 2 == 1),
{
    status / 32 % 2 == 1
}

/// The write that sends a byte, once the port is ready.
pub fn write_byte(byte: u8) -> (r: PortWrite)
    ensures
        r == out(COM1, byte),
{
    outb(COM1, byte)
}

/// Writes text to the port.
pub struct SerialWriter;

impl SerialWriter {
    /// The writes that send a text, each once the port is ready.
    pub fn write_str(&mut self, s: &str) -> (r: Vec<PortWrite>)
        ensures
            r@ == encode_utf8(s@).map_values(|b: u8| out(COM1, b)),
    {
        write_str(s)
    }
}

/// The writes that send a text, each once the port is ready.
pub fn write_str(s: &str) -> (r: Vec<PortWrite>)
    ensures
        r@ == encode_utf8(s@).map_values(|b: u8| out(COM1, b)),
{
    let bytes = s.as_bytes();
    let ghost all = encode_utf8(s@);
    let mut writes: Vec<PortWrite> = Vec::new();
    let mut i: usize = 0;
    while i < bytes.len()
        invariant
            i <= bytes@.len(),
            bytes@ == all,
            writes@ =~= all.take(i as int).map_values(|b: u8| out(COM1, b)),
        decreases bytes@.len() - i,
    {
        writes.push(write_byte(bytes[i]));
        i += 1;
    }
    assert(all.take(i as int) =~= all);
    writes
}

} // verus!
