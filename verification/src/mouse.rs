//! PS/2 mouse: assembles standard 3-byte packets into `MouseEvent`s and
//! queues them.

use crate::queue::EventQueue;
use vstd::prelude::*;

verus! {

#[derive(Clone, Copy, Debug, PartialEq, Eq, Structural)]
pub struct MouseEvent {
    pub dx: i32,
    pub dy: i32,
    pub left: bool,
    pub right: bool,
    pub middle: bool,
}

pub const BUFFER_CAPACITY: usize = 64;

/// The mouse driver's state: the bytes of the packet being assembled,
/// whether the next whole packet is to be discarded, and the queue.
pub struct Mouse {
    queue: EventQueue<MouseEvent>,
    b0: u8,
    b1: u8,
    index: usize,
    skip_first_packet: bool,
}

pub struct MouseState {
    pub events: Seq<MouseEvent>,
    /// The bytes of the current packet so far.
    pub partial: Seq<u8>,
    pub skip_first: bool,
}

impl View for Mouse {
    type V = MouseState;

    closed spec fn view(&self) -> MouseState {
        MouseState {
            events: self.queue.view(),
            partial: if self.index == 0 {
                Seq::empty()
            } else if self.index == 1 {
                seq![self.b0]
            } else {
                seq![self.b0, self.b1]
            },
            skip_first: self.skip_first_packet,
        }
    }
}

/// A 9-bit two's complement movement.
pub open spec fn movement(low: u8, negative: bool) -> int {
    if negative {
        low - 256
    } else {
        low as int
    }
}

/// The event a whole packet reports. PS/2 reports +y as up; screen
/// coordinates grow downward.
pub open spec fn packet_event(b0: u8, b1: u8, b2: u8) -> MouseEvent {
    MouseEvent {
        dx: movement(b1, b0 & 0x10 != 0) as i32,
        dy: -movement(b2, b0 & 0x20 != 0) as i32,
        left: b0 & 0x01 != 0,
        right: b0 & 0x02 != 0,
        middle: b0 & 0x04 != 0,
    }
}

/// The driver's state after one more byte.
pub open spec fn after_byte(s: MouseState, data: u8) -> MouseState {
    if s.partial.len() == 0 && data & 0x08 == 0 {
        s
    } else if s.partial.len() < 2 {
        MouseState { partial: s.partial.push(data), ..s }
    } else {
        MouseState {
            events: if !s.skip_first && s.events.len() < 63 {
                s.events.push(packet_event(s.partial[0], s.partial[1], data))
            } else {
                s.events
            },
            partial: Seq::empty(),
            skip_first: false,
        }
    }
}

impl Mouse {
    pub closed spec fn wf(&self) -> bool {
        self.queue.wf() && self.queue.capacity() == 63 && self.index < 3
    }

    /// The state right after the mouse was told to start reporting. The
    /// handshake leaves one packet's worth of noise in the stream, so the
    /// first whole packet is discarded.
    pub fn new() -> (r: Self)
        ensures
            r.wf(),
            r@ == (MouseState { events: Seq::empty(), partial: Seq::empty(), skip_first: true }),
    {
        let blank = MouseEvent { dx: 0, dy: 0, left: false, right: false, middle: false };
        Mouse {
            queue: EventQueue::new(blank, BUFFER_CAPACITY),
            b0: 0,
            b1: 0,
            index: 0,
            skip_first_packet: true,
        }
    }
}

/// Takes in the byte read by the IRQ12 handler.
pub fn irq(mouse: &mut Mouse, data: u8)
    requires
        old(mouse).wf(),
    ensures
        final(mouse).wf(),
        final(mouse)@ == after_byte(old(mouse)@, data),
{
    if mouse.index == 0 && data & 0x08 == 0 {
        return;
    }
    if mouse.index == 0 {
        mouse.b0 = data;
        mouse.index = 1;
        assert(mouse@.partial =~= old(mouse)@.partial.push(data));
        return;
    }
    if mouse.index == 1 {
        mouse.b1 = data;
        mouse.index = 2;
        assert(mouse@.partial =~= old(mouse)@.partial.push(data));
        return;
    }
    mouse.index = 0;
    let b0 = mouse.b0;
    let mut dx: i32 = mouse.b1 as i32;
    let mut dy: i32 = data as i32;
    if b0 & 0x10 != 0 {
        dx = dx - 256;
    }
    if b0 & 0x20 != 0 {
        dy = dy - 256;
    }
    if mouse.skip_first_packet {
        mouse.skip_first_packet = false;
        return;
    }
    let event = MouseEvent {
        dx,
        dy: -dy,
        left: b0 & 0x01 != 0,
        right: b0 & 0x02 != 0,
        middle: b0 & 0x04 != 0,
    };
    mouse.queue.push(event);
}

/// The controller command byte that turns on IRQ12 and the clock of the
/// auxiliary port, out of the one read before.
pub fn enabled_command_byte(status: u8) -> (r: u8)
    ensures
        r == (status | 0x02u8) & 0xDFu8,
{
    (status | 0x02) & 0xDF
}

/// One step of talking to the controller: a byte for its command or its
/// data port, each once its input buffer is clear, or a byte to read once
/// its output buffer is full.
#[derive(Clone, Copy, Debug, PartialEq, Eq, Structural)]
pub enum Step {
    Command(u8),
    Data(u8),
    Read,
}

/// How the mouse is turned on, up to the controller's command byte, which
/// the last step reads: the auxiliary port is enabled first.
pub fn init() -> (r: Vec<Step>)
    ensures
        r@ == seq![Step::Command(0xA8), Step::Command(0x20), Step::Read],
{
    let r = vec![Step::Command(0xA8), Step::Command(0x20), Step::Read];
    assert(r@ =~= seq![Step::Command(0xA8), Step::Command(0x20), Step::Read]);
    r
}

/// The rest, once the command byte is known: it is written back with the
/// mouse's interrupt and clock on; then the mouse gets its defaults and
/// starts to report, and its two acknowledgements are read.
pub fn init_with(status: u8) -> (r: Vec<Step>)
    ensures
        r@ == seq![
            Step::Command(0x60),
            Step::Data((status | 0x02u8) & 0xDFu8),
            Step::Command(0xD4),
            Step::Data(0xF6),
            Step::Read,
            Step::Command(0xD4),
            Step::Data(0xF4),
            Step::Read,
        ],
{
    let r = vec![
        Step::Command(0x60),
        Step::Data(enabled_command_byte(status)),
        Step::Command(0xD4),
        Step::Data(0xF6),
        Step::Read,
        Step::Command(0xD4),
        Step::Data(0xF4),
        Step::Read,
    ];
    assert(r@ =~= seq![
        Step::Command(0x60),
        Step::Data((status | 0x02u8) & 0xDFu8),
        Step::Command(0xD4),
        Step::Data(0xF6),
        Step::Read,
        Step::Command(0xD4),
        Step::Data(0xF4),
        Step::Read,
    ]);
    r
}

/// Whether the controller takes another byte.
pub fn input_clear(status: u8) -> (r: bool)
    ensures
        r == (status & 0x02 == 0),
{
    status & 0x02 == 0
}

/// Whether the controller has a byte to read.
pub fn output_full(status: u8) -> (r: bool)
    ensures
        r == (status & 0x01 != 0),
{
    status & 0x01 != 0
}

/// The oldest queued event, which leaves the queue.
pub fn next_event(mouse: &mut Mouse) -> (r: Option<MouseEvent>)
    requires
        old(mouse).wf(),
    ensures
        final(mouse).wf(),
        old(mouse)@.events.len() == 0 ==> r is None && final(mouse)@ == old(mouse)@,
        old(mouse)@.events.len() > 0 ==> r == Some(old(mouse)@.events[0]) && final(mouse)@ == (
        MouseState { events: old(mouse)@.events.skip(1), ..old(mouse)@ }),
{
    mouse.queue.pop()
}

/// Three bytes, the first with the sync bit, make up exactly one event once
/// the first packet is past, and leave the stream in sync.
pub proof fn law_packet_gives_one_event(s: MouseState, b0: u8, b1: u8, b2: u8)
    requires
        s.partial.len() == 0,
        !s.skip_first,
        s.events.len() < 63,
        b0 & 0x08 != 0,
    ensures
        after_byte(after_byte(after_byte(s, b0), b1), b2) == (MouseState {
            events: s.events.push(packet_event(b0, b1, b2)),
            ..s
        }),
{
    let one = after_byte(s, b0);
    let two = after_byte(one, b1);
    assert(two.partial =~= seq![b0, b1]);
    assert(after_byte(two, b2).partial =~= s.partial);
}

/// Between packets, a byte without the sync bit is dropped.
pub proof fn law_resync(s: MouseState, data: u8)
    requires
        s.partial.len() == 0,
        data & 0x08 == 0,
    ensures
        after_byte(s, data) == s,
{
}

/// A packet moves the pointer by nine-bit numbers whose low eight bits are
/// its second and third byte and whose signs are bits 4 and 5 of its first;
/// up is negative. The three lowest bits are the buttons: left, right,
/// middle.
pub proof fn law_packet_meaning(b0: u8, b1: u8, b2: u8)
    ensures
        ({
            let e = packet_event(b0, b1, b2);
            &&& e.dx == b1 - (if b0 / 16 % 2 == 1 {
                256int
            } else {
                0
            })
            &&& -e.dy == b2 - (if b0 / 32 % 2 == 1 {
                256int
            } else {
                0
            })
            &&& e.left == (b0 % 2 == 1)
            &&& e.right == (b0 / 2 % 2 == 1)
            &&& e.middle == (b0 / 4 % 2 == 1)
        }),
{
    assert((b0 & 0x10 != 0) == (b0 / 16 % 2 == 1) && (b0 & 0x20 != 0) == (b0 / 32 % 2 == 1) && (b0 & 1 != 0) == (b0 % 2
        == 1) && (b0 & 2 != 0) == (b0 / 2 % 2 == 1) && (b0 & 4 != 0) == (b0 / 4 % 2 == 1)) by (bit_vector);
}

} // verus!
