//! PS/2 keyboard: scancode set 1 decoding with shift and caps lock, and
//! the queue of decoded key events.

use crate::queue::EventQueue;
use vstd::prelude::*;

verus! {

#[derive(Clone, Copy, Debug, PartialEq, Eq, Structural)]
pub enum Event {
    Char(char),
    Backspace,
    Enter,
    Tab,
    Escape,
    Left,
    Right,
    Up,
    Down,
    Ctrl(char),
    F(u8),
}

pub const BUFFER_CAPACITY: usize = 256;

/// PS/2 scancode set 1 keymap (index = scancode).
pub const KEYMAP: [u8; 128] = [
    0, 0, 49, 50, 51, 52, 53, 54, 55, 56, 57, 48, 45, 61, 0, 0,
    113, 119, 101, 114, 116, 121, 117, 105, 111, 112, 91, 93, 0, 0, 97, 115,
    100, 102, 103, 104, 106, 107, 108, 59, 39, 96, 0, 92, 122, 120, 99, 118,
    98, 110, 109, 44, 46, 47, 0, 42, 0, 32, 0, 0, 0, 0, 0, 0,
    0, 0, 0, 0, 0, 0, 0, 0, 0, 0, 0, 0, 0, 0, 0, 0,
    0, 0, 0, 0, 0, 0, 0, 0, 0, 0, 0, 0, 0, 0, 0, 0,
    0, 0, 0, 0, 0, 0, 0, 0, 0, 0, 0, 0, 0, 0, 0, 0,
    0, 0, 0, 0, 0, 0, 0, 0, 0, 0, 0, 0, 0, 0, 0, 0,
];

/// The same keys with shift held.
pub const KEYMAP_SHIFT: [u8; 128] = [
    0, 0, 33, 64, 35, 36, 37, 94, 38, 42, 40, 41, 95, 43, 0, 0,
    81, 87, 69, 82, 84, 89, 85, 73, 79, 80, 123, 125, 0, 0, 65, 83,
    68, 70, 71, 72, 74, 75, 76, 58, 34, 126, 0, 124, 90, 88, 67, 86,
    66, 78, 77, 60, 62, 63, 0, 0, 0, 32, 0, 0, 0, 0, 0, 0,
    0, 0, 0, 0, 0, 0, 0, 0, 0, 0, 0, 0, 0, 0, 0, 0,
    0, 0, 0, 0, 0, 0, 0, 0, 0, 0, 0, 0, 0, 0, 0, 0,
    0, 0, 0, 0, 0, 0, 0, 0, 0, 0, 0, 0, 0, 0, 0, 0,
    0, 0, 0, 0, 0, 0, 0, 0, 0, 0, 0, 0, 0, 0, 0, 0,
];

/// The keyboard driver's state.
pub struct Keyboard {
    queue: EventQueue<Event>,
    shift_down: bool,
    caps_lock: bool,
}

/// Queued events and modifier state.
pub struct KeyState {
    pub events: Seq<Event>,
    pub shift: bool,
    pub caps: bool,
}

impl View for Keyboard {
    type V = KeyState;

    closed spec fn view(&self) -> KeyState {
        KeyState { events: self.queue.view(), shift: self.shift_down, caps: self.caps_lock }
    }
}

/// The ASCII letter in upper case; any other byte as it is.
pub open spec fn upper(b: u8) -> u8 {
    if 97 <= b <= 122 {
        (b - 32) as u8
    } else {
        b
    }
}

pub open spec fn is_letter(b: u8) -> bool {
    65 <= b <= 90 || 97 <= b <= 122
}

/// The event that a scancode stands for under the given modifiers.
pub open spec fn event_of(scancode: u8, shift: bool, caps: bool) -> Option<Event> {
    if scancode == 0x2A || scancode == 0x36 || scancode == 0x3A || scancode >= 0x80 {
        None
    } else if scancode == 0x0E {
        Some(Event::Backspace)
    } else if scancode == 0x1C {
        Some(Event::Enter)
    } else if scancode == 0x0F {
        Some(Event::Tab)
    } else if scancode == 0x39 {
        Some(Event::Char(' '))
    } else {
        let base = KEYMAP@[scancode as int];
        let shifted = KEYMAP_SHIFT@[scancode as int];
        if shift && shifted != 0 {
            Some(Event::Char(shifted as char))
        } else if caps && is_letter(base) {
            Some(Event::Char(upper(base) as char))
        } else if base != 0 {
            Some(Event::Char(base as char))
        } else {
            None
        }
    }
}

/// Whether shift is held after the scancode.
pub open spec fn shift_after(scancode: u8, shift: bool) -> bool {
    if scancode == 0x2A || scancode == 0x36 {
        true
    } else if scancode == 0xAA || scancode == 0xB6 {
        false
    } else {
        shift
    }
}

/// Whether caps lock is on after the scancode.
pub open spec fn caps_after(scancode: u8, caps: bool) -> bool {
    if scancode == 0x3A {
        !caps
    } else {
        caps
    }
}

impl Keyboard {
    pub closed spec fn wf(&self) -> bool {
        self.queue.wf() && self.queue.capacity() == 255
    }

    /// A keyboard with no key held and nothing queued.
    pub fn new() -> (r: Self)
        ensures
            r.wf(),
            r@ == (KeyState { events: Seq::empty(), shift: false, caps: false }),
    {
        Keyboard {
            queue: EventQueue::new(Event::Char('\0'), BUFFER_CAPACITY),
            shift_down: false,
            caps_lock: false,
        }
    }

    /// Takes one scancode in: modifiers change the state, other keys give
    /// an event.
    pub fn decode(&mut self, scancode: u8) -> (r: Option<Event>)
        requires
            old(self).wf(),
        ensures
            final(self).wf(),
            r == event_of(scancode, old(self)@.shift, old(self)@.caps),
            final(self)@ == (KeyState {
                events: old(self)@.events,
                shift: shift_after(scancode, old(self)@.shift),
                caps: caps_after(scancode, old(self)@.caps),
            }),
    {
        if scancode == 0x2A || scancode == 0x36 {
            self.shift_down = true;
            return None;
        }
        if scancode == 0xAA || scancode == 0xB6 {
            self.shift_down = false;
            return None;
        }
        if scancode == 0x3A {
            self.caps_lock = !self.caps_lock;
            return None;
        }
        if scancode == 0x0E {
            return Some(Event::Backspace);
        }
        if scancode == 0x1C {
            return Some(Event::Enter);
        }
        if scancode == 0x0F {
            return Some(Event::Tab);
        }
        if scancode == 0x39 {
            return Some(Event::Char(' '));
        }
        if scancode >= 0x80 {
            return None;
        }
        let base: u8 = KEYMAP[scancode as usize];
        let shifted_char: u8 = KEYMAP_SHIFT[scancode as usize];
        let letter = (65 <= base && base <= 90) || (97 <= base && base <= 122);
        if self.shift_down && shifted_char != 0 {
            Some(Event::Char(shifted_char as char))
        } else if self.caps_lock && letter {
            let upper_base: u8 = if base >= 97 { base - 32 } else { base };
            Some(Event::Char(upper_base as char))
        } else if base != 0 {
            Some(Event::Char(base as char))
        } else {
            None
        }
    }
}

/// Takes in the scancode read by the IRQ1 handler: a decoded event is
/// queued, or dropped when the queue is full.
pub fn irq(keyboard: &mut Keyboard, scancode: u8)
    requires
        old(keyboard).wf(),
    ensures
        final(keyboard).wf(),
        final(keyboard)@ == (KeyState {
            events: match event_of(scancode, old(keyboard)@.shift, old(keyboard)@.caps) {
                Some(e) => if old(keyboard)@.events.len() < 255 {
                    old(keyboard)@.events.push(e)
                } else {
                    old(keyboard)@.events
                },
                None => old(keyboard)@.events,
            },
            shift: shift_after(scancode, old(keyboard)@.shift),
            caps: caps_after(scancode, old(keyboard)@.caps),
        }),
{
    if let Some(event) = keyboard.decode(scancode) {
        keyboard.queue.push(event);
    }
}

/// The oldest queued event, which leaves the queue.
pub fn next_event(keyboard: &mut Keyboard) -> (r: Option<Event>)
    requires
        old(keyboard).wf(),
    ensures
        final(keyboard).wf(),
        old(keyboard)@.events.len() == 0 ==> r is None && final(keyboard)@ == old(keyboard)@,
        old(keyboard)@.events.len() > 0 ==> r == Some(old(keyboard)@.events[0]) && final(keyboard)@ == (KeyState { events: old(keyboard)@.events.skip(1), ..old(keyboard)@ }),
{
    keyboard.queue.pop()
}

/// A key press followed by its release leaves caps lock as the press set
/// it and gives no second event, and releasing shift undoes pressing it.
pub proof fn law_releases_are_silent(scancode: u8, shift: bool, caps: bool)
    requires
        scancode >= 0x80,
    ensures
        event_of(scancode, shift, caps) is None,
        caps_after(scancode, caps) == caps,
        shift_after(0xAA, shift_after(0x2A, shift)) == false,
        shift_after(0xB6, shift_after(0x36, shift)) == false,
{
}

/// Pressing caps lock twice changes nothing.
pub proof fn law_caps_toggles(caps: bool)
    ensures
        caps_after(0x3A, caps_after(0x3A, caps)) == caps,
{
}

/// The event of key `i` of a run of keys that starts at a scancode.
pub open spec fn types_run(start: u8, shift: bool, caps: bool, text: Seq<char>) -> bool {
    forall|i: int|
        0 <= i < text.len() ==> #[trigger] event_of((start + i) as u8, shift, caps) == Some(Event::Char(text[i]))
}

/// The letter and digit rows type what is printed on them; with shift the
/// letters are capitals and the digits the signs above them; caps lock makes
/// capitals of the letters alone.
pub proof fn law_rows_of_keys(caps: bool)
    ensures
        types_run(0x10, false, false, "qwertyuiop"@),
        types_run(0x10, true, caps, "QWERTYUIOP"@),
        types_run(0x10, false, true, "QWERTYUIOP"@),
        types_run(0x1E, false, false, "asdfghjkl"@),
        types_run(0x1E, true, caps, "ASDFGHJKL"@),
        types_run(0x1E, false, true, "ASDFGHJKL"@),
        types_run(0x2C, false, false, "zxcvbnm"@),
        types_run(0x2C, true, caps, "ZXCVBNM"@),
        types_run(0x2C, false, true, "ZXCVBNM"@),
        types_run(0x02, false, caps, "1234567890"@),
        types_run(0x02, true, caps, "!@#$%^&*()"@),
{
    assert(types_run(0x10, false, false, "qwertyuiop"@)) by {
        reveal_strlit("qwertyuiop");
        assert forall|i: int| 0 <= i < "qwertyuiop"@.len() implies #[trigger] event_of((0x10 + i) as u8, false, false) == Some(
            Event::Char("qwertyuiop"@[i]),
        ) by {
            assert(i == 0 || i == 1 || i == 2 || i == 3 || i == 4 || i == 5 || i == 6 || i == 7 || i == 8 || i == 9);
        }
    }
    assert(types_run(0x10, true, caps, "QWERTYUIOP"@)) by {
        reveal_strlit("QWERTYUIOP");
        assert forall|i: int| 0 <= i < "QWERTYUIOP"@.len() implies #[trigger] event_of((0x10 + i) as u8, true, caps) == Some(
            Event::Char("QWERTYUIOP"@[i]),
        ) by {
            assert(i == 0 || i == 1 || i == 2 || i == 3 || i == 4 || i == 5 || i == 6 || i == 7 || i == 8 || i == 9);
        }
    }
    assert(types_run(0x10, false, true, "QWERTYUIOP"@)) by {
        reveal_strlit("QWERTYUIOP");
        assert forall|i: int| 0 <= i < "QWERTYUIOP"@.len() implies #[trigger] event_of((0x10 + i) as u8, false, true) == Some(
            Event::Char("QWERTYUIOP"@[i]),
        ) by {
            assert(i == 0 || i == 1 || i == 2 || i == 3 || i == 4 || i == 5 || i == 6 || i == 7 || i == 8 || i == 9);
        }
    }
    assert(types_run(0x1E, false, false, "asdfghjkl"@)) by {
        reveal_strlit("asdfghjkl");
        assert forall|i: int| 0 <= i < "asdfghjkl"@.len() implies #[trigger] event_of((0x1E + i) as u8, false, false) == Some(
            Event::Char("asdfghjkl"@[i]),
        ) by {
            assert(i == 0 || i == 1 || i == 2 || i == 3 || i == 4 || i == 5 || i == 6 || i == 7 || i == 8);
        }
    }
    assert(types_run(0x1E, true, caps, "ASDFGHJKL"@)) by {
        reveal_strlit("ASDFGHJKL");
        assert forall|i: int| 0 <= i < "ASDFGHJKL"@.len() implies #[trigger] event_of((0x1E + i) as u8, true, caps) == Some(
            Event::Char("ASDFGHJKL"@[i]),
        ) by {
            assert(i == 0 || i == 1 || i == 2 || i == 3 || i == 4 || i == 5 || i == 6 || i == 7 || i == 8);
        }
    }
    assert(types_run(0x1E, false, true, "ASDFGHJKL"@)) by {
        reveal_strlit("ASDFGHJKL");
        assert forall|i: int| 0 <= i < "ASDFGHJKL"@.len() implies #[trigger] event_of((0x1E + i) as u8, false, true) == Some(
            Event::Char("ASDFGHJKL"@[i]),
        ) by {
            assert(i == 0 || i == 1 || i == 2 || i == 3 || i == 4 || i == 5 || i == 6 || i == 7 || i == 8);
        }
    }
    assert(types_run(0x2C, false, false, "zxcvbnm"@)) by {
        reveal_strlit("zxcvbnm");
        assert forall|i: int| 0 <= i < "zxcvbnm"@.len() implies #[trigger] event_of((0x2C + i) as u8, false, false) == Some(
            Event::Char("zxcvbnm"@[i]),
        ) by {
            assert(i == 0 || i == 1 || i == 2 || i == 3 || i == 4 || i == 5 || i == 6);
        }
    }
    assert(types_run(0x2C, true, caps, "ZXCVBNM"@)) by {
        reveal_strlit("ZXCVBNM");
        assert forall|i: int| 0 <= i < "ZXCVBNM"@.len() implies #[trigger] event_of((0x2C + i) as u8, true, caps) == Some(
            Event::Char("ZXCVBNM"@[i]),
        ) by {
            assert(i == 0 || i == 1 || i == 2 || i == 3 || i == 4 || i == 5 || i == 6);
        }
    }
    assert(types_run(0x2C, false, true, "ZXCVBNM"@)) by {
        reveal_strlit("ZXCVBNM");
        assert forall|i: int| 0 <= i < "ZXCVBNM"@.len() implies #[trigger] event_of((0x2C + i) as u8, false, true) == Some(
            Event::Char("ZXCVBNM"@[i]),
        ) by {
            assert(i == 0 || i == 1 || i == 2 || i == 3 || i == 4 || i == 5 || i == 6);
        }
    }
    assert(types_run(0x02, false, caps, "1234567890"@)) by {
        reveal_strlit("1234567890");
        assert forall|i: int| 0 <= i < "1234567890"@.len() implies #[trigger] event_of((0x02 + i) as u8, false, caps) == Some(
            Event::Char("1234567890"@[i]),
        ) by {
            assert(i == 0 || i == 1 || i == 2 || i == 3 || i == 4 || i == 5 || i == 6 || i == 7 || i == 8 || i == 9);
        }
    }
    assert(types_run(0x02, true, caps, "!@#$%^&*()"@)) by {
        reveal_strlit("!@#$%^&*()");
        assert forall|i: int| 0 <= i < "!@#$%^&*()"@.len() implies #[trigger] event_of((0x02 + i) as u8, true, caps) == Some(
            Event::Char("!@#$%^&*()"@[i]),
        ) by {
            assert(i == 0 || i == 1 || i == 2 || i == 3 || i == 4 || i == 5 || i == 6 || i == 7 || i == 8 || i == 9);
        }
    }
}

/// The keys that are no characters, and the space bar.
pub proof fn law_named_keys(shift: bool, caps: bool)
    ensures
        event_of(0x0E, shift, caps) == Some(Event::Backspace),
        event_of(0x0F, shift, caps) == Some(Event::Tab),
        event_of(0x1C, shift, caps) == Some(Event::Enter),
        event_of(0x39, shift, caps) == Some(Event::Char(' ')),
        shift_after(0x2A, shift) && shift_after(0x36, shift),
        !shift_after(0xAA, shift) && !shift_after(0xB6, shift),
        event_of(0x3A, shift, caps) is None && caps_after(0x3A, caps) == !caps,
{
}

} // verus!
