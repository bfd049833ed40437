//! The decisions of the GUI main loop.

use crate::settings::Settings;
use crate::text::{dec, push_dec, push_str, string_of};
use vstd::prelude::*;

verus! {

/// What the persisted display settings ask for before anything is laid out:
/// a resolution to switch to, and the font scale.
pub fn startup(settings: &Settings) -> (r: (Option<(u32, u32)>, u32))
    ensures
        r.0 == settings@.resolution,
        r.1 == if settings@.font >= 200 {
            2u32
        } else {
            1
        },
{
    (settings.resolution, if settings.font_scale_percent >= 200 { 2 } else { 1 })
}

/// The line that reports the first frame.
pub fn first_frame(w: u32, h: u32) -> (r: String)
    ensures
        r@ == "[OK] desktop: first frame composited ("@ + dec(w as nat) + "x"@ + dec(h as nat)
            + ")\n"@,
{
    let mut out: Vec<char> = Vec::new();
    push_str(&mut out, "[OK] desktop: first frame composited (");
    push_dec(&mut out, w as u64);
    push_str(&mut out, "x");
    push_dec(&mut out, h as u64);
    push_str(&mut out, ")\n");
    assert(out@ =~= "[OK] desktop: first frame composited ("@ + dec(w as nat) + "x"@ + dec(h as nat)
        + ")\n"@);
    string_of(&out)
}

/// What has to be drawn in a round of the loop.
#[derive(Clone, Copy, Debug, PartialEq, Eq, Structural)]
pub enum Frame {
    /// Nothing: wait for the next interrupt.
    Idle,
    /// Only the cursor moved.
    CursorOnly,
    /// The region of the window being dragged.
    Drag,
    /// The whole desktop.
    Full,
}

/// What a round of the loop saw.
#[derive(Clone, Copy, Debug, PartialEq, Eq, Structural)]
pub struct Round {
    /// Something on screen changed.
    pub dirty: bool,
    /// The cursor moved and nothing changed.
    pub cursor_only: bool,
}

impl Round {
    pub fn new() -> (r: Self)
        ensures
            r == (Round { dirty: false, cursor_only: false }),
    {
        Round { dirty: false, cursor_only: false }
    }

    /// A mouse event; `changed` tells whether it changed something on
    /// screen.
    pub fn mouse(&mut self, changed: bool)
        ensures
            *final(self) == if changed {
                Round { dirty: true, ..*old(self) }
            } else {
                Round { cursor_only: true, ..*old(self) }
            },
    {
        if changed {
            self.dirty = true;
        } else {
            self.cursor_only = true;
        }
    }

    /// A key event always counts as a change.
    pub fn key(&mut self)
        ensures
            *final(self) == (Round { dirty: true, ..*old(self) }),
    {
        self.dirty = true;
    }

    /// What to draw, by whether the clock is due and a window is dragged.
    pub fn frame(&self, clock_due: bool, dragging: bool) -> (r: Frame)
        ensures
            r == if self.dirty || clock_due {
                if dragging {
                    Frame::Drag
                } else {
                    Frame::Full
                }
            } else if self.cursor_only {
                Frame::CursorOnly
            } else {
                Frame::Idle
            },
    {
        if self.dirty || clock_due {
            if dragging {
                Frame::Drag
            } else {
                Frame::Full
            }
        } else if self.cursor_only {
            Frame::CursorOnly
        } else {
            Frame::Idle
        }
    }
}

} // verus!
