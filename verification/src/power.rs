//! Power control: safe shutdown and reboot. Both save the system settings
//! and remove the marker of an unclean shutdown first, then say what has to
//! be done to the hardware.

use crate::acpi::{carries_out, s5, s5_shutdown, PowerOff};
use crate::fat::{remove, removed, Mount, Volume};
use crate::port::{out, outb, PortWrite};
use crate::rtc::DateTime;
use crate::settings::{fits, saved, Settings};
use vstd::prelude::*;

verus! {

pub const DIRTY_MARKER: &'static str = "/system/dirty";

/// The volume after an orderly stop.
pub open spec fn settled(disk: Option<Volume>, settings: Settings, now: DateTime) -> Option<Volume> {
    match saved(disk, settings@, now).1 {
        Some(v) => Some(removed(v, DIRTY_MARKER@).1),
        None => None,
    }
}

fn settle(disk: &mut Mount, settings: &Settings, now: DateTime)
    requires
        old(disk).wf(),
        fits(settings@),
    ensures
        final(disk).wf(),
        final(disk)@ == settled(old(disk)@, *settings, now),
{
    settings.save(disk, now);
    match remove(disk, DIRTY_MARKER) {
        _ => {},
    }
}

/// Saves settings and plans the power-off: the ACPI transition where the
/// tables allow it, and the emulator's exit port in case it had no effect.
pub fn shutdown(disk: &mut Mount, settings: &Settings, now: DateTime, memory: &[u8]) -> (r: (
    Option<PowerOff>,
    PortWrite,
))
    requires
        old(disk).wf(),
        fits(settings@),
    ensures
        final(disk).wf(),
        final(disk)@ == settled(old(disk)@, *settings, now),
        match s5(memory@) {
            None => r.0 is None,
            Some(p) => r.0 matches Some(off) && carries_out(off, p),
        },
        r.1 == out(0xF4, 0),
{
    settle(disk, settings, now);
    (s5_shutdown(memory), outb(0xF4, 0))
}

/// Saves settings and plans the reboot: the keyboard controller's reset
/// line.
pub fn reboot(disk: &mut Mount, settings: &Settings, now: DateTime) -> (r: PortWrite)
    requires
        old(disk).wf(),
        fits(settings@),
    ensures
        final(disk).wf(),
        final(disk)@ == settled(old(disk)@, *settings, now),
        r == out(0x64, 0xFE),
{
    settle(disk, settings, now);
    outb(0x64, 0xFE)
}

} // verus!
