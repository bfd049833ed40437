//! Best-effort persistence of kernel panics and CPU exceptions to the
//! mounted volume. Every entry is appended to a fixed file, capped to the
//! newest bytes so the log can never grow without bound.

use crate::fat::{file_at, file_written, read_file, write_file, FatError, Mount, Volume};
use crate::fat_room::{can_write, law_file_can_be_written};
use crate::rtc::DateTime;
use vstd::prelude::*;
use vstd::slice::slice_subrange;
use vstd::utf8::encode_utf8;

verus! {

pub const PANIC_LOG_PATH: &'static str = "/system/panic.log";

/// Keep only the most recent bytes of the log.
pub const MAX_LOG_SIZE: usize = 65536;

/// The newest `MAX_LOG_SIZE` bytes.
pub open spec fn newest(s: Seq<u8>) -> Seq<u8> {
    if s.len() > MAX_LOG_SIZE {
        s.skip(s.len() - MAX_LOG_SIZE)
    } else {
        s
    }
}

/// The log with an entry added.
pub open spec fn logged(old_log: Seq<u8>, entry: Seq<u8>) -> Seq<u8> {
    newest(old_log + entry)
}

/// The newest entry is in the log as a whole, at its end, unless it alone is
/// over the cap; and the log never grows over the cap.
pub proof fn law_newest_entry_is_kept(old_log: Seq<u8>, entry: Seq<u8>)
    ensures
        logged(old_log, entry).len() <= MAX_LOG_SIZE,
        entry.len() <= MAX_LOG_SIZE ==> {
            let l = logged(old_log, entry);
            l.skip(l.len() - entry.len()) == entry
        },
{
    if entry.len() <= MAX_LOG_SIZE {
        let l = logged(old_log, entry);
        assert(l.skip(l.len() - entry.len()) =~= entry);
    }
}

/// The log on a volume: a missing file is an empty log.
pub open spec fn log_on(v: Volume) -> Option<Seq<u8>> {
    match file_at(v, PANIC_LOG_PATH@) {
        Ok(b) => Some(b),
        Err(FatError::NotFound) => Some(Seq::empty()),
        Err(_) => None,
    }
}

/// The volume with an entry added to its log. A log that cannot be read is
/// left alone.
pub open spec fn appended(v: Volume, entry: Seq<u8>, now: DateTime) -> Volume {
    match log_on(v) {
        Some(old_log) => file_written(v, PANIC_LOG_PATH@, logged(old_log, entry), now).1,
        None => v,
    }
}

/// On a volume that has room for the longer log, what was appended is in the
/// log afterwards, behind what was there before.
pub proof fn law_entry_is_logged(v: Volume, entry: Seq<u8>, now: DateTime)
    requires
        log_on(v) is Some,
        can_write(v, PANIC_LOG_PATH@, logged(log_on(v)->0, entry).len()),
    ensures
        log_on(appended(v, entry, now)) == Some(logged(log_on(v)->0, entry)),
{
    law_file_can_be_written(v, PANIC_LOG_PATH@, logged(log_on(v)->0, entry), now);
}

/// Appends `entry` to the panic log. All errors are swallowed. `writing`
/// guards against recursion: it is set on entry and never cleared, so a
/// second fatal event while writing is dropped.
pub fn append(disk: &mut Mount, writing: &mut bool, entry: &str, now: DateTime)
    requires
        old(disk).wf(),
    ensures
        final(disk).wf(),
        *final(writing),
        final(disk)@ == if *old(writing) {
            old(disk)@
        } else {
            match old(disk)@ {
                Some(v) => Some(appended(v, encode_utf8(entry@), now)),
                None => None,
            }
        },
{
    if *writing {
        return;
    }
    *writing = true;
    let mut log: Vec<u8> = match read_file(disk, PANIC_LOG_PATH) {
        Ok(b) => b,
        Err(FatError::NotFound) => {
            let empty: Vec<u8> = Vec::new();
            assert(empty@ =~= Seq::<u8>::empty());
            empty
        },
        Err(_) => {
            return;
        },
    };
    let ghost before = log@;
    let bytes = entry.as_bytes();
    push_bytes(&mut log, bytes);
    if log.len() > MAX_LOG_SIZE {
        let tail = slice_subrange(log.as_slice(), log.len() - MAX_LOG_SIZE, log.len());
        assert(tail@ =~= logged(before, bytes@));
        match write_file(disk, PANIC_LOG_PATH, tail, now) {
            _ => {},
        }
    } else {
        match write_file(disk, PANIC_LOG_PATH, log.as_slice(), now) {
            _ => {},
        }
    }
}

fn push_bytes(out: &mut Vec<u8>, bytes: &[u8])
    ensures
        final(out)@ == old(out)@ + bytes@,
{
    let mut i: usize = 0;
    assert(out@ =~= old(out)@ + bytes@.take(0));
    while i < bytes.len()
        invariant
            i <= bytes@.len(),
            out@ == old(out)@ + bytes@.take(i as int),
        decreases bytes@.len() - i,
    {
        out.push(bytes[i]);
        i += 1;
        assert(out@ =~= old(out)@ + bytes@.take(i as int));
    }
    assert(bytes@.take(i as int) =~= bytes@);
}

} // verus!
