//! What a Linux program finds in the structures that system calls fill in
//! and in the values they return.

use crate::bytes::{le32_bytes, le64_bytes};
use crate::linux_abi::{
    absolute, answers, breaks, closes, connects, dispatched, failed, file_mode, fstats, futexes, limits, maps,
    open_flags, opens, preads, prctls, protects, randomizes, reads, receives, seek_end, seek_request, seeks, sends,
    sockets, stat_bytes, stats_at, sysinfo_bytes, time_bytes, truncates, uname_bytes, uname_field, unmaps,
    vfs_failed, writes, zeros, Action, Caller, VfsError,
};
use crate::stack_laws::{lemma_same_word, lemma_word_bytes, word_at};
use vstd::prelude::*;

verus! {

// ---------------------------------------------------------------------
// Structures
// ---------------------------------------------------------------------

/// The 32-bit number at byte `at`, low byte first.
pub open spec fn half_at(m: Seq<u8>, at: int) -> int {
    m[at] + m[at + 1] * 0x100 + m[at + 2] * 0x1_0000 + m[at + 3] * 0x100_0000
}

proof fn lemma_word_inside(m: Seq<u8>, at: int, v: u64)
    requires
        0 <= at,
        at + 8 <= m.len(),
        m.subrange(at, at + 8) == le64_bytes(v),
    ensures
        word_at(m, at) == v,
{
    lemma_word_bytes(v);
    let b = le64_bytes(v);
    assert forall|i: int| 0 <= i < 8 implies #[trigger] m[at + i] == b[0 + i] by {
        assert(m.subrange(at, at + 8)[i] == m[at + i]);
    }
    lemma_same_word(m, at, b, 0);
}

proof fn lemma_half_inside(m: Seq<u8>, at: int, v: u32)
    requires
        0 <= at,
        at + 4 <= m.len(),
        m.subrange(at, at + 4) == le32_bytes(v),
    ensures
        half_at(m, at) == v,
{
    crate::bytes::lemma_le32_round_trip(v);
    let s = m.subrange(at, at + 4);
    assert(s[0] == m[at] && s[1] == m[at + 1] && s[2] == m[at + 2] && s[3] == m[at + 3]);
}

/// The status of a file is 144 bytes: one link at 16, the mode at 24, the
/// size at 48, a block size of 4096 at 56 and the number of 512-byte blocks
/// that cover the size at 64.
#[verifier::spinoff_prover]
pub proof fn law_stat_layout(mode: u32, size: u64)
    ensures
        ({
            let s = stat_bytes(mode, size);
            &&& s.len() == 144
            &&& word_at(s, 16) == 1
            &&& half_at(s, 24) == mode
            &&& word_at(s, 48) == size
            &&& word_at(s, 56) == 4096
            &&& size <= 512 * word_at(s, 64) < size + 512
        }),
{
    let s = stat_bytes(mode, size);
    let blocks = ((size + 511) / 512) as u64;
    lemma_word_bytes(1);
    lemma_word_bytes(size);
    lemma_word_bytes(4096);
    lemma_word_bytes(blocks);
    assert(s.subrange(16, 24) =~= le64_bytes(1));
    assert(s.subrange(24, 28) =~= le32_bytes(mode));
    assert(s.subrange(48, 56) =~= le64_bytes(size));
    assert(s.subrange(56, 64) =~= le64_bytes(4096));
    assert(s.subrange(64, 72) =~= le64_bytes(blocks));
    lemma_word_inside(s, 16, 1);
    lemma_half_inside(s, 24, mode);
    lemma_word_inside(s, 48, size);
    lemma_word_inside(s, 56, 4096);
    lemma_word_inside(s, 64, blocks);
}

/// A directory's mode is a directory's that all may read and search and the
/// owner may write, a file's a plain file's that all may read and the owner
/// may write.
pub proof fn law_file_modes()
    ensures
        file_mode(true) == 0o040755,
        file_mode(false) == 0o100644,
{
}

/// The clock is seconds, then nanoseconds below a second, a hundred ticks
/// making a second.
pub proof fn law_time_layout(ticks: u64)
    ensures
        ({
            let s = time_bytes(ticks);
            &&& s.len() == 16
            &&& word_at(s, 8) < 1_000_000_000
            &&& word_at(s, 0) * 1_000_000_000 + word_at(s, 8) == ticks * 10_000_000
        }),
{
    let s = time_bytes(ticks);
    let (a, b) = ((ticks / 100) as u64, (ticks % 100 * 10_000_000) as u64);
    lemma_word_bytes(a);
    lemma_word_bytes(b);
    assert(s.subrange(0, 8) =~= le64_bytes(a));
    assert(s.subrange(8, 16) =~= le64_bytes(b));
    lemma_word_inside(s, 0, a);
    lemma_word_inside(s, 8, b);
}

/// The system's facts are 112 bytes: the seconds since the start at 0, the
/// memory at 32, what of it is free at 40, and a unit of one byte at 104.
#[verifier::spinoff_prover]
pub proof fn law_sysinfo_layout(ticks: u64, total: u64, free: u64)
    ensures
        ({
            let s = sysinfo_bytes(ticks, total, free);
            &&& s.len() == 112
            &&& word_at(s, 0) == ticks / 100
            &&& word_at(s, 32) == total
            &&& word_at(s, 40) == free
            &&& half_at(s, 104) == 1
        }),
{
    let s = sysinfo_bytes(ticks, total, free);
    let up = (ticks / 100) as u64;
    lemma_word_bytes(up);
    lemma_word_bytes(total);
    lemma_word_bytes(free);
    assert(s.subrange(0, 8) =~= le64_bytes(up));
    assert(s.subrange(32, 40) =~= le64_bytes(total));
    assert(s.subrange(40, 48) =~= le64_bytes(free));
    assert(s.subrange(104, 108) =~= le32_bytes(1));
    lemma_word_inside(s, 0, up);
    lemma_word_inside(s, 32, total);
    lemma_word_inside(s, 40, free);
    lemma_half_inside(s, 104, 1);
}

/// The system's name is six fields of 65 bytes, each a text with zeros
/// behind it: Linux, machaos, 6.1.0-machaos, #1 SMP, x86_64 and nothing.
#[verifier::spinoff_prover]
pub proof fn law_uname_layout()
    ensures
        ({
            let s = uname_bytes();
            let names = seq![
                "Linux"@,
                "machaos"@,
                "6.1.0-machaos"@,
                "#1 SMP"@,
                "x86_64"@,
                ""@,
            ];
            &&& s.len() == 390
            &&& forall|f: int, i: int|
                0 <= f < 6 && 0 <= i < 65 ==> #[trigger] s[65 * f + i] == if i < names[f].len() {
                    names[f][i] as u8
                } else {
                    0u8
                }
        }),
{
    let s = uname_bytes();
    reveal_strlit("Linux");
    reveal_strlit("machaos");
    reveal_strlit("6.1.0-machaos");
    reveal_strlit("#1 SMP");
    reveal_strlit("x86_64");
    reveal_strlit("");
    let names = seq!["Linux"@, "machaos"@, "6.1.0-machaos"@, "#1 SMP"@, "x86_64"@, ""@];
    let a = seq![76u8, 105, 110, 117, 120];
    let b = seq![109u8, 97, 99, 104, 97, 111, 115];
    let c = seq![54u8, 46, 49, 46, 48, 45, 109, 97, 99, 104, 97, 111, 115];
    let d = seq![35u8, 49, 32, 83, 77, 80];
    let e = seq![120u8, 56, 54, 95, 54, 52];
    let z = Seq::<u8>::empty();
    assert(s.len() == 390);
    assert forall|f: int, i: int| 0 <= f < 6 && 0 <= i < 65 implies #[trigger] s[65 * f + i] == if i < names[f].len() {
        names[f][i] as u8
    } else {
        0u8
    } by {
        if f == 0 {
            assert(s[i] == uname_field(a)[i]);
        } else if f == 1 {
            assert(s[65 + i] == uname_field(b)[i]);
        } else if f == 2 {
            assert(s[130 + i] == uname_field(c)[i]);
        } else if f == 3 {
            assert(s[195 + i] == uname_field(d)[i]);
        } else if f == 4 {
            assert(s[260 + i] == uname_field(e)[i]);
        } else {
            assert(s[325 + i] == uname_field(z)[i]);
        }
    }
}

// ---------------------------------------------------------------------
// Values
// ---------------------------------------------------------------------

/// An error is returned as its number below zero, and the file system's
/// errors have the numbers 2, 20, 17 and 5.
pub proof fn law_error_values(e: int)
    requires
        0 < e < 4096,
    ensures
        failed(e) + e == 0x1_0000_0000_0000_0000,
        vfs_failed(VfsError::NotFound) == failed(2),
        vfs_failed(VfsError::NotDir) == failed(20),
        vfs_failed(VfsError::IsDir) == failed(20),
        vfs_failed(VfsError::AlreadyExists) == failed(17),
        vfs_failed(VfsError::Other) == failed(5),
{
}

/// A seek with `whence` 0, 1 and 2 counts from the start, from where the
/// cursor is and from the end, and never ends before the start.
pub proof fn law_seek_counts_from(cursor: u64, size: u64, offset: u64, d: int)
    requires
        cursor <= i64::MAX,
        size <= i64::MAX,
        d == if offset < 0x8000_0000_0000_0000 {
            offset as int
        } else {
            offset - 0x1_0000_0000_0000_0000
        },
    ensures
        seek_request(offset, 0) matches Some(from) && (d >= 0 ==> seek_end(cursor, size, from) == offset),
        seek_request(offset, 1) matches Some(from) && (0 <= cursor + d <= i64::MAX ==> seek_end(cursor, size, from)
            == cursor + d) && (cursor + d < 0 ==> seek_end(cursor, size, from) == 0),
        seek_request(offset, 2) matches Some(from) && (0 <= size + d <= i64::MAX ==> seek_end(cursor, size, from) == size
            + d) && (size + d < 0 ==> seek_end(cursor, size, from) == 0),
        forall|w: u64| w > 2 ==> seek_request(offset, w) is None,
{
}

/// Of the flags of an open, the lowest two bits are the way of access, bit
/// 6 asks to make the file, bit 9 to empty it and bit 10 to append.
pub proof fn law_open_flags(access: u64, make: bool, empty: bool, add: bool)
    requires
        access < 3,
    ensures
        ({
            let f = access + (if make {
                64int
            } else {
                0
            }) + (if empty {
                512int
            } else {
                0
            }) + (if add {
                1024int
            } else {
                0
            });
            let o = open_flags(f as u64);
            &&& o.write_only == (access == 1)
            &&& o.read_write == (access == 2)
            &&& o.create == make
            &&& o.truncate == empty
            &&& o.append == add
        }),
{
}

/// The numbers of the calls, and which arguments they take.
pub proof fn law_call_numbers(a: Caller, b: Caller, x: Seq<u64>, r: Action)
    requires
        x.len() == 6,
    ensures
        dispatched(a, b, 0, x, r) == reads(a, b, x[0], x[1], x[2], r),
        dispatched(a, b, 1, x, r) == writes(a, b, x[0], x[1], x[2], r),
        dispatched(a, b, 3, x, r) == closes(a, b, x[0], r),
        dispatched(a, b, 5, x, r) == fstats(a, b, x[0], x[1], r),
        dispatched(a, b, 8, x, r) == seeks(a, b, x[0], x[1], x[2], r),
        dispatched(a, b, 9, x, r) == maps(a, b, x[0], x[1], x[2], x[3], x[4], x[5], r),
        dispatched(a, b, 10, x, r) == protects(a, b, x[0], x[1], x[2], r),
        dispatched(a, b, 11, x, r) == unmaps(a, b, x[0], x[1], r),
        dispatched(a, b, 12, x, r) == breaks(a, b, x[0], r),
        dispatched(a, b, 16, x, r) == answers(a, b, failed(25), r),
        dispatched(a, b, 17, x, r) == preads(a, b, x[0], x[1], x[2], x[3], r),
        dispatched(a, b, 39, x, r) == answers(a, b, a.pid as u64, r),
        dispatched(a, b, 41, x, r) == sockets(a, b, x[0], x[1], r),
        dispatched(a, b, 42, x, r) == connects(a, b, x[0], x[1], x[2], r),
        dispatched(a, b, 46, x, r) == sends(a, b, x[0], x[1], r),
        dispatched(a, b, 47, x, r) == receives(a, b, x[0], x[1], r),
        dispatched(a, b, 77, x, r) == truncates(a, b, x[0], x[1], r),
        dispatched(a, b, 158, x, r) == prctls(a, b, x[0], x[1], r),
        dispatched(a, b, 202, x, r) == futexes(a, b, x[0], x[1], r),
        dispatched(a, b, 257, x, r) == opens(a, b, x[1], x[2], r),
        dispatched(a, b, 262, x, r) == stats_at(a, b, x[0], x[1], x[2], x[3], r),
        dispatched(a, b, 302, x, r) == limits(a, b, x[3], r),
        dispatched(a, b, 318, x, r) == randomizes(a, b, x[0], x[1], r),
{
}

/// A path that does not start at the root is taken from there.
pub proof fn law_paths_start_at_the_root(path: Seq<char>)
    ensures
        absolute(path).len() > 0 && absolute(path)[0] == '/',
        absolute(absolute(path)) == absolute(path),
        absolute(path) == path || absolute(path).skip(1) == path,
{
    if !(path.len() > 0 && path[0] == '/') {
        assert(absolute(path).skip(1) =~= path);
    }
}

} // verus!
