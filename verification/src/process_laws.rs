//! What holds of a process's memory and signals whatever it does.

use crate::elf::Segment;
use crate::interrupts::InterruptFrame;
use crate::process::{
    enters_handler, has_bit, heap_growth, image_byte, image_end, image_start, inside, is_inside, lowest_bit,
    next_signal, sigframe, signal_delivered, signaled, stack_growth, ExitInfo, Mapping, Process, ProcessState,
    USER_STACK_LOW_LIMIT,
};
use vstd::prelude::*;

verus! {

// ---------------------------------------------------------------------
// Memory
// ---------------------------------------------------------------------

/// A touch between the limit and the floor of the stack asks for whole
/// pages that hold the touched byte and reach up to the floor, backed by
/// memory as far above the stack's base as they are above the limit; any
/// other touch asks for nothing.
pub proof fn law_stack_grows_over_a_touch(p: Process, addr: u64)
    requires
        p.stack_low % 4096 == 0,
        p.stack_phys_base + 0x10_0000 <= u64::MAX,
        p.stack_low <= USER_STACK_LOW_LIMIT + 0x10_0000,
    ensures
        stack_growth(p, addr) is Some <==> USER_STACK_LOW_LIMIT <= addr < p.stack_low,
        stack_growth(p, addr) matches Some(m) ==> {
            &&& m.vaddr % 4096 == 0
            &&& m.vaddr <= addr < m.vaddr + 4096
            &&& m.vaddr >= USER_STACK_LOW_LIMIT
            &&& m.vaddr + m.len == p.stack_low
            &&& m.phys - p.stack_phys_base == m.vaddr - USER_STACK_LOW_LIMIT
        },
{
}

/// The heap grows by whole pages from where it ends, just far enough to hold
/// what was asked for.
pub proof fn law_heap_grows_to_the_break(p: Process, requested: u64)
    requires
        p.heap_mapped % 4096 == 0,
        p.heap_mapped < requested <= u64::MAX - 4095,
    ensures
        ({
            let r = heap_growth(p, requested);
            &&& r.vaddr == p.heap_mapped
            &&& r.len % 4096 == 0
            &&& requested <= r.vaddr + r.len < requested + 4096
            &&& r.writable && !r.executable
        }),
{
}

/// Unmapping takes exactly the mappings that lie in the pages of the range,
/// and keeps the others, in order.
pub proof fn law_unmapping_parts_the_mappings(ms: Seq<Mapping>, addr: u64, len: u64, m: Mapping)
    requires
        addr + len + 8192 <= u64::MAX,
    ensures
        inside(ms, addr, len, true).len() + inside(ms, addr, len, false).len() == ms.len(),
        inside(ms, addr, len, true).contains(m) <==> ms.contains(m) && addr / 4096 * 4096 <= m.vaddr && m.vaddr + m.len
            <= addr / 4096 * 4096 + ((if len == 0 {
            1int
        } else {
            len as int
        }) + 4095) / 4096 * 4096,
        inside(ms, addr, len, false).contains(m) <==> ms.contains(m) && !inside(ms, addr, len, true).contains(m),
    decreases ms.len(),
{
    let (a, b) = (inside(ms, addr, len, true), inside(ms, addr, len, false));
    if ms.len() > 0 {
        let rest = ms.drop_last();
        law_unmapping_parts_the_mappings(rest, addr, len, m);
        let (c, d) = (inside(rest, addr, len, true), inside(rest, addr, len, false));
        let l = ms.last();
        lemma_contains_push(rest, l, m);
        lemma_contains_push(c, l, m);
        lemma_contains_push(d, l, m);
        assert(rest.push(l) =~= ms);
        if is_inside(l, addr, len) {
            assert(a == c.push(l) && b == d);
        } else {
            assert(a == c && b == d.push(l));
        }
    }
}

proof fn lemma_contains_push(s: Seq<Mapping>, l: Mapping, m: Mapping)
    ensures
        s.push(l).contains(m) <==> s.contains(m) || l == m,
{
    if s.contains(m) {
        let i = choose|i: int| 0 <= i < s.len() && s[i] == m;
        assert(s.push(l)[i] == m);
    }
    if l == m {
        assert(s.push(l)[s.len() as int] == m);
    }
}

/// A segment's bytes stand at its address in the image unless a later
/// segment has data there too, and where no segment has data there are
/// zeros.
pub proof fn law_image_holds_the_segments(ss: Seq<Segment>, n: nat, data: Seq<u8>, i: int, a: int)
    requires
        0 <= i < n <= ss.len(),
        forall|j: int| i < j < n ==> !(#[trigger] ss[j].vaddr <= a < ss[j].vaddr + ss[j].filesz),
    ensures
        ss[i].vaddr <= a < ss[i].vaddr + ss[i].filesz ==> image_byte(ss, n, data, a) == data[ss[i].file_offset + a
            - ss[i].vaddr],
        (forall|j: int| 0 <= j <= i ==> !(#[trigger] ss[j].vaddr <= a < ss[j].vaddr + ss[j].filesz)) ==> image_byte(
            ss,
            n,
            data,
            a,
        ) == 0,
    decreases n,
{
    let s = ss[n - 1];
    if n - 1 > i {
        assert(!(ss[n - 1].vaddr <= a < ss[n - 1].vaddr + ss[n - 1].filesz));
        law_image_holds_the_segments(ss, (n - 1) as nat, data, i, a);
    } else if forall|j: int| 0 <= j <= i ==> !(#[trigger] ss[j].vaddr <= a < ss[j].vaddr + ss[j].filesz) {
        assert(!(ss[i].vaddr <= a < ss[i].vaddr + ss[i].filesz));
        if i > 0 {
            law_image_holds_the_segments(ss, (n - 1) as nat, data, i - 1, a);
        } else {
            assert(image_byte(ss, 0, data, a) == 0);
        }
    }
}

/// The image is whole pages around all of the segments.
pub proof fn law_image_covers_the_segments(ss: Seq<Segment>, n: nat, i: int)
    requires
        0 <= i < n <= ss.len(),
    ensures
        image_start(ss, n) <= ss[i].vaddr,
        ss[i].vaddr + ss[i].memsz <= image_end(ss, n),
        image_start(ss, n) % 4096 == 0,
        image_end(ss, n) % 4096 == 0,
        exists|j: int| 0 <= j < n && #[trigger] ss[j].vaddr < image_start(ss, n) + 4096,
        exists|j: int| 0 <= j < n && image_end(ss, n) < #[trigger] ss[j].vaddr + ss[j].memsz + 4096,
    decreases n,
{
    let k = n - 1;
    if n > 1 {
        law_image_covers_the_segments(ss, k as nat, if i < k {
            i
        } else {
            0
        });
        let (s, e) = (image_start(ss, k as nat), image_end(ss, k as nat));
        let j = choose|j: int| 0 <= j < k && #[trigger] ss[j].vaddr < s + 4096;
        let l = choose|l: int| 0 <= l < k && e < #[trigger] ss[l].vaddr + ss[l].memsz + 4096;
        if image_start(ss, n) == s {
            assert(ss[j].vaddr < image_start(ss, n) + 4096);
        } else {
            assert(ss[k].vaddr < image_start(ss, n) + 4096);
        }
        if image_end(ss, n) == e {
            assert(image_end(ss, n) < ss[l].vaddr + ss[l].memsz + 4096);
        } else {
            assert(image_end(ss, n) < ss[k].vaddr + ss[k].memsz + 4096);
        }
    } else {
        reveal_with_fuel(image_start, 2);
        reveal_with_fuel(image_end, 2);
        assert(ss[0].vaddr < image_start(ss, n) + 4096);
        assert(image_end(ss, n) < ss[0].vaddr + ss[0].memsz + 4096);
    }
}

// ---------------------------------------------------------------------
// Signals
// ---------------------------------------------------------------------

proof fn lemma_lowest(w: u64, i: u64, k: u64)
    requires
        i <= 64,
    ensures
        i <= lowest_bit(w, i) <= 64,
        lowest_bit(w, i) < 64 ==> has_bit(w, lowest_bit(w, i)),
        i <= k < lowest_bit(w, i) ==> !has_bit(w, k),
    decreases 64 - i,
{
    if i < 64 && !has_bit(w, i) {
        lemma_lowest(w, (i + 1) as u64, k);
    }
}

/// The signal delivered next is pending and not blocked, and no lower one
/// is.
pub proof fn law_lowest_signal_first(p: Process, k: u64)
    requires
        next_signal(p) < 64,
        k < 64,
    ensures
        has_bit(p.sig_pending, next_signal(p)),
        !has_bit(p.sig_blocked, next_signal(p)),
        k < next_signal(p) ==> !has_bit(p.sig_pending, k) || has_bit(p.sig_blocked, k),
{
    let w = p.sig_pending & !p.sig_blocked;
    lemma_lowest(w, 0, k);
    let s = next_signal(p);
    let (a, b) = (p.sig_pending, p.sig_blocked);
    assert(((a & !b) & (1u64 << s) != 0) == (a & (1u64 << s) != 0 && b & (1u64 << s) == 0)) by (bit_vector)
        requires
            s < 64,
    ;
    assert(((a & !b) & (1u64 << k) != 0) == (a & (1u64 << k) != 0 && b & (1u64 << k) == 0)) by (bit_vector)
        requires
            k < 64,
    ;
}

/// A handler starts at its address with the signal's number as its argument,
/// on the frame pushed below the interrupted stack pointer; while it runs
/// the signal and those of its mask are blocked, and it is no longer
/// pending. The frame's words are the way back, then where the program was,
/// its flags, its stack pointer and what it blocked.
pub proof fn law_handler_is_entered(p: Process, f: InterruptFrame, k: u64)
    requires
        enters_handler(p, f),
        k < 64,
    ensures
        ({
            let sig = next_signal(p);
            let (q, g) = signal_delivered(p, f);
            let w = sigframe(f, p.sig_blocked, sig);
            &&& g.rip == p.sigactions@[sig as int].handler
            &&& g.rdi == sig
            &&& g.rsp + 8 * w.len() == f.rsp
            &&& w[1] == f.rip && w[2] == f.rflags && w[3] == f.rsp && w[4] == p.sig_blocked && w[5] == sig
            &&& g.rax == f.rax && g.rbx == f.rbx && g.rcx == f.rcx && g.rdx == f.rdx && g.rsi == f.rsi && g.rbp == f.rbp
            &&& !has_bit(q.sig_pending, sig)
            &&& k != sig ==> has_bit(q.sig_pending, k) == has_bit(p.sig_pending, k)
            &&& has_bit(q.sig_blocked, k) == (has_bit(p.sig_blocked, k) || k == sig || has_bit(
                p.sigactions@[sig as int].mask,
                k,
            ))
            &&& q.state == p.state
        }),
{
    let sig = next_signal(p);
    let (a, b, m) = (p.sig_pending, p.sig_blocked, p.sigactions@[sig as int].mask);
    assert((a & !(1u64 << sig)) & (1u64 << sig) == 0) by (bit_vector);
    assert(k != sig ==> ((a & !(1u64 << sig)) & (1u64 << k) != 0) == (a & (1u64 << k) != 0)) by (bit_vector)
        requires
            k < 64,
            sig < 64,
    ;
    assert(((b | (1u64 << sig) | m) & (1u64 << k) != 0) == (b & (1u64 << k) != 0 || k == sig || m & (1u64 << k) != 0))
        by (bit_vector)
        requires
            k < 64,
            sig < 64,
    ;
}

/// A signal that is not blocked and has no handler ends the process with
/// that signal, but for child, continue, urgent and window signals, which do
/// nothing; an ignored one does nothing; a blocked or handled one stays
/// pending. Signal 9 always ends it.
pub proof fn law_what_a_signal_does(p: Process, sig: u8, k: u64)
    requires
        sig < 64,
        k < 64,
        p.state == ProcessState::Running,
    ensures
        ({
            let q = signaled(p, sig);
            let handler = p.sigactions@[sig as int].handler;
            let blocked = has_bit(p.sig_blocked, sig as u64);
            let harmless = sig == 17 || sig == 18 || sig == 23 || sig == 28;
            let ends = sig == 9 || !blocked && handler == 0 && !harmless;
            let waits = sig != 9 && (blocked || handler > 1);
            &&& ends ==> q.state == ProcessState::Exited && q.exit_info == Some(ExitInfo::Signaled { sig })
            &&& !ends && !waits ==> q == p
            &&& waits ==> q.state == p.state && has_bit(q.sig_pending, sig as u64) && (k != sig ==> has_bit(
                q.sig_pending,
                k,
            ) == has_bit(p.sig_pending, k))
        }),
{
    let (a, s) = (p.sig_pending, sig as u64);
    assert((a | (1u64 << s)) & (1u64 << s) != 0) by (bit_vector)
        requires
            s < 64,
    ;
    assert(k != s ==> ((a | (1u64 << s)) & (1u64 << k) != 0) == (a & (1u64 << k) != 0)) by (bit_vector)
        requires
            k < 64,
            s < 64,
    ;
}

} // verus!
