//! Interrupt handling: the saved registers, which handler a vector has,
//! and what a fault comes to.

use crate::io::{cut_bytes, sprint};
use crate::process::{grown, handle_fault, stack_growth, Mapping, Process};
use crate::text::{dec, hex, push_dec, push_hex, push_str, string_of};
use vstd::prelude::*;
use vstd::utf8::encode_utf8;

verus! {

#[derive(Clone, Copy, Debug, PartialEq, Eq, Structural)]
pub struct InterruptFrame {
    pub r15: u64,
    pub r14: u64,
    pub r13: u64,
    pub r12: u64,
    pub r11: u64,
    pub r10: u64,
    pub r9: u64,
    pub r8: u64,
    pub rbp: u64,
    pub rdi: u64,
    pub rsi: u64,
    pub rdx: u64,
    pub rcx: u64,
    pub rax: u64,
    pub rbx: u64,
    pub vector: u64,
    pub error_code: u64,
    pub rip: u64,
    pub cs: u64,
    pub rflags: u64,
    pub rsp: u64,
    pub ss: u64,
}

/// The handlers that vectors can have.
#[derive(Clone, Copy, Debug, PartialEq, Eq, Structural)]
pub enum Handler {
    Unhandled,
    DivideError,
    Debug,
    Breakpoint,
    Overflow,
    InvalidOpcode,
    DoubleFault,
    GeneralProtection,
    PageFault,
    Timer,
    Keyboard,
    Mouse,
}

/// Which handler each of the 256 vectors has.
pub struct Handlers {
    table: Vec<Option<Handler>>,
}

impl View for Handlers {
    type V = Seq<Option<Handler>>;

    closed spec fn view(&self) -> Seq<Option<Handler>> {
        self.table@
    }
}

/// The handler that a vector has by default.
pub open spec fn default_handler(vector: int) -> Handler {
    if vector == 0 {
        Handler::DivideError
    } else if vector == 1 {
        Handler::Debug
    } else if vector == 3 {
        Handler::Breakpoint
    } else if vector == 4 {
        Handler::Overflow
    } else if vector == 6 {
        Handler::InvalidOpcode
    } else if vector == 8 {
        Handler::DoubleFault
    } else if vector == 13 {
        Handler::GeneralProtection
    } else if vector == 14 {
        Handler::PageFault
    } else if vector == 32 {
        Handler::Timer
    } else if vector == 33 {
        Handler::Keyboard
    } else if vector == 44 {
        Handler::Mouse
    } else {
        Handler::Unhandled
    }
}

impl Handlers {
    pub open spec fn wf(&self) -> bool {
        self@.len() == 256
    }

    /// A table without handlers.
    pub fn new() -> (r: Self)
        ensures
            r.wf(),
            forall|i: int| 0 <= i < 256 ==> #[trigger] r@[i] is None,
    {
        let mut table: Vec<Option<Handler>> = Vec::new();
        let mut i: usize = 0;
        while i < 256
            invariant
                i <= 256,
                table@.len() == i,
                forall|k: int| 0 <= k < i ==> #[trigger] table@[k] is None,
            decreases 256 - i,
        {
            table.push(None);
            i += 1;
        }
        Handlers { table }
    }
}

pub fn set_handler(handlers: &mut Handlers, vector: u8, handler: Option<Handler>)
    requires
        old(handlers).wf(),
    ensures
        final(handlers).wf(),
        final(handlers)@ == old(handlers)@.update(vector as int, handler),
{
    handlers.table.set(vector as usize, handler);
}

/// The handler for a vector; a vector without one is fatal.
pub fn isr_dispatch(handlers: &Handlers, vector: u8) -> (r: Option<Handler>)
    requires
        handlers.wf(),
    ensures
        r == handlers@[vector as int],
{
    handlers.table[vector as usize]
}

/// Gives every vector its default handler.
pub fn register_default_handlers(handlers: &mut Handlers)
    requires
        old(handlers).wf(),
    ensures
        final(handlers).wf(),
        forall|i: int|
            0 <= i < 256 ==> #[trigger] final(handlers)@[i] == Some(default_handler(i)),
{
    let mut i: usize = 0;
    while i < 256
        invariant
            handlers.wf(),
            i <= 256,
            forall|k: int|
                0 <= k < i ==> #[trigger] handlers@[k] == Some(Handler::Unhandled),
        decreases 256 - i,
    {
        set_handler(handlers, i as u8, Some(Handler::Unhandled));
        i += 1;
    }
    set_handler(handlers, 0, Some(Handler::DivideError));
    set_handler(handlers, 1, Some(Handler::Debug));
    set_handler(handlers, 3, Some(Handler::Breakpoint));
    set_handler(handlers, 4, Some(Handler::Overflow));
    set_handler(handlers, 6, Some(Handler::InvalidOpcode));
    set_handler(handlers, 8, Some(Handler::DoubleFault));
    set_handler(handlers, 13, Some(Handler::GeneralProtection));
    set_handler(handlers, 14, Some(Handler::PageFault));
    set_handler(handlers, 32, Some(Handler::Timer));
    set_handler(handlers, 33, Some(Handler::Keyboard));
    set_handler(handlers, 44, Some(Handler::Mouse));
}

/// Part of the register dump.
pub open spec fn registers_part1(f: InterruptFrame) -> Seq<char> {
    "vector: "@ + dec(f.vector as nat) + "\nRIP: "@ + hex(f.rip as nat) + "  CS: "@ + hex(f.cs as nat) + "  RFLAGS: "@ + hex(f.rflags as nat) + "\nRSP: "@ + hex(f.rsp as nat) + "  SS: "@ + hex(f.ss as nat)
}

/// Part of the register dump.
pub open spec fn registers_part2(f: InterruptFrame) -> Seq<char> {
    "\nRAX: "@ + hex(f.rax as nat) + "  RBX: "@ + hex(f.rbx as nat) + "  RCX: "@ + hex(f.rcx as nat) + "  RDX: "@ + hex(f.rdx as nat) + "\nRSI: "@ + hex(f.rsi as nat) + "  RDI: "@ + hex(f.rdi as nat) + "  RBP: "@ + hex(f.rbp as nat)
}

/// Part of the register dump.
pub open spec fn registers_part3(f: InterruptFrame) -> Seq<char> {
    "\nR8:  "@ + hex(f.r8 as nat) + "  R9:  "@ + hex(f.r9 as nat) + "  R10: "@ + hex(f.r10 as nat) + "  R11: "@ + hex(f.r11 as nat) + "\nR12: "@ + hex(f.r12 as nat) + "  R13: "@ + hex(f.r13 as nat) + "  R14: "@ + hex(f.r14 as nat) + "  R15: "@ + hex(f.r15 as nat)
}

/// The register dump.
pub open spec fn registers_text(f: InterruptFrame) -> Seq<char> {
    registers_part1(f) + registers_part2(f) + registers_part3(f) + "\n"@
}

fn push_registers_part1(out: &mut Vec<char>, f: &InterruptFrame)
    ensures
        final(out)@ == old(out)@ + registers_part1(*f),
{
    push_str(out, "vector: ");
    push_dec(out, f.vector);
    push_str(out, "\nRIP: ");
    push_hex(out, f.rip);
    push_str(out, "  CS: ");
    push_hex(out, f.cs);
    push_str(out, "  RFLAGS: ");
    push_hex(out, f.rflags);
    push_str(out, "\nRSP: ");
    push_hex(out, f.rsp);
    push_str(out, "  SS: ");
    push_hex(out, f.ss);
    assert(out@ =~= old(out)@ + registers_part1(*f));
}

fn push_registers_part2(out: &mut Vec<char>, f: &InterruptFrame)
    ensures
        final(out)@ == old(out)@ + registers_part2(*f),
{
    push_str(out, "\nRAX: ");
    push_hex(out, f.rax);
    push_str(out, "  RBX: ");
    push_hex(out, f.rbx);
    push_str(out, "  RCX: ");
    push_hex(out, f.rcx);
    push_str(out, "  RDX: ");
    push_hex(out, f.rdx);
    push_str(out, "\nRSI: ");
    push_hex(out, f.rsi);
    push_str(out, "  RDI: ");
    push_hex(out, f.rdi);
    push_str(out, "  RBP: ");
    push_hex(out, f.rbp);
    assert(out@ =~= old(out)@ + registers_part2(*f));
}

fn push_registers_part3(out: &mut Vec<char>, f: &InterruptFrame)
    ensures
        final(out)@ == old(out)@ + registers_part3(*f),
{
    push_str(out, "\nR8:  ");
    push_hex(out, f.r8);
    push_str(out, "  R9:  ");
    push_hex(out, f.r9);
    push_str(out, "  R10: ");
    push_hex(out, f.r10);
    push_str(out, "  R11: ");
    push_hex(out, f.r11);
    push_str(out, "\nR12: ");
    push_hex(out, f.r12);
    push_str(out, "  R13: ");
    push_hex(out, f.r13);
    push_str(out, "  R14: ");
    push_hex(out, f.r14);
    push_str(out, "  R15: ");
    push_hex(out, f.r15);
    assert(out@ =~= old(out)@ + registers_part3(*f));
}

fn push_registers(out: &mut Vec<char>, f: &InterruptFrame)
    ensures
        final(out)@ == old(out)@ + registers_text(*f),
{
    push_registers_part1(out, f);
    push_registers_part2(out, f);
    push_registers_part3(out, f);
    push_str(out, "\n");
    assert(out@ =~= old(out)@ + registers_text(*f));
}

/// The register dump as a text.
fn registers(frame: &InterruptFrame) -> (r: String)
    ensures
        r@ == registers_text(*frame),
{
    let mut out: Vec<char> = Vec::new();
    push_registers(&mut out, frame);
    assert(out@ =~= registers_text(*frame));
    string_of(&out)
}

/// The bytes of the register dump that fit its buffer of 512.
pub open spec fn registers_bytes(f: InterruptFrame) -> Seq<u8> {
    cut_bytes(encode_utf8(registers_text(f)), 512)
}

/// Formats the register dump, at most 512 bytes of it.
pub fn format_registers(frame: &InterruptFrame) -> (r: Vec<u8>)
    ensures
        r@ == registers_bytes(*frame),
{
    let text = registers(frame);
    sprint(512, text.as_str())
}

/// Appends bytes to a buffer as far as they fit in `n`.
fn fill(out: &mut Vec<u8>, bytes: &Vec<u8>, n: usize)
    requires
        old(out)@.len() <= n,
    ensures
        final(out)@ == cut_bytes(old(out)@ + bytes@, n as int),
{
    let ghost all = old(out)@ + bytes@;
    let mut i: usize = 0;
    assert(out@ =~= all.take(out@.len() as int));
    while i < bytes.len() && out.len() < n
        invariant
            i <= bytes@.len(),
            all == old(out)@ + bytes@,
            out@.len() == old(out)@.len() + i,
            out@.len() <= n,
            out@ == all.take(out@.len() as int),
        decreases bytes@.len() - i,
    {
        out.push(bytes[i]);
        i += 1;
        assert(out@ =~= all.take(out@.len() as int));
    }
    assert(all.take(all.len() as int) =~= all);
}

proof fn lemma_cut_twice(head: Seq<u8>, tail: Seq<u8>, n: int)
    requires
        0 <= n,
    ensures
        cut_bytes(cut_bytes(head, n) + tail, n) == cut_bytes(head + tail, n),
{
    assert(cut_bytes(cut_bytes(head, n) + tail, n) =~= cut_bytes(head + tail, n));
}

/// The heading of a log entry about a fatal exception.
pub open spec fn entry_heading(name: Seq<char>, ticks: u64) -> Seq<char> {
    "===== EXCEPTION: "@ + name + " @ tick "@ + dec(ticks as nat) + " =====\n"@
}

/// The entry to append to the crash log for a fatal exception: a heading
/// with the tick count, and the register dump; at most 768 bytes.
pub fn persist_exception(name: &str, ticks: u64, frame: &InterruptFrame) -> (r: Vec<u8>)
    ensures
        r@ == cut_bytes(encode_utf8(entry_heading(name@, ticks)) + registers_bytes(*frame), 768),
{
    let mut out: Vec<char> = Vec::new();
    push_str(&mut out, "===== EXCEPTION: ");
    push_str(&mut out, name);
    push_str(&mut out, " @ tick ");
    push_dec(&mut out, ticks);
    push_str(&mut out, " =====\n");
    assert(out@ =~= entry_heading(name@, ticks));
    let text = string_of(&out);
    let mut entry = sprint(768, text.as_str());
    let regs = format_registers(frame);
    fill(&mut entry, &regs, 768);
    proof {
        lemma_cut_twice(encode_utf8(text@), regs@, 768);
    }
    entry
}

/// What a fault of the kernel itself leaves to be shown and logged.
pub struct Crash {
    /// The heading, for the screen and the serial line.
    pub head: Vec<u8>,
    /// The register dump, shown after it.
    pub registers: Vec<u8>,
    /// The entry for the crash log.
    pub entry: Vec<u8>,
}

/// The heading of a fatal exception.
pub open spec fn exception_heading(name: Seq<char>) -> Seq<char> {
    "\n===== EXCEPTION: "@ + name + " =====\n"@
}

/// What is shown and logged of a fatal exception.
pub open spec fn exception_crash(name: Seq<char>, ticks: u64, f: InterruptFrame, c: Crash) -> bool {
    &&& c.head@ == cut_bytes(encode_utf8(exception_heading(name)), 96)
    &&& c.registers@ == registers_bytes(f)
    &&& c.entry@ == cut_bytes(encode_utf8(entry_heading(name, ticks)) + registers_bytes(f), 768)
}

/// A fatal exception: its heading, the register dump and the log entry.
pub fn exception(name: &str, ticks: u64, frame: &InterruptFrame) -> (r: Crash)
    ensures
        exception_crash(name@, ticks, *frame, r),
{
    let mut out: Vec<char> = Vec::new();
    push_str(&mut out, "\n===== EXCEPTION: ");
    push_str(&mut out, name);
    push_str(&mut out, " =====\n");
    assert(out@ =~= exception_heading(name@));
    let text = string_of(&out);
    Crash {
        head: sprint(96, text.as_str()),
        registers: format_registers(frame),
        entry: persist_exception(name, ticks, frame),
    }
}

/// What an interrupt comes to.
pub enum Outcome {
    /// A line to print; the interrupted code goes on.
    Print(Vec<u8>),
    /// The faulting instruction runs again once the range is mapped.
    Grow(Mapping),
    /// Only the process ends, by a page fault.
    KillFault,
    /// Only the process ends, by another exception.
    KillException,
    /// A fault of the kernel itself.
    Fatal(Crash),
    /// A timer tick: signals are delivered and the scheduler runs.
    Tick,
    /// A byte from the keyboard.
    Keyboard,
    /// A byte from the mouse.
    Mouse,
}

/// Divide error, invalid opcode and general protection end just the
/// current process; without one they are a kernel bug.
pub fn process_or_exception(in_process: bool, name: &str, ticks: u64, frame: &InterruptFrame) -> (r:
    Outcome)
    ensures
        if in_process {
            r is KillException
        } else {
            r matches Outcome::Fatal(c) && exception_crash(name@, ticks, *frame, c)
        },
{
    if in_process {
        Outcome::KillException
    } else {
        Outcome::Fatal(exception(name, ticks, frame))
    }
}

/// A flag in words.
pub open spec fn flag(on: bool) -> Seq<char> {
    if on {
        "true"@
    } else {
        "false"@
    }
}

fn push_flag(out: &mut Vec<char>, on: bool)
    ensures
        final(out)@ == old(out)@ + flag(on),
{
    if on {
        push_str(out, "true");
    } else {
        push_str(out, "false");
    }
}

/// A page fault's error code, in hex and in words.
pub open spec fn error_text(err: u64) -> Seq<char> {
    "error code: "@ + hex(err as nat) + " (present="@ + flag(err & 1 != 0) + ", write="@ + flag(
        err & 2 != 0,
    ) + ", user="@ + flag(err & 4 != 0) + ")\n"@
}

fn push_error(out: &mut Vec<char>, err: u64)
    ensures
        final(out)@ == old(out)@ + error_text(err),
{
    push_str(out, "error code: ");
    push_hex(out, err);
    push_str(out, " (present=");
    push_flag(out, err & 1 != 0);
    push_str(out, ", write=");
    push_flag(out, err & 2 != 0);
    push_str(out, ", user=");
    push_flag(out, err & 4 != 0);
    push_str(out, ")\n");
    assert(out@ =~= old(out)@ + error_text(err));
}

/// The heading of a page fault in the kernel.
pub open spec fn page_fault_heading(cr2: u64, err: u64) -> Seq<char> {
    "\n===== EXCEPTION: #PF Page fault =====\nfaulting address (CR2): "@ + hex(cr2 as nat) + "\n"@
        + error_text(err)
}

/// The heading of the log entry about a page fault in the kernel.
pub open spec fn page_fault_entry(ticks: u64, cr2: u64, err: u64) -> Seq<char> {
    "===== EXCEPTION: #PF @ tick "@ + dec(ticks as nat) + " =====\nCR2: "@ + hex(cr2 as nat) + "  "@
        + error_text(err)
}

/// What is shown and logged of a page fault in the kernel.
pub open spec fn page_fault_crash(cr2: u64, ticks: u64, f: InterruptFrame, c: Crash) -> bool {
    &&& c.head@ == cut_bytes(encode_utf8(page_fault_heading(cr2, f.error_code)), 192)
    &&& c.registers@ == registers_bytes(f)
    &&& c.entry@ == cut_bytes(
        encode_utf8(page_fault_entry(ticks, cr2, f.error_code)) + registers_bytes(f),
        768,
    )
}

fn kernel_page_fault(cr2: u64, ticks: u64, frame: &InterruptFrame) -> (r: Crash)
    ensures
        page_fault_crash(cr2, ticks, *frame, r),
{
    let err = frame.error_code;
    let mut out: Vec<char> = Vec::new();
    push_str(&mut out, "\n===== EXCEPTION: #PF Page fault =====\nfaulting address (CR2): ");
    push_hex(&mut out, cr2);
    push_str(&mut out, "\n");
    push_error(&mut out, err);
    assert(out@ =~= page_fault_heading(cr2, err));
    let head_text = string_of(&out);
    let head = sprint(192, head_text.as_str());
    let regs = format_registers(frame);
    let mut out: Vec<char> = Vec::new();
    push_str(&mut out, "===== EXCEPTION: #PF @ tick ");
    push_dec(&mut out, ticks);
    push_str(&mut out, " =====\nCR2: ");
    push_hex(&mut out, cr2);
    push_str(&mut out, "  ");
    push_error(&mut out, err);
    assert(out@ =~= page_fault_entry(ticks, cr2, err));
    let entry_text = string_of(&out);
    let mut entry = sprint(768, entry_text.as_str());
    fill(&mut entry, &regs, 768);
    proof {
        lemma_cut_twice(encode_utf8(entry_text@), regs@, 768);
    }
    Crash { head, registers: regs, entry }
}

/// A page fault while a process runs is either legitimate stack growth or
/// ends just that process; anywhere else it is a fault of the kernel.
pub fn page_fault(
    process: &mut Option<Process>,
    cr2: u64,
    ticks: u64,
    frame: &InterruptFrame,
) -> (r: Outcome)
    requires
        *old(process) matches Some(p) ==> p.wf(),
    ensures
        *final(process) matches Some(p) ==> p.wf(),
        match *old(process) {
            None => {
                &&& *final(process) is None
                &&& r matches Outcome::Fatal(c)
                &&& page_fault_crash(cr2, ticks, *frame, c)
            },
            Some(p) => {
                &&& *final(process) == Some(grown(p, cr2))
                &&& match stack_growth(p, cr2) {
                    Some(m) => r == Outcome::Grow(m),
                    None => r is KillFault,
                }
            },
        },
{
    if let Some(p) = process {
        match handle_fault(p, cr2) {
            Some(m) => Outcome::Grow(m),
            None => Outcome::KillFault,
        }
    } else {
        Outcome::Fatal(kernel_page_fault(cr2, ticks, frame))
    }
}

/// The line about a breakpoint.
pub open spec fn breakpoint_line(rip: u64) -> Seq<char> {
    "[BREAKPOINT] hit at RIP="@ + hex(rip as nat) + "\n"@
}

/// A breakpoint is reported, and the code behind it goes on.
pub fn breakpoint(frame: &InterruptFrame) -> (r: Vec<u8>)
    ensures
        r@ == cut_bytes(encode_utf8(breakpoint_line(frame.rip)), 96),
{
    let mut out: Vec<char> = Vec::new();
    push_str(&mut out, "[BREAKPOINT] hit at RIP=");
    push_hex(&mut out, frame.rip);
    push_str(&mut out, "\n");
    assert(out@ =~= breakpoint_line(frame.rip));
    let text = string_of(&out);
    sprint(96, text.as_str())
}

/// The name of an exception, for those that are always fatal or fatal
/// outside processes.
pub open spec fn exception_name(h: Handler) -> Seq<char> {
    match h {
        Handler::DivideError => "#DE Divide-by-zero"@,
        Handler::Debug => "#DB Debug"@,
        Handler::Overflow => "#OF Overflow"@,
        Handler::InvalidOpcode => "#UD Invalid opcode"@,
        Handler::DoubleFault => "#DF Double fault (IST used)"@,
        Handler::GeneralProtection => "#GP General protection fault"@,
        _ => "unknown interrupt"@,
    }
}

/// Whether an exception is one that a program can raise on its own.
pub open spec fn program_exception(h: Handler) -> bool {
    h is DivideError || h is InvalidOpcode || h is GeneralProtection
}

/// Runs a handler: what the interrupt comes to.
pub fn handle(
    handler: Handler,
    process: &mut Option<Process>,
    cr2: u64,
    ticks: u64,
    frame: &InterruptFrame,
) -> (r: Outcome)
    requires
        *old(process) matches Some(p) ==> p.wf(),
    ensures
        *final(process) matches Some(p) ==> p.wf(),
        handler !is PageFault ==> *final(process) == *old(process),
        match handler {
            Handler::Breakpoint => r matches Outcome::Print(line) && line@ == cut_bytes(
                encode_utf8(breakpoint_line(frame.rip)),
                96,
            ),
            Handler::PageFault => match *old(process) {
                None => {
                    &&& *final(process) is None
                    &&& r matches Outcome::Fatal(c)
                    &&& page_fault_crash(cr2, ticks, *frame, c)
                },
                Some(p) => {
                    &&& *final(process) == Some(grown(p, cr2))
                    &&& match stack_growth(p, cr2) {
                        Some(m) => r == Outcome::Grow(m),
                        None => r is KillFault,
                    }
                },
            },
            Handler::Timer => r is Tick,
            Handler::Keyboard => r is Keyboard,
            Handler::Mouse => r is Mouse,
            _ => if program_exception(handler) && *old(process) is Some {
                r is KillException
            } else {
                r matches Outcome::Fatal(c) && exception_crash(
                    exception_name(handler),
                    ticks,
                    *frame,
                    c,
                )
            },
        },
{
    let in_process = process.is_some();
    match handler {
        Handler::DivideError => process_or_exception(in_process, "#DE Divide-by-zero", ticks, frame),
        Handler::Debug => Outcome::Fatal(exception("#DB Debug", ticks, frame)),
        Handler::Breakpoint => Outcome::Print(breakpoint(frame)),
        Handler::Overflow => Outcome::Fatal(exception("#OF Overflow", ticks, frame)),
        Handler::InvalidOpcode => process_or_exception(
            in_process,
            "#UD Invalid opcode",
            ticks,
            frame,
        ),
        Handler::DoubleFault => Outcome::Fatal(
            exception("#DF Double fault (IST used)", ticks, frame),
        ),
        Handler::GeneralProtection => process_or_exception(
            in_process,
            "#GP General protection fault",
            ticks,
            frame,
        ),
        Handler::PageFault => page_fault(process, cr2, ticks, frame),
        Handler::Timer => Outcome::Tick,
        Handler::Keyboard => Outcome::Keyboard,
        Handler::Mouse => Outcome::Mouse,
        Handler::Unhandled => Outcome::Fatal(exception("unknown interrupt", ticks, frame)),
    }
}

/// The 100 Hz tick counter.
pub struct Clock {
    count: u64,
}

impl View for Clock {
    type V = u64;

    closed spec fn view(&self) -> u64 {
        self.count
    }
}

impl Clock {
    pub fn new() -> (r: Self)
        ensures
            r@ == 0,
    {
        Clock { count: 0 }
    }
}

pub fn ticks(clock: &Clock) -> (r: u64)
    ensures
        r == clock@,
{
    clock.count
}

/// One timer interrupt.
pub fn timer(clock: &mut Clock)
    ensures
        final(clock)@ == if old(clock)@ == u64::MAX {
            0
        } else {
            (old(clock)@ + 1) as u64
        },
{
    clock.count = clock.count.wrapping_add(1);
}

} // verus!
