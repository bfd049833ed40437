//! Process management: the per-process state behind the system calls.
//!
//! A process has its own mappings, its own table of open files, its
//! signal dispositions and its exit state. Page tables and physical memory
//! belong to the kernel around it: where one of them has to change, these
//! functions say what to do and take back what came of it.

use crate::bytes::{copy_into, le64_bytes, push_le64};
use crate::elf::Segment;
use crate::interrupts::InterruptFrame;
use crate::io::{cut_bytes, sprint};
use crate::paging::IDENTITY_MAP_END;
use crate::pipe::{
    channel, close_end, closed_end, dup_end, law_end_of_file, read_outcome, Channel, Pipes, Transfer,
};
use crate::text::{dec, hex, push_dec, push_hex, push_str, string_of};
use vstd::prelude::*;
use vstd::slice::slice_subrange;
use vstd::utf8::encode_utf8;

verus! {

/// fd 0/1/2 are reserved for stdin/stdout/stderr; real files start at fd 3.
pub const FIRST_FILE_FD: usize = 3;

pub const PAGE_SIZE: u64 = 4096;

/// Virtual address of the `.result` page every test program writes its
/// result to.
pub const PROC_RESULT_VIRT: u64 = 0x2FF0000;

/// No process segment may start below 2 MiB.
pub const MIN_SEGMENT_VADDR: u64 = 0x20_0000;

/// The top of every process's ring-3 stack.
pub const USER_STACK_TOP: u64 = 0x1000_0000;

/// The lowest address that is mapped for the stack up front.
pub const USER_STACK_BASE: u64 = 0x0FFF_8000;

/// Hard floor of stack growth: 1 MiB in total.
pub const USER_STACK_LOW_LIMIT: u64 = 0x0FF0_0000;

/// One page right above the stack with the system-call stubs.
pub const USER_EXIT_STUB_VIRT: u64 = 0x1000_0000;

/// The arena for `mmap` requests without a fixed address.
pub const MMAP_BASE: u64 = 0x4000_0000;

pub const MMAP_CEILING: u64 = 0xC000_0000;

/// Size of the signal frame pushed on the ring-3 stack at delivery.
pub const SIGFRAME_SIZE: u64 = 168;

/// How much of the frame `rt_sigreturn` reads.
pub const SIGFRAME_REMAINDER: u64 = 160;

/// Where a handler's `ret` lands.
pub const SIGRETURN_TRAMPOLINE: u64 = 0x1000_0010;

/// One mapped chunk of a process's address space: virtual range
/// `[vaddr, vaddr+len)` backed by the physical range starting at `phys`.
#[derive(Clone, Copy, Debug, PartialEq, Eq, Structural)]
pub struct Mapping {
    pub vaddr: u64,
    pub phys: u64,
    pub len: u64,
    /// `Some(shm_id)` for a `MAP_SHARED` mapping, whose frames the process
    /// does not own.
    pub shm_id: Option<usize>,
}

/// One registration of an epoll instance.
#[derive(Clone, Copy, Debug, PartialEq, Eq, Structural)]
pub struct Watch {
    pub fd: usize,
    pub events: u32,
    pub data: u64,
}

/// One open fd's referent.
pub enum FdEntry {
    /// The file layer's handle.
    File(usize),
    /// Shared-memory object id and byte cursor.
    Shm(usize, u64),
    /// `AF_UNIX` socket endpoint id.
    Socket(usize),
    /// `inet` endpoint id.
    Net(usize),
    /// Pipe id; `true` for the read end.
    Pipe(usize, bool),
    /// `eventfd` counter.
    Eventfd(u64),
    /// `timerfd`: deadline and period in ticks.
    Timerfd(u64, u64),
    /// `epoll` instance.
    Epoll(Vec<Watch>),
    /// Pseudo-device: 0 = null, 1 = zero, 2 = urandom.
    Dev(u8),
    /// A `/proc` pseudo-file's content; reads consume it.
    Proc(Vec<u8>),
}

/// Whether two entries stand for the same.
pub open spec fn same_entry(a: FdEntry, b: FdEntry) -> bool {
    match a {
        FdEntry::File(x) => b == FdEntry::File(x),
        FdEntry::Shm(x, y) => b == FdEntry::Shm(x, y),
        FdEntry::Socket(x) => b == FdEntry::Socket(x),
        FdEntry::Net(x) => b == FdEntry::Net(x),
        FdEntry::Pipe(x, y) => b == FdEntry::Pipe(x, y),
        FdEntry::Eventfd(x) => b == FdEntry::Eventfd(x),
        FdEntry::Timerfd(x, y) => b == FdEntry::Timerfd(x, y),
        FdEntry::Dev(x) => b == FdEntry::Dev(x),
        FdEntry::Epoll(v) => b matches FdEntry::Epoll(w) && w@ == v@,
        FdEntry::Proc(v) => b matches FdEntry::Proc(w) && w@ == v@,
    }
}

/// Whether a fork's child gets a copy of the entry: sockets have a single
/// owner.
pub open spec fn copied_by_fork(e: FdEntry) -> bool {
    !(e is Socket) && !(e is Net)
}

/// What a descriptor that goes away leaves to be closed elsewhere.
#[derive(Clone, Copy, Debug, PartialEq, Eq, Structural)]
pub enum Release {
    Nothing,
    File(usize),
    Shm(usize),
    Socket(usize),
    Net(usize),
}

/// What is to be closed for a descriptor.
pub open spec fn release_of(e: FdEntry) -> Release {
    match e {
        FdEntry::File(id) => Release::File(id),
        FdEntry::Shm(id, _) => Release::Shm(id),
        FdEntry::Socket(id) => Release::Socket(id),
        FdEntry::Net(id) => Release::Net(id),
        _ => Release::Nothing,
    }
}

/// The pipes once a descriptor is gone.
pub open spec fn pipes_without(p: Seq<Option<Channel>>, e: FdEntry) -> Seq<Option<Channel>> {
    match e {
        FdEntry::Pipe(id, is_read) => match channel(p, id) {
            None => p,
            Some(c) => p.update(id as int, closed_end(c, is_read)),
        },
        _ => p,
    }
}

/// The pipes once the first `n` descriptors of a table are gone.
pub open spec fn pipes_after(
    p: Seq<Option<Channel>>,
    fds: Seq<Option<FdEntry>>,
    n: nat,
) -> Seq<Option<Channel>>
    decreases n,
{
    if n == 0 {
        p
    } else {
        let rest = pipes_after(p, fds, (n - 1) as nat);
        match fds[n - 1] {
            None => rest,
            Some(e) => pipes_without(rest, e),
        }
    }
}

/// Releases every descriptor of a table: the pipe ends here; what else is
/// to be closed is returned, in order.
pub fn release_fds(fds: &Vec<Option<FdEntry>>, pipes: &mut Pipes) -> (r: Vec<Release>)
    requires
        old(pipes).wf(),
    ensures
        final(pipes).wf(),
        final(pipes)@ == pipes_after(old(pipes)@, fds@, fds@.len()),
        r@.len() == fds@.len(),
        forall|i: int|
            0 <= i < fds@.len() ==> #[trigger] r@[i] == match fds@[i] {
                None => Release::Nothing,
                Some(e) => release_of(e),
            },
{
    let mut out: Vec<Release> = Vec::new();
    let mut i: usize = 0;
    while i < fds.len()
        invariant
            i <= fds@.len(),
            pipes.wf(),
            pipes@ == pipes_after(old(pipes)@, fds@, i as nat),
            out@.len() == i,
            forall|k: int|
                0 <= k < i ==> #[trigger] out@[k] == match fds@[k] {
                    None => Release::Nothing,
                    Some(e) => release_of(e),
                },
        decreases fds@.len() - i,
    {
        let one = match &fds[i] {
            None => Release::Nothing,
            Some(e) => e.release(pipes),
        };
        out.push(one);
        i += 1;
    }
    out
}

/// Once the last write end of a pipe is closed, its reader gets what is
/// still in it, and then sees end of file instead of waiting.
pub proof fn law_closing_the_last_writer(ps: Seq<Option<Channel>>, id: usize, c: Channel, room: nat)
    requires
        channel(ps, id) == Some(c),
        c.writers == 1,
        c.readers > 0,
    ensures
        ({
            let after = channel(pipes_without(ps, FdEntry::Pipe(id, false)), id);
            &&& after == Some(Channel { writers: 0, ..c })
            &&& !(read_outcome(after, id, room) is Wait)
            &&& read_outcome(after, id, room) == Transfer::Closed <==> c.queue.len() == 0
        }),
{
    law_end_of_file(Channel { writers: 0, ..c }, id, room);
}

impl FdEntry {
    /// Gives a descriptor up: a pipe end is closed, anything else that
    /// lives outside the process is named.
    pub fn release(&self, pipes: &mut Pipes) -> (r: Release)
        requires
            old(pipes).wf(),
        ensures
            final(pipes).wf(),
            r == release_of(*self),
            final(pipes)@ == pipes_without(old(pipes)@, *self),
    {
        match self {
            FdEntry::File(id) => Release::File(*id),
            FdEntry::Shm(id, _) => Release::Shm(*id),
            FdEntry::Socket(id) => Release::Socket(*id),
            FdEntry::Net(id) => Release::Net(*id),
            FdEntry::Pipe(id, is_read) => {
                close_end(pipes, *id, *is_read);
                Release::Nothing
            },
            _ => Release::Nothing,
        }
    }

    /// Copy for `fork`. A pipe is shared: one more reference to its end is
    /// counted. The other kinds are copied by value; sockets are not
    /// duplicated. Of a shared-memory object and of a file the caller
    /// counts the new reference.
    pub fn dup(&self, pipes: &mut Pipes) -> (r: Option<FdEntry>)
        requires
            old(pipes).wf(),
            *self matches FdEntry::Pipe(id, _) ==> (channel(old(pipes)@, id) matches Some(c)
                ==> c.readers < usize::MAX && c.writers < usize::MAX),
        ensures
            final(pipes).wf(),
            r is Some <==> copied_by_fork(*self),
            r matches Some(e) ==> same_entry(*self, e),
            match *self {
                FdEntry::Pipe(id, is_read) => match channel(old(pipes)@, id) {
                    None => final(pipes)@ == old(pipes)@,
                    Some(c) => final(pipes)@ == old(pipes)@.update(
                        id as int,
                        Some(
                            if is_read {
                                Channel { readers: c.readers + 1, ..c }
                            } else {
                                Channel { writers: c.writers + 1, ..c }
                            },
                        ),
                    ),
                },
                _ => final(pipes)@ == old(pipes)@,
            },
    {
        match self {
            FdEntry::File(id) => Some(FdEntry::File(*id)),
            FdEntry::Shm(id, cursor) => Some(FdEntry::Shm(*id, *cursor)),
            FdEntry::Pipe(id, is_read) => {
                dup_end(pipes, *id, *is_read);
                Some(FdEntry::Pipe(*id, *is_read))
            },
            FdEntry::Socket(_) => None,
            FdEntry::Net(_) => None,
            FdEntry::Eventfd(v) => Some(FdEntry::Eventfd(*v)),
            FdEntry::Timerfd(d, p) => Some(FdEntry::Timerfd(*d, *p)),
            FdEntry::Epoll(v) => {
                let copy = v.clone();
                assert(copy@ =~= v@);
                Some(FdEntry::Epoll(copy))
            },
            FdEntry::Dev(kind) => Some(FdEntry::Dev(*kind)),
            FdEntry::Proc(content) => {
                let copy = content.clone();
                assert(copy@ =~= content@);
                Some(FdEntry::Proc(copy))
            },
        }
    }
}

/// Why a process stopped running.
#[derive(Clone, Copy, Debug, PartialEq, Eq, Structural)]
pub enum ExitInfo {
    /// `_start` returned.
    Normal,
    /// The process faulted; CR2 at the time.
    PageFault { cr2: u64 },
    /// The process raised some other CPU exception.
    Exception { vector: u8 },
    /// The process was terminated by a signal.
    Signaled { sig: u8 },
}

#[derive(Clone, Copy, Debug, PartialEq, Eq, Structural)]
pub enum ProcessState {
    Running,
    Exited,
}

/// Which system-call table a process uses.
#[derive(Clone, Copy, Debug, PartialEq, Eq, Structural)]
pub enum Abi {
    Native,
    Linux,
}

/// One signal's disposition: the handler's address, 0 for the default
/// action or 1 to ignore it.
#[derive(Clone, Copy, Debug, PartialEq, Eq, Structural)]
pub struct SigAction {
    pub handler: u64,
    pub flags: u64,
    pub mask: u64,
}

impl SigAction {
    /// `SIG_DFL`: take the signal's default action.
    pub fn dfl() -> (r: SigAction)
        ensures
            r == (SigAction { handler: 0, flags: 0, mask: 0 }),
    {
        SigAction { handler: 0, flags: 0, mask: 0 }
    }
}

pub struct Process {
    pub entry: u64,
    /// Initial ring-3 stack pointer.
    pub user_rsp: u64,
    /// The mapped ranges, newest last.
    pub mappings: Vec<Mapping>,
    pub state: ProcessState,
    pub exit_info: Option<ExitInfo>,
    /// Open files; indices below `FIRST_FILE_FD` stay `None`.
    pub fds: Vec<Option<FdEntry>>,
    /// Lowest address currently mapped for the ring-3 stack.
    pub stack_low: u64,
    /// Physical base of the whole stack allocation.
    pub stack_phys_base: u64,
    pub abi: Abi,
    /// Where the heap starts, and the current program break.
    pub heap_start: u64,
    pub heap_end: u64,
    /// One past the last page that is mapped for the heap; pages stay mapped
    /// when the break goes down.
    pub heap_mapped: u64,
    /// Next address handed out for a mapping without a fixed address.
    pub mmap_next: u64,
    /// Close-on-exec flag per fd.
    pub cloexec: Vec<bool>,
    pub parent: Option<usize>,
    /// Per-signal dispositions, indexed by signal number.
    pub sigactions: Vec<SigAction>,
    /// Blocked and pending signals, one bit each.
    pub sig_blocked: u64,
    pub sig_pending: u64,
}

/// A range of addresses that does not wrap around.
pub open spec fn good_mapping(m: Mapping) -> bool {
    m.vaddr + m.len <= u64::MAX && m.phys + m.len <= u64::MAX
}

/// Whether the mapping covers `[vaddr, end)`.
pub open spec fn covers(m: Mapping, vaddr: int, end: int) -> bool {
    m.vaddr <= vaddr && end <= m.vaddr + m.len
}

/// The physical address of `vaddr` by the newest of the first `n` mappings
/// that covers `len` bytes there.
pub open spec fn translated(ms: Seq<Mapping>, n: nat, vaddr: u64, len: u64) -> Option<u64>
    decreases n,
{
    if n == 0 || vaddr + len > u64::MAX {
        None
    } else {
        let m = ms[n - 1];
        if covers(m, vaddr as int, vaddr + len) {
            Some((m.phys + (vaddr - m.vaddr)) as u64)
        } else {
            translated(ms, (n - 1) as nat, vaddr, len)
        }
    }
}

/// A later mapping shadows earlier ones.
pub proof fn law_newest_mapping_wins(ms: Seq<Mapping>, m: Mapping, vaddr: u64, len: u64)
    requires
        vaddr + len <= u64::MAX,
    ensures
        translated(ms.push(m), ms.push(m).len(), vaddr, len) == if covers(
            m,
            vaddr as int,
            vaddr + len,
        ) {
            Some((m.phys + (vaddr - m.vaddr)) as u64)
        } else {
            translated(ms, ms.len(), vaddr, len)
        },
{
    lemma_translated_prefix(ms, m, ms.len(), vaddr, len);
}

proof fn lemma_translated_prefix(ms: Seq<Mapping>, m: Mapping, n: nat, vaddr: u64, len: u64)
    requires
        n <= ms.len(),
    ensures
        translated(ms.push(m), n, vaddr, len) == translated(ms, n, vaddr, len),
    decreases n,
{
    if n > 0 {
        lemma_translated_prefix(ms, m, (n - 1) as nat, vaddr, len);
    }
}

/// Translates `[vaddr, vaddr+len)` to a physical address, only if the whole
/// range is covered by one of the mappings; the newest wins.
pub fn translate(mappings: &Vec<Mapping>, vaddr: u64, len: u64) -> (r: Option<u64>)
    requires
        forall|i: int| 0 <= i < mappings@.len() ==> good_mapping(#[trigger] mappings@[i]),
    ensures
        r == translated(mappings@, mappings@.len(), vaddr, len),
{
    let end = match vaddr.checked_add(len) {
        None => {
            return None;
        },
        Some(e) => e,
    };
    let mut n: usize = mappings.len();
    while n > 0
        invariant
            n <= mappings@.len(),
            end == vaddr + len,
            forall|i: int| 0 <= i < mappings@.len() ==> good_mapping(#[trigger] mappings@[i]),
            translated(mappings@, mappings@.len(), vaddr, len) == translated(
                mappings@,
                n as nat,
                vaddr,
                len,
            ),
        decreases n,
    {
        let m = mappings[n - 1];
        assert(good_mapping(mappings@[n - 1]));
        if m.vaddr <= vaddr && end <= m.vaddr + m.len {
            return Some(m.phys + (vaddr - m.vaddr));
        }
        n -= 1;
    }
    None
}

/// The start of the page that holds `a`.
pub open spec fn page_of(a: u64) -> u64 {
    (a / 4096 * 4096) as u64
}

/// The length in whole pages.
pub open spec fn whole_pages(n: int) -> int {
    (n + 4095) / 4096 * 4096
}

fn align_up(value: u64) -> (r: u64)
    requires
        value + 4095 <= u64::MAX,
    ensures
        r == whole_pages(value as int),
{
    (value + 4095) / 4096 * 4096
}

/// What the page tables have to do.
#[derive(Clone, Copy, Debug, PartialEq, Eq, Structural)]
pub struct MapRequest {
    pub vaddr: u64,
    pub len: u64,
    pub writable: bool,
    pub executable: bool,
    /// `true` for a request with an address of the caller's.
    pub fixed: bool,
}

/// The lowest free fd that a new file may get.
pub open spec fn next_fd(fds: Seq<Option<FdEntry>>) -> int {
    free_fd(padded_fds(fds, 2), 3)
}

/// The fd table with a new file at the lowest free fd.
pub open spec fn with_entry(fds: Seq<Option<FdEntry>>, e: FdEntry) -> Seq<Option<FdEntry>> {
    let whole = padded_fds(fds, 2);
    if next_fd(fds) < whole.len() {
        whole.update(next_fd(fds), Some(e))
    } else {
        whole.push(Some(e))
    }
}

/// Whether the first free slot is at or behind `i`.
pub open spec fn free_fd(fds: Seq<Option<FdEntry>>, i: int) -> int
    decreases fds.len() - i,
{
    if i >= fds.len() {
        fds.len() as int
    } else if fds[i] is None {
        i
    } else {
        free_fd(fds, i + 1)
    }
}

/// The open file behind an fd.
pub open spec fn open_fd(p: Process, fd: usize) -> bool {
    fd < p.fds@.len() && p.fds@[fd as int] is Some
}

/// Whether the close-on-exec flag of an fd is set.
pub open spec fn flagged(p: Process, fd: int) -> bool {
    fd < p.cloexec@.len() && p.cloexec@[fd]
}

/// What stands behind an fd.
pub open spec fn entry_of(p: Process, fd: usize) -> Option<FdEntry> {
    if open_fd(p, fd) {
        p.fds@[fd as int]
    } else {
        None
    }
}

/// What closing an fd gives up; nothing for the standard streams.
pub open spec fn closable(p: Process, fd: usize) -> Option<FdEntry> {
    if fd >= 3 {
        entry_of(p, fd)
    } else {
        None
    }
}

/// The table once an fd is closed.
pub open spec fn without_fd(p: Process, fd: usize) -> Seq<Option<FdEntry>> {
    if closable(p, fd) is Some {
        p.fds@.update(fd as int, None)
    } else {
        p.fds@
    }
}

/// What stands behind the fds with the close-on-exec flag, each at its
/// number.
pub open spec fn flagged_entries(p: Process) -> Seq<Option<FdEntry>> {
    Seq::new(
        p.fds@.len(),
        |i: int|
            if flagged(p, i) {
                p.fds@[i]
            } else {
                None
            },
    )
}

/// What has to be mapped for the stack to grow over an address: every page
/// from the one touched up to the floor so far. Nothing outside the growth
/// region.
pub open spec fn stack_growth(p: Process, addr: u64) -> Option<Mapping> {
    if USER_STACK_LOW_LIMIT <= addr < p.stack_low {
        Some(
            Mapping {
                vaddr: page_of(addr),
                phys: (p.stack_phys_base + (page_of(addr) - USER_STACK_LOW_LIMIT)) as u64,
                len: (p.stack_low - page_of(addr)) as u64,
                shm_id: None,
            },
        )
    } else {
        None
    }
}

/// A process once its stack has grown over an address.
pub open spec fn grown(p: Process, addr: u64) -> Process {
    match stack_growth(p, addr) {
        Some(m) => Process { stack_low: m.vaddr, ..p },
        None => p,
    }
}

/// What has to be mapped for a break beyond the pages of the heap.
pub open spec fn heap_growth(p: Process, requested: u64) -> MapRequest {
    MapRequest {
        vaddr: p.heap_mapped,
        len: (whole_pages(requested as int) - p.heap_mapped) as u64,
        writable: true,
        executable: false,
        fixed: true,
    }
}

/// Everything but the open files is the same.
pub open spec fn same_but_fds(a: Process, b: Process) -> bool {
    &&& same_memory(a, b)
    &&& a.mappings == b.mappings
    &&& a.stack_low == b.stack_low
    &&& a.heap_end == b.heap_end
    &&& a.heap_mapped == b.heap_mapped
    &&& a.mmap_next == b.mmap_next
    &&& same_signals(a, b)
}

/// The parts that no mapping operation changes are the same.
pub open spec fn same_memory(a: Process, b: Process) -> bool {
    &&& a.entry == b.entry
    &&& a.user_rsp == b.user_rsp
    &&& a.stack_phys_base == b.stack_phys_base
    &&& a.abi == b.abi
    &&& a.heap_start == b.heap_start
    &&& a.parent == b.parent
}

pub open spec fn same_signals(a: Process, b: Process) -> bool {
    &&& a.state == b.state
    &&& a.exit_info == b.exit_info
    &&& a.sigactions == b.sigactions
    &&& a.sig_blocked == b.sig_blocked
    &&& a.sig_pending == b.sig_pending
}

/// An fd table padded with closed entries up to and with index `fd`.
pub open spec fn padded_fds(fds: Seq<Option<FdEntry>>, fd: int) -> Seq<Option<FdEntry>> {
    if fd < fds.len() {
        fds
    } else {
        fds + Seq::new((fd + 1 - fds.len()) as nat, |i: int| None::<FdEntry>)
    }
}

pub open spec fn padded_flags(flags: Seq<bool>, fd: int) -> Seq<bool> {
    if fd < flags.len() {
        flags
    } else {
        flags + Seq::new((fd + 1 - flags.len()) as nat, |i: int| false)
    }
}

impl Process {
    /// The stack is inside its region, ranges do not wrap around, and there
    /// is a disposition for every signal.
    pub open spec fn wf(&self) -> bool {
        &&& forall|i: int| 0 <= i < self.mappings@.len() ==> good_mapping(
            #[trigger] self.mappings@[i],
        )
        &&& USER_STACK_LOW_LIMIT <= self.stack_low <= USER_STACK_TOP
        &&& self.stack_low % 4096 == 0
        &&& self.stack_phys_base <= u64::MAX - 0x10_0000
        &&& self.heap_start <= self.heap_end <= self.heap_mapped
        &&& self.heap_start % 4096 == 0
        &&& self.heap_mapped % 4096 == 0
        &&& self.sigactions@.len() == 65
    }

    /// A process about to run `entry`, with nothing open or mapped.
    pub fn new(entry: u64, abi: Abi, heap_start: u64) -> (r: Self)
        requires
            heap_start % 4096 == 0,
        ensures
            r.wf(),
            r.entry == entry,
            r.abi == abi,
            r.state == ProcessState::Running,
            r.exit_info is None,
            r.mappings@.len() == 0,
            r.fds@.len() == 3,
            forall|i: int| 0 <= i < 3 ==> #[trigger] r.fds@[i] is None,
            r.heap_start == heap_start,
            r.heap_end == heap_start,
            r.heap_mapped == heap_start,
            r.mmap_next == MMAP_BASE,
            r.stack_low == USER_STACK_BASE,
            r.stack_phys_base == 0,
            r.user_rsp == 0,
            r.cloexec@.len() == 0,
            r.parent is None,
            r.sig_blocked == 0,
            r.sig_pending == 0,
            forall|i: int|
                0 <= i < 65 ==> #[trigger] r.sigactions@[i] == (SigAction {
                    handler: 0,
                    flags: 0,
                    mask: 0,
                }),
    {
        let mut fds: Vec<Option<FdEntry>> = Vec::new();
        fds.push(None);
        fds.push(None);
        fds.push(None);
        let mut sigactions: Vec<SigAction> = Vec::new();
        let mut i: usize = 0;
        while i < 65
            invariant
                i <= 65,
                sigactions@.len() == i,
                forall|k: int|
                    0 <= k < i ==> #[trigger] sigactions@[k] == (SigAction {
                        handler: 0,
                        flags: 0,
                        mask: 0,
                    }),
            decreases 65 - i,
        {
            sigactions.push(SigAction::dfl());
            i += 1;
        }
        Process {
            entry,
            user_rsp: 0,
            mappings: Vec::new(),
            state: ProcessState::Running,
            exit_info: None,
            fds,
            stack_low: USER_STACK_BASE,
            stack_phys_base: 0,
            abi,
            heap_start,
            heap_end: heap_start,
            heap_mapped: heap_start,
            mmap_next: MMAP_BASE,
            cloexec: Vec::new(),
            parent: None,
            sigactions,
            sig_blocked: 0,
            sig_pending: 0,
        }
    }

    pub fn is_exited(&self) -> (r: bool)
        ensures
            r == (self.state == ProcessState::Exited),
    {
        self.state == ProcessState::Exited
    }

    pub fn state_label(&self) -> (r: &'static str)
        ensures
            r == match self.state {
                ProcessState::Running => "running",
                ProcessState::Exited => "exited",
            },
    {
        match self.state {
            ProcessState::Running => "running",
            ProcessState::Exited => "exited",
        }
    }

    /// Marks the process exited; the first reason stays.
    pub fn mark_exited(&mut self, info: ExitInfo)
        requires
            old(self).wf(),
        ensures
            final(self).wf(),
            *final(self) == exited(*old(self), info),
    {
        if self.state == ProcessState::Running {
            self.state = ProcessState::Exited;
            self.exit_info = Some(info);
        }
    }

    /// Installs `entry` at the lowest free fd (never below
    /// `FIRST_FILE_FD`), returning it.
    pub fn alloc_fd(&mut self, entry: FdEntry) -> (fd: usize)
        requires
            old(self).wf(),
        ensures
            final(self).wf(),
            fd == next_fd(old(self).fds@),
            fd >= 3,
            final(self).fds@ == with_entry(old(self).fds@, entry),
            final(self).cloexec == old(self).cloexec,
            same_but_fds(*old(self), *final(self)),
    {
        while self.fds.len() < FIRST_FILE_FD
            invariant
                self.wf(),
                self.cloexec == old(self).cloexec,
                same_but_fds(*old(self), *self),
                self.fds@.len() >= old(self).fds@.len(),
                self.fds@.len() > old(self).fds@.len() ==> self.fds@.len() <= 3,
                self.fds@ =~= old(self).fds@ + Seq::new(
                    (self.fds@.len() - old(self).fds@.len()) as nat,
                    |i: int| None::<FdEntry>,
                ),
            decreases 3 - self.fds@.len(),
        {
            self.fds.push(None);
        }
        let ghost whole = padded_fds(old(self).fds@, 2);
        assert(self.fds@ =~= whole);
        let mut i: usize = FIRST_FILE_FD;
        while i < self.fds.len()
            invariant
                self.wf(),
                self.cloexec == old(self).cloexec,
                same_but_fds(*old(self), *self),
                self.fds@ == whole,
                whole == padded_fds(old(self).fds@, 2),
                3 <= i <= self.fds@.len(),
                free_fd(self.fds@, 3) == free_fd(self.fds@, i as int),
            decreases self.fds@.len() - i,
        {
            if self.fds[i].is_none() {
                self.fds.set(i, Some(entry));
                return i;
            }
            i += 1;
        }
        self.fds.push(Some(entry));
        self.fds.len() - 1
    }

    /// Immutable fd access.
    pub fn fd(&self, fd: usize) -> (r: Option<&FdEntry>)
        ensures
            r is Some <==> open_fd(*self, fd),
            r matches Some(e) ==> Some(*e) == self.fds@[fd as int],
    {
        if fd < self.fds.len() {
            self.fds[fd].as_ref()
        } else {
            None
        }
    }

    /// Replaces the entry behind an open fd; the one that stood there is
    /// returned.
    pub fn fd_mut(&mut self, fd: usize, entry: FdEntry) -> (r: Option<FdEntry>)
        requires
            old(self).wf(),
        ensures
            final(self).wf(),
            r == entry_of(*old(self), fd),
            final(self).fds@ == if open_fd(*old(self), fd) {
                old(self).fds@.update(fd as int, Some(entry))
            } else {
                old(self).fds@
            },
            final(self).cloexec == old(self).cloexec,
            same_but_fds(*old(self), *final(self)),
    {
        if fd < self.fds.len() && self.fds[fd].is_some() {
            let before = self.fds[fd].take();
            self.fds.set(fd, Some(entry));
            assert(self.fds@ =~= old(self).fds@.update(fd as int, Some(entry)));
            before
        } else {
            None
        }
    }

    /// Close-on-exec flag for `fd` (fcntl F_GETFD/F_SETFD).
    pub fn cloexec(&self, fd: usize) -> (r: bool)
        ensures
            r == flagged(*self, fd as int),
    {
        if fd < self.cloexec.len() {
            self.cloexec[fd]
        } else {
            false
        }
    }

    /// Sets/clears the close-on-exec flag (`fcntl(F_SETFD)`).
    pub fn set_cloexec(&mut self, fd: usize, on: bool) -> (r: bool)
        requires
            old(self).wf(),
        ensures
            final(self).wf(),
            r == open_fd(*old(self), fd),
            final(self).fds == old(self).fds,
            final(self).cloexec@ == if r {
                padded_flags(old(self).cloexec@, fd as int).update(fd as int, on)
            } else {
                old(self).cloexec@
            },
            same_but_fds(*old(self), *final(self)),
    {
        if fd >= self.fds.len() || self.fds[fd].is_none() {
            return false;
        }
        self.pad_flags(fd);
        self.cloexec.set(fd, on);
        true
    }

    fn pad_flags(&mut self, fd: usize)
        requires
            old(self).wf(),
            fd < usize::MAX,
        ensures
            final(self).wf(),
            final(self).fds == old(self).fds,
            final(self).cloexec@ == padded_flags(old(self).cloexec@, fd as int),
            same_but_fds(*old(self), *final(self)),
    {
        while self.cloexec.len() <= fd
            invariant
                self.wf(),
                fd < usize::MAX,
                self.fds == old(self).fds,
                same_but_fds(*old(self), *self),
                self.cloexec@.len() >= old(self).cloexec@.len(),
                self.cloexec@.len() > old(self).cloexec@.len() ==> self.cloexec@.len() <= fd + 1,
                self.cloexec@ =~= old(self).cloexec@ + Seq::new(
                    (self.cloexec@.len() - old(self).cloexec@.len()) as nat,
                    |i: int| false,
                ),
            decreases fd + 1 - self.cloexec@.len(),
        {
            self.cloexec.push(false);
        }
        assert(self.cloexec@ =~= padded_flags(old(self).cloexec@, fd as int));
    }

    /// Closes every fd with the close-on-exec flag (execve). What stood
    /// behind them is returned, each at its number, to be released.
    pub fn close_cloexec_fds(&mut self) -> (r: Vec<Option<FdEntry>>)
        requires
            old(self).wf(),
        ensures
            final(self).wf(),
            r@ == flagged_entries(*old(self)),
            final(self).fds@.len() == old(self).fds@.len(),
            forall|i: int|
                0 <= i < old(self).fds@.len() ==> #[trigger] final(self).fds@[i] == if flagged(
                    *old(self),
                    i,
                ) {
                    None::<FdEntry>
                } else {
                    old(self).fds@[i]
                },
            final(self).cloexec == old(self).cloexec,
            same_but_fds(*old(self), *final(self)),
    {
        let n = self.fds.len();
        let mut out: Vec<Option<FdEntry>> = Vec::new();
        let mut i: usize = 0;
        while i < n
            invariant
                self.wf(),
                i <= n == self.fds@.len(),
                n == old(self).fds@.len(),
                out@ == flagged_entries(*old(self)).take(i as int),
                self.cloexec == old(self).cloexec,
                same_but_fds(*old(self), *self),
                forall|k: int|
                    0 <= k < i ==> #[trigger] self.fds@[k] == if flagged(*old(self), k) {
                        None::<FdEntry>
                    } else {
                        old(self).fds@[k]
                    },
                forall|k: int| i <= k < n ==> #[trigger] self.fds@[k] == old(self).fds@[k],
            decreases n - i,
        {
            let flag = self.cloexec(i);
            assert(flag == flagged(*old(self), i as int));
            if flag {
                out.push(self.fds[i].take());
            } else {
                out.push(None);
            }
            i += 1;
            assert(out@ =~= flagged_entries(*old(self)).take(i as int));
        }
        assert(out@ =~= flagged_entries(*old(self)));
        out
    }

    /// Places `entry` at exactly `fd`; returns `fd` and the previous
    /// occupant, if the caller has not closed it, to be released.
    pub fn set_fd(&mut self, fd: usize, entry: FdEntry) -> (r: (usize, Option<FdEntry>))
        requires
            old(self).wf(),
            fd < usize::MAX,
        ensures
            final(self).wf(),
            r.0 == fd,
            r.1 == entry_of(*old(self), fd),
            final(self).fds@ == padded_fds(old(self).fds@, fd as int).update(
                fd as int,
                Some(entry),
            ),
            final(self).cloexec@ == padded_flags(old(self).cloexec@, fd as int),
            same_but_fds(*old(self), *final(self)),
    {
        while self.fds.len() <= fd
            invariant
                self.wf(),
                fd < usize::MAX,
                self.cloexec == old(self).cloexec,
                same_but_fds(*old(self), *self),
                self.fds@.len() >= old(self).fds@.len(),
                self.fds@.len() > old(self).fds@.len() ==> self.fds@.len() <= fd + 1,
                self.fds@ =~= old(self).fds@ + Seq::new(
                    (self.fds@.len() - old(self).fds@.len()) as nat,
                    |i: int| None::<FdEntry>,
                ),
            decreases fd + 1 - self.fds@.len(),
        {
            self.fds.push(None);
        }
        assert(self.fds@ =~= padded_fds(old(self).fds@, fd as int));
        self.pad_flags(fd);
        let ghost padded = self.fds@;
        let before = self.fds[fd].take();
        self.fds.set(fd, Some(entry));
        assert(self.fds@ =~= padded.update(fd as int, Some(entry)));
        (fd, before)
    }

    /// Takes what stands behind `fd` out of the table, to be released.
    /// `None` for a reserved (<FIRST_FILE_FD) or already-closed fd.
    pub fn take_fd(&mut self, fd: usize) -> (r: Option<FdEntry>)
        requires
            old(self).wf(),
        ensures
            final(self).wf(),
            r == closable(*old(self), fd),
            r is None ==> *final(self) == *old(self),
            final(self).fds@ == without_fd(*old(self), fd),
            final(self).cloexec == old(self).cloexec,
            same_but_fds(*old(self), *final(self)),
    {
        if fd < FIRST_FILE_FD {
            return None;
        }
        if fd < self.fds.len() && self.fds[fd].is_some() {
            let taken = self.fds[fd].take();
            assert(self.fds@ =~= old(self).fds@.update(fd as int, None));
            taken
        } else {
            None
        }
    }

    /// Closes `fd`: its slot is free, a pipe end is closed, and what else
    /// is to be closed (a file's handle then flushes itself) is returned.
    /// `None` for a reserved (<FIRST_FILE_FD) or already-closed fd.
    pub fn close_fd(&mut self, fd: usize, pipes: &mut Pipes) -> (r: Option<Release>)
        requires
            old(self).wf(),
            old(pipes).wf(),
        ensures
            final(self).wf(),
            final(pipes).wf(),
            match closable(*old(self), fd) {
                None => r is None && *final(self) == *old(self) && final(pipes)@ == old(pipes)@,
                Some(e) => r == Some(release_of(e)) && final(pipes)@ == pipes_without(
                    old(pipes)@,
                    e,
                ),
            },
            final(self).fds@ == without_fd(*old(self), fd),
            final(self).cloexec == old(self).cloexec,
            same_but_fds(*old(self), *final(self)),
    {
        match self.take_fd(fd) {
            None => None,
            Some(e) => Some(e.release(pipes)),
        }
    }

    /// Registers the physical block behind the whole growable stack region
    /// as one mapping.
    pub fn init_stack_backing(&mut self, phys: u64)
        requires
            old(self).wf(),
            phys <= u64::MAX - 0x10_0000,
        ensures
            final(self).wf(),
            final(self).stack_phys_base == phys,
            final(self).mappings@ == old(self).mappings@.push(
                Mapping {
                    vaddr: USER_STACK_LOW_LIMIT,
                    phys,
                    len: 0x10_0000,
                    shm_id: None,
                },
            ),
            *final(self) == (Process {
                stack_phys_base: phys,
                mappings: final(self).mappings,
                ..*old(self)
            }),
    {
        self.stack_phys_base = phys;
        self.mappings.push(
            Mapping { vaddr: USER_STACK_LOW_LIMIT, phys, len: 0x10_0000, shm_id: None },
        );
    }

    /// Grows the ring-3 stack down to cover `fault_addr`, if it is inside
    /// the growth region but below the current floor: every page from the
    /// fault's page up to the previous floor is to be mapped. `None` for
    /// anything outside that region.
    pub fn try_grow_stack(&mut self, fault_addr: u64) -> (r: Option<Mapping>)
        requires
            old(self).wf(),
        ensures
            final(self).wf(),
            r == stack_growth(*old(self), fault_addr),
            *final(self) == grown(*old(self), fault_addr),
    {
        if fault_addr >= self.stack_low || fault_addr < USER_STACK_LOW_LIMIT {
            return None;
        }
        let new_low = fault_addr / 4096 * 4096;
        let len = self.stack_low - new_low;
        let phys = self.stack_phys_base + (new_low - USER_STACK_LOW_LIMIT);
        self.stack_low = new_low;
        Some(Mapping { vaddr: new_low, phys, len, shm_id: None })
    }

    /// Linux `brk`, first half: `Err` gives the break to report when
    /// nothing has to be mapped; `Ok` what has to be mapped before
    /// `brk_mapped` is called. A request below the heap's start is a query;
    /// shrinking just moves the boundary down, and the pages above it stay
    /// mapped.
    pub fn brk(&mut self, requested: u64) -> (r: Result<MapRequest, u64>)
        requires
            old(self).wf(),
            requested <= u64::MAX - 4095,
        ensures
            final(self).wf(),
            if requested < old(self).heap_start {
                r == Err::<MapRequest, u64>(old(self).heap_end) && *final(self) == *old(self)
            } else if requested > old(self).heap_mapped {
                r == Ok::<MapRequest, u64>(heap_growth(*old(self), requested)) && *final(self)
                    == *old(self)
            } else {
                r == Err::<MapRequest, u64>(requested) && *final(self) == (Process {
                    heap_end: requested,
                    ..*old(self)
                })
            },
    {
        if requested < self.heap_start {
            return Err(self.heap_end);
        }
        if requested > self.heap_mapped {
            return Ok(
                MapRequest {
                    vaddr: self.heap_mapped,
                    len: align_up(requested) - self.heap_mapped,
                    writable: true,
                    executable: false,
                    fixed: true,
                },
            );
        }
        self.heap_end = requested;
        Err(requested)
    }

    /// Linux `brk`, second half: `phys` is where the request was mapped, or
    /// `None` if that failed, which leaves the break as it was.
    pub fn brk_mapped(&mut self, requested: u64, request: MapRequest, phys: Option<u64>) -> (r: u64)
        requires
            old(self).wf(),
            old(self).heap_mapped < requested <= u64::MAX - 4095,
            request == heap_growth(*old(self), requested),
            phys matches Some(p) ==> p + request.len <= u64::MAX,
        ensures
            final(self).wf(),
            match phys {
                None => r == old(self).heap_end && *final(self) == *old(self),
                Some(p) => {
                    &&& r == requested
                    &&& *final(self) == (Process {
                        heap_end: requested,
                        heap_mapped: whole_pages(requested as int) as u64,
                        mappings: final(self).mappings,
                        ..*old(self)
                    })
                    &&& final(self).mappings@ == old(self).mappings@.push(
                        Mapping {
                            vaddr: request.vaddr,
                            phys: p,
                            len: request.len,
                            shm_id: None,
                        },
                    )
                },
            },
    {
        match phys {
            None => self.heap_end,
            Some(p) => {
                self.mappings.push(
                    Mapping { vaddr: request.vaddr, phys: p, len: request.len, shm_id: None },
                );
                self.heap_end = requested;
                self.heap_mapped = request.vaddr + request.len;
                requested
            },
        }
    }

    fn mmap_request(
        &self,
        at: Option<u64>,
        len: u64,
        writable: bool,
        executable: bool,
    ) -> (r: Option<MapRequest>)
        requires
            len + 4095 <= u64::MAX,
        ensures
            r == mmap_plan(self.mmap_next, at, len, writable, executable),
    {
        let len = align_up(if len == 0 { 1 } else { len });
        let vaddr = match at {
            Some(a) => a / 4096 * 4096,
            None => {
                let a = self.mmap_next;
                match a.checked_add(len) {
                    None => {
                        return None;
                    },
                    Some(end) => {
                        if end > MMAP_CEILING {
                            return None;
                        }
                    },
                }
                a
            },
        };
        Some(MapRequest { vaddr, len, writable, executable, fixed: at.is_some() })
    }

    /// Linux anonymous `mmap`, first half: what has to be mapped to freshly
    /// zeroed frames. `at`, when given, is used as it is, page-aligned down;
    /// otherwise the next free address of the arena is handed out.
    pub fn mmap_anon(&self, at: Option<u64>, len: u64, writable: bool, executable: bool) -> (r:
        Option<MapRequest>)
        requires
            len + 4095 <= u64::MAX,
        ensures
            r == mmap_plan(self.mmap_next, at, len, writable, executable),
    {
        self.mmap_request(at, len, writable, executable)
    }

    /// Linux file-backed `mmap`, first half: what has to be mapped, and the
    /// bytes the frames start with: the content, cut to the mapping and
    /// filled up with zeros.
    pub fn mmap_file(
        &self,
        at: Option<u64>,
        len: u64,
        writable: bool,
        executable: bool,
        content: &[u8],
    ) -> (r: Option<(MapRequest, Vec<u8>)>)
        requires
            len + 4095 <= usize::MAX,
        ensures
            match mmap_plan(self.mmap_next, at, len, writable, executable) {
                None => r is None,
                Some(m) => r matches Some((req, bytes)) && req == m && bytes@.len() == m.len
                    && forall|i: int|
                    0 <= i < m.len ==> #[trigger] bytes@[i] == if i < content@.len() {
                        content@[i]
                    } else {
                        0
                    },
            },
    {
        match self.mmap_request(at, len, writable, executable) {
            None => None,
            Some(req) => {
                let mut bytes: Vec<u8> = Vec::new();
                let n = req.len as usize;
                let mut i: usize = 0;
                while i < n
                    invariant
                        i <= n == req.len,
                        bytes@.len() == i,
                        forall|k: int|
                            0 <= k < i ==> #[trigger] bytes@[k] == if k < content@.len() {
                                content@[k]
                            } else {
                                0
                            },
                    decreases n - i,
                {
                    bytes.push(if i < content.len() { content[i] } else { 0 });
                    i += 1;
                }
                Some((req, bytes))
            },
        }
    }

    /// Linux `MAP_SHARED` mapping of a whole shared-memory object of
    /// `pages` pages, first half.
    pub fn mmap_shared(&self, at: Option<u64>, pages: u64, writable: bool, executable: bool) -> (r:
        Option<MapRequest>)
        requires
            pages <= 0xF_FFFF_FFFF,
        ensures
            r == if pages == 0 {
                None::<MapRequest>
            } else {
                mmap_plan(self.mmap_next, at, (pages * 4096) as u64, writable, executable)
            },
    {
        if pages == 0 {
            return None;
        }
        self.mmap_request(at, pages * 4096, writable, executable)
    }

    /// The second half of the three: records what was mapped at `phys`.
    pub fn mmap_done(&mut self, request: MapRequest, phys: u64, shm_id: Option<usize>) -> (r: u64)
        requires
            old(self).wf(),
            request.vaddr + request.len <= u64::MAX,
            phys + request.len <= u64::MAX,
        ensures
            final(self).wf(),
            r == request.vaddr,
            final(self).mappings@ == old(self).mappings@.push(
                Mapping { vaddr: request.vaddr, phys, len: request.len, shm_id },
            ),
            *final(self) == (Process {
                mappings: final(self).mappings,
                mmap_next: if request.fixed {
                    old(self).mmap_next
                } else {
                    (request.vaddr + request.len) as u64
                },
                ..*old(self)
            }),
    {
        self.mappings.push(Mapping { vaddr: request.vaddr, phys, len: request.len, shm_id });
        if !request.fixed {
            self.mmap_next = request.vaddr + request.len;
        }
        request.vaddr
    }

    /// Linux `munmap`. Only mappings *fully* contained in `[addr, addr+len)`
    /// go; they are returned in order, to be unmapped, and to have their
    /// frames freed unless they are shared.
    pub fn munmap(&mut self, addr: u64, len: u64) -> (r: Vec<Mapping>)
        requires
            old(self).wf(),
            addr + len + 8192 <= u64::MAX,
        ensures
            final(self).wf(),
            r@ == inside(old(self).mappings@, addr, len, true),
            final(self).mappings@ == inside(old(self).mappings@, addr, len, false),
            *final(self) == (Process { mappings: final(self).mappings, ..*old(self) }),
    {
        let whole = align_up(if len == 0 { 1 } else { len });
        let start = addr / 4096 * 4096;
        let end = start + whole;
        let mut gone: Vec<Mapping> = Vec::new();
        let mut kept: Vec<Mapping> = Vec::new();
        let mut i: usize = 0;
        let ghost all = self.mappings@;
        assert(all.take(0) =~= Seq::<Mapping>::empty());
        while i < self.mappings.len()
            invariant
                *self == *old(self),
                self.wf(),
                all == self.mappings@,
                i <= all.len(),
                start == page_of(addr),
                end == start + whole_pages(if len == 0 { 1 } else { len as int }),
                gone@ == inside(all.take(i as int), addr, len, true),
                kept@ == inside(all.take(i as int), addr, len, false),
                forall|k: int| 0 <= k < kept@.len() ==> good_mapping(#[trigger] kept@[k]),
            decreases all.len() - i,
        {
            let m = self.mappings[i];
            assert(all.take(i + 1).drop_last() =~= all.take(i as int));
            assert(all.take(i + 1).last() == m);
            assert(good_mapping(self.mappings@[i as int]));
            if m.vaddr >= start && m.vaddr + m.len <= end {
                gone.push(m);
            } else {
                kept.push(m);
            }
            i += 1;
        }
        assert(all.take(i as int) =~= all);
        self.mappings = kept;
        gone
    }

    /// Linux `mprotect`: the physical address of every page in the range,
    /// to be mapped again with the new permission; `None` if one is not
    /// covered by a mapping of this process.
    pub fn mprotect(&self, addr: u64, len: u64) -> (r: Option<Vec<u64>>)
        requires
            self.wf(),
            addr + len + 8192 <= u64::MAX,
        ensures
            ({
                let n = whole_pages(if len == 0 { 1 } else { len as int }) / 4096;
                let start = page_of(addr);
                &&& r is Some <==> forall|k: int|
                    0 <= k < n ==> #[trigger] page_phys(self.mappings@, start, k) is Some
                &&& r matches Some(v) ==> v@.len() == n && forall|k: int|
                    0 <= k < n ==> Some(#[trigger] v@[k]) == page_phys(self.mappings@, start, k)
            }),
    {
        let whole = align_up(if len == 0 { 1 } else { len });
        let start = addr / 4096 * 4096;
        let n = whole / 4096;
        let mut out: Vec<u64> = Vec::new();
        let mut k: u64 = 0;
        while k < n
            invariant
                self.wf(),
                k <= n,
                n * 4096 == whole,
                start + whole <= u64::MAX,
                start == page_of(addr),
                n == whole_pages(if len == 0 { 1 } else { len as int }) / 4096,
                out@.len() == k,
                forall|j: int|
                    0 <= j < k ==> Some(#[trigger] out@[j]) == page_phys(
                        self.mappings@,
                        start,
                        j,
                    ),
            decreases n - k,
        {
            match translate(&self.mappings, start + k * 4096, PAGE_SIZE) {
                None => {
                    assert(page_phys(self.mappings@, start, k as int) is None);
                    return None;
                },
                Some(p) => {
                    out.push(p);
                },
            }
            k += 1;
        }
        assert forall|j: int| 0 <= j < n implies #[trigger] page_phys(
            self.mappings@,
            start,
            j,
        ) is Some by {
            assert(Some(out@[j]) == page_phys(self.mappings@, start, j));
        }
        Some(out)
    }
}

/// The process after it was marked exited.
pub open spec fn exited(p: Process, info: ExitInfo) -> Process {
    if p.state == ProcessState::Running {
        Process { state: ProcessState::Exited, exit_info: Some(info), ..p }
    } else {
        p
    }
}

/// The first reason for which a process ended is the one that stays.
pub proof fn law_first_exit_reason_stays(p: Process, a: ExitInfo, b: ExitInfo)
    ensures
        exited(exited(p, a), b) == exited(p, a),
{
}

/// What an `mmap` request asks for.
pub open spec fn mmap_plan(
    next: u64,
    at: Option<u64>,
    len: u64,
    writable: bool,
    executable: bool,
) -> Option<MapRequest> {
    let whole = whole_pages(if len == 0 { 1 } else { len as int });
    match at {
        Some(a) => Some(
            MapRequest { vaddr: page_of(a), len: whole as u64, writable, executable, fixed: true },
        ),
        None => if next + whole > MMAP_CEILING {
            None
        } else {
            Some(
                MapRequest { vaddr: next, len: whole as u64, writable, executable, fixed: false },
            )
        },
    }
}

/// Mappings handed out from the arena one after the other do not overlap
/// and stay below its ceiling.
pub proof fn law_arena_mappings_are_disjoint(next: u64, len1: u64, len2: u64, w: bool, x: bool)
    requires
        mmap_plan(next, None, len1, w, x) is Some,
        ({
            let a = mmap_plan(next, None, len1, w, x)->0;
            mmap_plan((a.vaddr + a.len) as u64, None, len2, w, x) is Some
        }),
    ensures
        ({
            let a = mmap_plan(next, None, len1, w, x)->0;
            let b = mmap_plan((a.vaddr + a.len) as u64, None, len2, w, x)->0;
            &&& a.vaddr + a.len <= b.vaddr
            &&& b.vaddr + b.len <= MMAP_CEILING
            &&& a.len >= len1
            &&& a.len % 4096 == 0
        }),
{
}

/// Whether `munmap` of a range takes the mapping.
pub open spec fn is_inside(m: Mapping, addr: u64, len: u64) -> bool {
    let start = page_of(addr);
    m.vaddr >= start && m.vaddr + m.len <= start + whole_pages(if len == 0 { 1 } else { len as int })
}

/// The mappings that lie inside a range, or those that do not.
pub open spec fn inside(ms: Seq<Mapping>, addr: u64, len: u64, want: bool) -> Seq<Mapping>
    decreases ms.len(),
{
    if ms.len() == 0 {
        Seq::empty()
    } else {
        let rest = inside(ms.drop_last(), addr, len, want);
        if is_inside(ms.last(), addr, len) == want {
            rest.push(ms.last())
        } else {
            rest
        }
    }
}

/// The physical address of page `k` from `start` on.
pub open spec fn page_phys(ms: Seq<Mapping>, start: u64, k: int) -> Option<u64> {
    translated(ms, ms.len(), (start + k * 4096) as u64, 4096)
}

/// Called from the #PF handler before it falls back to killing the
/// process: `Some` means the touch was legitimate stack growth, and what
/// has to be mapped before the faulting instruction runs again.
pub fn handle_fault(process: &mut Process, cr2: u64) -> (r: Option<Mapping>)
    requires
        old(process).wf(),
    ensures
        final(process).wf(),
        r == stack_growth(*old(process), cr2),
        *final(process) == grown(*old(process), cr2),
{
    process.try_grow_stack(cr2)
}

/// A system-call pointer: like `translate`, but a range that is not mapped
/// yet makes the stack grow over it first if it lies in the growth region.
/// The address, if there is one, and what has to be mapped before it is
/// used.
pub fn resolve_syscall_ptr(process: &mut Process, vaddr: u64, len: u64) -> (r: (
    Option<u64>,
    Option<Mapping>,
))
    requires
        old(process).wf(),
    ensures
        final(process).wf(),
        ({
            let ms = old(process).mappings@;
            let known = translated(ms, ms.len(), vaddr, len);
            &&& r.0 == known
            &&& if known is Some {
                r.1 is None && *final(process) == *old(process)
            } else {
                &&& r.1 == stack_growth(*old(process), vaddr)
                &&& *final(process) == grown(*old(process), vaddr)
            }
        }),
{
    if let Some(phys) = translate(&process.mappings, vaddr, len) {
        return (Some(phys), None);
    }
    match process.try_grow_stack(vaddr) {
        None => (None, None),
        Some(m) => (translate(&process.mappings, vaddr, len), Some(m)),
    }
}

/// Where the process's result can be read once it has exited.
pub fn read_result(mappings: &Vec<Mapping>) -> (r: Option<u64>)
    requires
        forall|i: int| 0 <= i < mappings@.len() ==> good_mapping(#[trigger] mappings@[i]),
    ensures
        r == translated(mappings@, mappings@.len(), PROC_RESULT_VIRT, 8),
{
    translate(mappings, PROC_RESULT_VIRT, 8)
}

// ---------------------------------------------------------------------
// Loading
// ---------------------------------------------------------------------

/// What is wrong with where a segment wants to be, checked in this order.
pub open spec fn segment_fault(s: Segment, heap_start: u64, heap_end: u64) -> Option<&'static str> {
    let end = s.vaddr + s.memsz;
    let heap_low = if heap_start < 0x10_0000 { 0 } else { heap_start - 0x10_0000 };
    if end > u64::MAX {
        Some("segment range overflow")
    } else if end <= s.vaddr {
        Some("empty segment")
    } else if s.vaddr < MIN_SEGMENT_VADDR {
        Some("segment below 2 MiB")
    } else if s.vaddr < heap_end + 0x10_0000 && end > heap_low {
        Some("segment overlaps kernel heap")
    } else if end > IDENTITY_MAP_END {
        Some("segment beyond identity map (16 GiB)")
    } else if s.vaddr < USER_EXIT_STUB_VIRT + 4096 && end > USER_STACK_LOW_LIMIT {
        Some("segment overlaps the reserved process stack region")
    } else {
        None
    }
}

/// The fault of the first of the segments from `i` on that has one.
pub open spec fn first_fault(ss: Seq<Segment>, i: int, heap_start: u64, heap_end: u64) -> Option<
    &'static str,
>
    decreases ss.len() - i,
{
    if i >= ss.len() {
        None
    } else {
        match segment_fault(ss[i], heap_start, heap_end) {
            Some(e) => Some(e),
            None => first_fault(ss, i + 1, heap_start, heap_end),
        }
    }
}

/// Rejects segments that would land on the kernel, its heap (with a margin
/// of 1 MiB on both sides), the process stack, or beyond the identity map.
pub fn validate_segments(segments: &Vec<Segment>, heap_start: u64, heap_end: u64) -> (r: Result<
    (),
    &'static str,
>)
    requires
        heap_end <= u64::MAX - 0x10_0000,
    ensures
        r == match first_fault(segments@, 0, heap_start, heap_end) {
            Some(e) => Err::<(), &'static str>(e),
            None => Ok(()),
        },
        r is Ok ==> forall|i: int|
            0 <= i < segments@.len() ==> segment_fault(
                #[trigger] segments@[i],
                heap_start,
                heap_end,
            ) is None,
{
    let mut i: usize = 0;
    while i < segments.len()
        invariant
            i <= segments@.len(),
            heap_end <= u64::MAX - 0x10_0000,
            first_fault(segments@, 0, heap_start, heap_end) == first_fault(
                segments@,
                i as int,
                heap_start,
                heap_end,
            ),
            forall|k: int|
                0 <= k < i ==> segment_fault(#[trigger] segments@[k], heap_start, heap_end) is None,
        decreases segments@.len() - i,
    {
        let s = segments[i];
        let start = s.vaddr;
        let end = match start.checked_add(s.memsz) {
            None => {
                return Err("segment range overflow");
            },
            Some(e) => e,
        };
        if end <= start {
            return Err("empty segment");
        }
        if start < MIN_SEGMENT_VADDR {
            return Err("segment below 2 MiB");
        }
        if start < heap_end + 0x10_0000 && end > heap_start.saturating_sub(0x10_0000) {
            return Err("segment overlaps kernel heap");
        }
        if end > IDENTITY_MAP_END {
            return Err("segment beyond identity map (16 GiB)");
        }
        if start < USER_EXIT_STUB_VIRT + PAGE_SIZE && end > USER_STACK_LOW_LIMIT {
            return Err("segment overlaps the reserved process stack region");
        }
        i += 1;
    }
    Ok(())
}

/// A segment that was accepted shares no byte with the kernel's heap, the
/// stack region or the stub page.
pub proof fn law_accepted_segments_are_clear(s: Segment, heap_start: u64, heap_end: u64, a: int)
    requires
        segment_fault(s, heap_start, heap_end) is None,
        s.vaddr <= a < s.vaddr + s.memsz,
        heap_start <= heap_end,
    ensures
        !(heap_start <= a < heap_end),
        !(USER_STACK_LOW_LIMIT <= a < USER_EXIT_STUB_VIRT + 4096),
        MIN_SEGMENT_VADDR <= a < IDENTITY_MAP_END,
{
}

/// A segment that can be laid out in memory.
pub open spec fn fits(s: Segment, file: nat) -> bool {
    &&& s.vaddr + s.memsz <= IDENTITY_MAP_END
    &&& s.filesz <= s.memsz
    &&& s.file_offset + s.filesz <= file
}

/// The lowest page of the first `n` segments.
pub open spec fn image_start(ss: Seq<Segment>, n: nat) -> int
    decreases n,
{
    if n == 0 {
        u64::MAX as int
    } else {
        let rest = image_start(ss, (n - 1) as nat);
        let here = page_of(ss[n - 1].vaddr) as int;
        if here < rest {
            here
        } else {
            rest
        }
    }
}

/// The end of the highest page of the first `n` segments.
pub open spec fn image_end(ss: Seq<Segment>, n: nat) -> int
    decreases n,
{
    if n == 0 {
        0
    } else {
        let rest = image_end(ss, (n - 1) as nat);
        let here = whole_pages(ss[n - 1].vaddr + ss[n - 1].memsz);
        if here > rest {
            here
        } else {
            rest
        }
    }
}

/// The byte that the first `n` segments put at an address: that of the
/// last segment with file data there, else zero.
pub open spec fn image_byte(ss: Seq<Segment>, n: nat, data: Seq<u8>, a: int) -> u8
    decreases n,
{
    if n == 0 {
        0
    } else {
        let s = ss[n - 1];
        if s.vaddr <= a < s.vaddr + s.filesz {
            data[s.file_offset + (a - s.vaddr)]
        } else {
            image_byte(ss, (n - 1) as nat, data, a)
        }
    }
}

/// Whether a writable segment shares a byte with the page at `page`.
pub open spec fn page_writable(ss: Seq<Segment>, page: int) -> bool {
    exists|i: int|
        0 <= i < ss.len() && (#[trigger] ss[i]).writable && ss[i].vaddr < page + 4096 && ss[i].vaddr
            + ss[i].memsz > page
}

/// A program's memory image: where it starts, its bytes, and for each of
/// its pages whether it is writable.
pub struct Image {
    pub start: u64,
    pub bytes: Vec<u8>,
    pub writable: Vec<bool>,
}

impl Image {
    /// An image consists of whole pages of the identity map.
    pub open spec fn wf(&self) -> bool {
        &&& self.start % 4096 == 0
        &&& self.bytes@.len() % 4096 == 0
        &&& self.start + self.bytes@.len() <= IDENTITY_MAP_END
        &&& self.writable@.len() == self.bytes@.len() / 4096
    }
}

proof fn lemma_image_range(ss: Seq<Segment>, n: nat, i: int)
    requires
        n <= ss.len(),
        0 <= i < n,
        forall|k: int| 0 <= k < ss.len() ==> #[trigger] ss[k].vaddr + ss[k].memsz <= IDENTITY_MAP_END,
    ensures
        0 <= image_start(ss, n) <= ss[i].vaddr,
        ss[i].vaddr + ss[i].memsz <= image_end(ss, n) <= IDENTITY_MAP_END,
        image_start(ss, n) % 4096 == 0,
        image_end(ss, n) % 4096 == 0,
    decreases n,
{
    reveal_with_fuel(image_start, 2);
    reveal_with_fuel(image_end, 2);
    if i < n - 1 {
        lemma_image_range(ss, (n - 1) as nat, i);
    } else if n > 1 {
        lemma_image_range(ss, (n - 1) as nat, 0);
    }
    assert(ss[n - 1].vaddr + ss[n - 1].memsz <= IDENTITY_MAP_END);
}

fn find_image_start(segments: &Vec<Segment>) -> (r: u64)
    ensures
        r == image_start(segments@, segments@.len()),
{
    let mut r: u64 = u64::MAX;
    let mut i: usize = 0;
    while i < segments.len()
        invariant
            i <= segments@.len(),
            r == image_start(segments@, i as nat),
        decreases segments@.len() - i,
    {
        let here = segments[i].vaddr / 4096 * 4096;
        if here < r {
            r = here;
        }
        i += 1;
    }
    r
}

fn find_image_end(segments: &Vec<Segment>) -> (r: u64)
    requires
        forall|i: int|
            0 <= i < segments@.len() ==> #[trigger] segments@[i].vaddr + segments@[i].memsz
                <= IDENTITY_MAP_END,
    ensures
        r == image_end(segments@, segments@.len()),
{
    let mut r: u64 = 0;
    let mut i: usize = 0;
    while i < segments.len()
        invariant
            i <= segments@.len(),
            r == image_end(segments@, i as nat),
            forall|k: int|
                0 <= k < segments@.len() ==> #[trigger] segments@[k].vaddr + segments@[k].memsz
                    <= IDENTITY_MAP_END,
        decreases segments@.len() - i,
    {
        assert(segments@[i as int].vaddr + segments@[i as int].memsz <= IDENTITY_MAP_END);
        let here = align_up(segments[i].vaddr + segments[i].memsz);
        if here > r {
            r = here;
        }
        i += 1;
    }
    r
}

fn is_page_writable(segments: &Vec<Segment>, page: u64) -> (r: bool)
    requires
        page <= IDENTITY_MAP_END,
        forall|i: int|
            0 <= i < segments@.len() ==> #[trigger] segments@[i].vaddr + segments@[i].memsz
                <= IDENTITY_MAP_END,
    ensures
        r == page_writable(segments@, page as int),
{
    let mut i: usize = 0;
    while i < segments.len()
        invariant
            i <= segments@.len(),
            page <= IDENTITY_MAP_END,
            forall|k: int|
                0 <= k < segments@.len() ==> #[trigger] segments@[k].vaddr + segments@[k].memsz
                    <= IDENTITY_MAP_END,
            forall|k: int|
                0 <= k < i ==> !((#[trigger] segments@[k]).writable && segments@[k].vaddr < page
                    + 4096 && segments@[k].vaddr + segments@[k].memsz > page),
        decreases segments@.len() - i,
    {
        let s = segments[i];
        assert(segments@[i as int].vaddr + segments@[i as int].memsz <= IDENTITY_MAP_END);
        if s.writable && s.vaddr < page + 4096 && s.vaddr + s.memsz > page {
            return true;
        }
        i += 1;
    }
    false
}

/// Lays the segments out in one block of memory: zeros, then each
/// segment's file data in order. `limit` bounds the block's size.
pub fn load_segments(segments: &Vec<Segment>, data: &[u8], limit: u64) -> (r: Result<
    Image,
    &'static str,
>)
    requires
        segments@.len() > 0,
        limit <= usize::MAX,
        forall|i: int| 0 <= i < segments@.len() ==> fits(#[trigger] segments@[i], data@.len()),
    ensures
        ({
            let ss = segments@;
            let start = image_start(ss, ss.len());
            let len = image_end(ss, ss.len()) - start;
            &&& r is Ok <==> len <= limit
            &&& r is Err ==> r->Err_0 == "out of memory"
            &&& r matches Ok(image) ==> {
                &&& image.wf()
                &&& image.start == start
                &&& image.bytes@.len() == len
                &&& forall|k: int|
                    0 <= k < len ==> #[trigger] image.bytes@[k] == image_byte(
                        ss,
                        ss.len(),
                        data@,
                        start + k,
                    )
                &&& image.writable@.len() == len / 4096
                &&& forall|k: int|
                    0 <= k < len / 4096 ==> #[trigger] image.writable@[k] == page_writable(
                        ss,
                        start + k * 4096,
                    )
            }
        }),
{
    let ghost ss = segments@;
    proof {
        assert forall|k: int| 0 <= k < ss.len() implies #[trigger] ss[k].vaddr + ss[k].memsz
            <= IDENTITY_MAP_END by {
            assert(fits(ss[k], data@.len()));
        }
        lemma_image_range(ss, ss.len(), 0);
    }
    let start = find_image_start(segments);
    let end = find_image_end(segments);
    assert(start <= end);
    let len = end - start;
    if len > limit {
        return Err("out of memory");
    }
    let n = len as usize;
    let mut bytes: Vec<u8> = Vec::new();
    bytes.resize(n, 0);
    let mut i: usize = 0;
    while i < segments.len()
        invariant
            i <= segments@.len(),
            ss == segments@,
            n == len,
            bytes@.len() == n,
            start == image_start(ss, ss.len()),
            start + len == image_end(ss, ss.len()),
            forall|k: int| 0 <= k < ss.len() ==> fits(#[trigger] ss[k], data@.len()),
            forall|k: int| 0 <= k < ss.len() ==> #[trigger] ss[k].vaddr + ss[k].memsz
                <= IDENTITY_MAP_END,
            forall|k: int|
                0 <= k < n ==> #[trigger] bytes@[k] == image_byte(
                    ss,
                    i as nat,
                    data@,
                    start + k,
                ),
        decreases segments@.len() - i,
    {
        let s = segments[i];
        proof {
            lemma_image_range(ss, ss.len(), i as int);
            assert(fits(ss[i as int], data@.len()));
            assert(data@.len() == data.len());
        }
        let ghost before = bytes@;
        let at = (s.vaddr - start) as usize;
        let from = s.file_offset as usize;
        let part = slice_subrange(data, from, from + s.filesz as usize);
        copy_into(&mut bytes, at, part);
        assert forall|k: int| 0 <= k < n implies #[trigger] bytes@[k] == image_byte(
            ss,
            (i + 1) as nat,
            data@,
            start + k,
        ) by {
            assert(before[k] == image_byte(ss, i as nat, data@, start + k));
        }
        i += 1;
    }
    let mut writable: Vec<bool> = Vec::new();
    let pages = len / 4096;
    let mut k: u64 = 0;
    while k < pages
        invariant
            k <= pages,
            pages == len / 4096,
            start + len <= IDENTITY_MAP_END,
            ss == segments@,
            forall|k: int| 0 <= k < ss.len() ==> #[trigger] ss[k].vaddr + ss[k].memsz
                <= IDENTITY_MAP_END,
            writable@.len() == k,
            forall|j: int|
                0 <= j < k ==> #[trigger] writable@[j] == page_writable(ss, start + j * 4096),
        decreases pages - k,
    {
        writable.push(is_page_writable(segments, start + k * 4096));
        k += 1;
    }
    Ok(Image { start, bytes, writable })
}

/// Where the heap of a program starts: one page behind its highest
/// segment.
pub fn heap_start_for(segments: &Vec<Segment>) -> (r: u64)
    requires
        segments@.len() > 0,
        forall|i: int|
            0 <= i < segments@.len() ==> #[trigger] segments@[i].vaddr + segments@[i].memsz
                <= IDENTITY_MAP_END,
    ensures
        r == image_end(segments@, segments@.len()) + 4096,
        r % 4096 == 0,
        r <= IDENTITY_MAP_END + 4096,
{
    proof {
        lemma_image_range(segments@, segments@.len(), 0);
    }
    find_image_end(segments) + 4096
}

// ---------------------------------------------------------------------
// The initial stack
// ---------------------------------------------------------------------

pub const AT_NULL: u64 = 0;

pub const AT_PHDR: u64 = 3;

pub const AT_PHENT: u64 = 4;

pub const AT_PHNUM: u64 = 5;

pub const AT_PAGESZ: u64 = 6;

pub const AT_BASE: u64 = 7;

pub const AT_FLAGS: u64 = 8;

pub const AT_ENTRY: u64 = 9;

pub const AT_UID: u64 = 11;

pub const AT_EUID: u64 = 12;

pub const AT_GID: u64 = 13;

pub const AT_EGID: u64 = 14;

pub const AT_HWCAP: u64 = 16;

pub const AT_CLKTCK: u64 = 17;

pub const AT_SECURE: u64 = 23;

pub const AT_RANDOM: u64 = 25;

pub const AT_HWCAP2: u64 = 26;

pub const AT_EXECFN: u64 = 31;

/// What the auxiliary vector says of the program.
#[derive(Clone, Copy, Debug, PartialEq, Eq, Structural)]
pub struct ProgramFacts {
    pub entry: u64,
    pub phoff: u64,
    pub phentsize: u16,
    pub phnum: u16,
    /// Where the interpreter was loaded, or 0.
    pub at_base: u64,
    /// The timer tick the random bytes are derived from.
    pub ticks: u64,
}

/// The strings as byte sequences.
pub open spec fn texts(v: Seq<Vec<u8>>) -> Seq<Seq<u8>> {
    Seq::new(v.len(), |i: int| v[i]@)
}

/// The strings one behind the other, each with its terminating zero.
pub open spec fn cstrings(v: Seq<Seq<u8>>) -> Seq<u8>
    decreases v.len(),
{
    if v.len() == 0 {
        Seq::empty()
    } else {
        cstrings(v.drop_last()) + v.last().push(0u8)
    }
}

/// Where string `i` starts among the strings.
pub open spec fn text_offset(v: Seq<Seq<u8>>, i: int) -> int {
    cstrings(v.take(i)).len() as int
}

/// The length of the program header table.
pub open spec fn phdr_len(f: ProgramFacts) -> int {
    f.phentsize * f.phnum
}

/// Whether the segment's file data covers the program header table.
pub open spec fn holds_phdrs(s: Segment, f: ProgramFacts) -> bool {
    s.file_offset <= f.phoff && f.phoff + phdr_len(f) <= s.file_offset + s.filesz
}

/// Where the first of the segments from `i` on that covers the program
/// header table has it in memory.
pub open spec fn phdrs_mapped(ss: Seq<Segment>, f: ProgramFacts, i: int) -> Option<u64>
    decreases ss.len() - i,
{
    if i >= ss.len() {
        None
    } else if holds_phdrs(ss[i], f) {
        Some((ss[i].vaddr + (f.phoff - ss[i].file_offset)) as u64)
    } else {
        phdrs_mapped(ss, f, i + 1)
    }
}

/// Byte `i` of the sixteen that fill the ABI's random slot.
pub open spec fn random_byte(f: ProgramFacts, i: u64) -> u8 {
    ((f.ticks ^ f.entry).wrapping_mul(0x9E37_79B9_7F4A_7C15).wrapping_add(i) / 0x2_0000_0000
        % 0x100) as u8
}

pub open spec fn random_bytes(f: ProgramFacts) -> Seq<u8> {
    Seq::new(16, |i: int| random_byte(f, i as u64))
}

/// The data above the pointer table: the strings, the program headers if
/// no segment has them, and the random bytes.
pub open spec fn stack_data(
    f: ProgramFacts,
    mapped: Option<u64>,
    argv: Seq<Seq<u8>>,
    envp: Seq<Seq<u8>>,
    elf: Seq<u8>,
) -> Seq<u8> {
    cstrings(argv) + cstrings(envp) + (if mapped is Some {
        Seq::empty()
    } else {
        elf.subrange(f.phoff as int, f.phoff + phdr_len(f))
    }) + random_bytes(f)
}

/// The pointers to the first `n` strings, which start at `base`.
pub open spec fn pointers(v: Seq<Seq<u8>>, n: nat, base: int) -> Seq<u64> {
    Seq::new(n, |i: int| (base + text_offset(v, i)) as u64)
}

/// The auxiliary vector, for data that starts at `base`.
pub open spec fn auxv(
    f: ProgramFacts,
    mapped: Option<u64>,
    argv: Seq<Seq<u8>>,
    envp: Seq<Seq<u8>>,
    base: int,
) -> Seq<u64> {
    let strings = cstrings(argv).len() + cstrings(envp).len();
    let phdr = match mapped {
        Some(a) => a as int,
        None => base + strings,
    };
    let random = base + strings + if mapped is Some { 0 } else { phdr_len(f) };
    flat(auxv_pairs(f, phdr as u64, random as u64, argv.len() > 0, base as u64))
}

/// The entries of the auxiliary vector.
pub open spec fn auxv_pairs(
    f: ProgramFacts,
    phdr: u64,
    random: u64,
    has_args: bool,
    base: u64,
) -> Seq<(u64, u64)> {
    seq![
        (AT_PHENT, f.phentsize as u64),
        (AT_PHNUM, f.phnum as u64),
        (AT_PAGESZ, 4096u64),
        (AT_BASE, f.at_base),
        (AT_FLAGS, 0u64),
        (AT_ENTRY, f.entry),
        (AT_UID, 0u64),
        (AT_EUID, 0u64),
        (AT_GID, 0u64),
        (AT_EGID, 0u64),
        (AT_HWCAP, 0u64),
        (AT_HWCAP2, 0u64),
        (AT_CLKTCK, 100u64),
        (AT_SECURE, 0u64),
        (AT_PHDR, phdr),
        (AT_RANDOM, random),
    ] + (if has_args { seq![(AT_EXECFN, base)] } else { Seq::empty() }) + seq![(AT_NULL, 0u64)]
}

/// Pairs as one run of words.
pub open spec fn flat(p: Seq<(u64, u64)>) -> Seq<u64>
    decreases p.len(),
{
    if p.len() == 0 {
        Seq::empty()
    } else {
        flat(p.drop_last()) + seq![p.last().0, p.last().1]
    }
}

/// The table that starts at the stack pointer: argc, the argument
/// pointers, the environment pointers, each list ending in a null, then the
/// auxiliary vector.
pub open spec fn stack_words(
    f: ProgramFacts,
    mapped: Option<u64>,
    argv: Seq<Seq<u8>>,
    envp: Seq<Seq<u8>>,
    base: int,
) -> Seq<u64> {
    seq![argv.len() as u64] + pointers(argv, argv.len(), base) + seq![0u64] + pointers(
        envp,
        envp.len(),
        base + cstrings(argv).len(),
    ) + seq![0u64] + auxv(f, mapped, argv, envp, base)
}

/// The words as bytes.
pub open spec fn words_bytes(w: Seq<u64>) -> Seq<u8>
    decreases w.len(),
{
    if w.len() == 0 {
        Seq::empty()
    } else {
        words_bytes(w.drop_last()) + le64_bytes(w.last())
    }
}

/// How long the table is.
pub open spec fn table_len(argv: nat, envp: nat) -> int {
    8 * (argv + envp + 3 + 32 + (if argv > 0 { 2int } else { 0 }) + 2)
}

pub(crate) proof fn lemma_words_len(w: Seq<u64>)
    ensures
        words_bytes(w).len() == 8 * w.len(),
    decreases w.len(),
{
    if w.len() > 0 {
        lemma_words_len(w.drop_last());
    }
}

pub(crate) proof fn lemma_flat_len(p: Seq<(u64, u64)>)
    ensures
        flat(p).len() == 2 * p.len(),
    decreases p.len(),
{
    if p.len() > 0 {
        lemma_flat_len(p.drop_last());
    }
}

/// The table is as long as its words.
pub(crate) proof fn lemma_table_len(
    f: ProgramFacts,
    mapped: Option<u64>,
    argv: Seq<Seq<u8>>,
    envp: Seq<Seq<u8>>,
    base: int,
)
    ensures
        words_bytes(stack_words(f, mapped, argv, envp, base)).len() == table_len(
            argv.len(),
            envp.len(),
        ),
{
    let strings = cstrings(argv).len() + cstrings(envp).len();
    let phdr = match mapped {
        Some(a) => a as int,
        None => base + strings,
    };
    let random = base + strings + if mapped is Some { 0 } else { phdr_len(f) };
    lemma_flat_len(auxv_pairs(f, phdr as u64, random as u64, argv.len() > 0, base as u64));
    lemma_words_len(stack_words(f, mapped, argv, envp, base));
}

/// Where the stack pointer goes for a table and data of these lengths.
pub open spec fn stack_pointer(table: int, data: int) -> int {
    (USER_STACK_TOP - (table + data)) / 16 * 16
}

/// An initial stack: where the table and the data behind it go.
pub struct StackImage {
    pub rsp: u64,
    pub table: Vec<u8>,
    pub data: Vec<u8>,
    /// The lowest page that has to be mapped for it.
    pub region_start: u64,
}

pub(crate) proof fn lemma_cstrings_prefix(v: Seq<Seq<u8>>, i: int)
    requires
        0 <= i < v.len(),
    ensures
        cstrings(v.take(i + 1)) == cstrings(v.take(i)) + v[i].push(0u8),
{
    assert(v.take(i + 1).drop_last() =~= v.take(i));
}

fn push_strings(data: &mut Vec<u8>, v: &Vec<Vec<u8>>) -> (offsets: Vec<u64>)
    ensures
        final(data)@ == old(data)@ + cstrings(texts(v@)),
        offsets@.len() == v@.len(),
        forall|i: int|
            0 <= i < v@.len() ==> #[trigger] offsets@[i] == old(data)@.len() + text_offset(
                texts(v@),
                i,
            ),
{
    let ghost t = texts(v@);
    let ghost start = data@;
    let mut offsets: Vec<u64> = Vec::new();
    let mut i: usize = 0;
    assert(t.take(0) =~= Seq::<Seq<u8>>::empty());
    assert(data@ =~= start + cstrings(t.take(0)));
    while i < v.len()
        invariant
            i <= v@.len(),
            t == texts(v@),
            data@ == start + cstrings(t.take(i as int)),
            offsets@.len() == i,
            forall|k: int|
                0 <= k < i ==> #[trigger] offsets@[k] == start.len() + text_offset(t, k),
        decreases v@.len() - i,
    {
        proof {
            lemma_cstrings_prefix(t, i as int);
        }
        assert(data@.len() == data.len());
        offsets.push(data.len() as u64);
        data.extend_from_slice(v[i].as_slice());
        data.push(0);
        assert(data@ =~= start + (cstrings(t.take(i as int)) + t[i as int].push(0u8)));
        i += 1;
    }
    assert(t.take(i as int) =~= t);
    offsets
}

fn push_word(out: &mut Vec<u8>, w: u64, Ghost(words): Ghost<Seq<u64>>) -> (after: Ghost<Seq<u64>>)
    requires
        old(out)@ == words_bytes(words),
    ensures
        after@ == words.push(w),
        final(out)@ == words_bytes(words.push(w)),
{
    push_le64(out, w);
    assert(words.push(w).drop_last() =~= words);
    Ghost(words.push(w))
}

fn find_phdrs(segments: &Vec<Segment>, f: ProgramFacts, len: u64) -> (r: Option<u64>)
    requires
        len == phdr_len(f),
        f.phoff + phdr_len(f) <= u64::MAX,
        forall|i: int|
            0 <= i < segments@.len() ==> #[trigger] segments@[i].file_offset + segments@[i].filesz
                <= u64::MAX && segments@[i].vaddr + segments@[i].filesz <= u64::MAX,
    ensures
        r == phdrs_mapped(segments@, f, 0),
{
    let mut i: usize = 0;
    while i < segments.len()
        invariant
            i <= segments@.len(),
            len == phdr_len(f),
            f.phoff + phdr_len(f) <= u64::MAX,
            forall|i: int|
                0 <= i < segments@.len() ==> #[trigger] segments@[i].file_offset
                    + segments@[i].filesz <= u64::MAX && segments@[i].vaddr + segments@[i].filesz
                    <= u64::MAX,
            phdrs_mapped(segments@, f, 0) == phdrs_mapped(segments@, f, i as int),
        decreases segments@.len() - i,
    {
        let s = segments[i];
        assert(segments@[i as int].file_offset + segments@[i as int].filesz <= u64::MAX);
        if s.file_offset <= f.phoff && f.phoff + len <= s.file_offset + s.filesz {
            return Some(s.vaddr + (f.phoff - s.file_offset));
        }
        i += 1;
    }
    None
}

/// What the layout of the initial stack fails with, if it does.
pub open spec fn stack_fault(
    f: ProgramFacts,
    mapped: Option<u64>,
    argv: Seq<Seq<u8>>,
    envp: Seq<Seq<u8>>,
    elf: Seq<u8>,
) -> Option<&'static str> {
    let data = stack_data(f, mapped, argv, envp, elf).len() as int;
    let table = table_len(argv.len(), envp.len());
    if mapped is None && f.phoff + phdr_len(f) > elf.len() {
        Some("program header table outside file")
    } else if table + data > USER_STACK_TOP || page_of(stack_pointer(table, data) as u64)
        < USER_STACK_LOW_LIMIT {
        Some("linux stack layout too large")
    } else {
        None
    }
}

fn build_stack_data(
    segments: &Vec<Segment>,
    f: ProgramFacts,
    mapped: Option<u64>,
    elf: &[u8],
    argv: &Vec<Vec<u8>>,
    envp: &Vec<Vec<u8>>,
) -> (r: (Vec<u8>, Vec<u64>, Vec<u64>))
    requires
        mapped is None ==> f.phoff + phdr_len(f) <= elf@.len(),
    ensures
        r.0@ == stack_data(f, mapped, texts(argv@), texts(envp@), elf@),
        r.1@.len() == argv@.len(),
        r.2@.len() == envp@.len(),
        forall|i: int|
            0 <= i < argv@.len() ==> #[trigger] r.1@[i] == text_offset(texts(argv@), i),
        forall|i: int|
            0 <= i < envp@.len() ==> #[trigger] r.2@[i] == cstrings(texts(argv@)).len()
                + text_offset(texts(envp@), i),
{
    let mut data: Vec<u8> = Vec::new();
    let argv_offsets = push_strings(&mut data, argv);
    assert(data@ =~= cstrings(texts(argv@)));
    let envp_offsets = push_strings(&mut data, envp);
    if mapped.is_none() {
        assert(elf@.len() == elf.len());
        assert(f.phentsize * f.phnum <= 0xFFFF * 0xFFFF) by (nonlinear_arith)
            requires
                0 <= f.phentsize <= 0xFFFF,
                0 <= f.phnum <= 0xFFFF,
        ;
        let from = f.phoff as usize;
        let len = (f.phentsize as u64 * f.phnum as u64) as usize;
        data.extend_from_slice(slice_subrange(elf, from, from + len));
    }
    let ghost before = data@;
    let seed = f.ticks ^ f.entry;
    let mut i: u64 = 0;
    while i < 16
        invariant
            i <= 16,
            seed == f.ticks ^ f.entry,
            data@ =~= before + random_bytes(f).take(i as int),
        decreases 16 - i,
    {
        let x = seed.wrapping_mul(0x9E37_79B9_7F4A_7C15).wrapping_add(i);
        data.push((x / 0x2_0000_0000 % 0x100) as u8);
        i += 1;
    }
    assert(data@ =~= stack_data(f, mapped, texts(argv@), texts(envp@), elf@));
    (data, argv_offsets, envp_offsets)
}

/// Builds a Linux-style initial stack: argc, argv[], envp[], the auxv
/// table, and the string/random/phdr data they point into.
#[verifier::rlimit(60)]
pub fn setup_linux_stack(
    segments: &Vec<Segment>,
    f: ProgramFacts,
    elf: &[u8],
    argv: &Vec<Vec<u8>>,
    envp: &Vec<Vec<u8>>,
) -> (r: Result<StackImage, &'static str>)
    requires
        f.phoff + phdr_len(f) <= u64::MAX,
        forall|i: int|
            0 <= i < segments@.len() ==> #[trigger] segments@[i].file_offset + segments@[i].filesz
                <= u64::MAX && segments@[i].vaddr + segments@[i].filesz <= u64::MAX,
    ensures
        ({
            let (a, e) = (texts(argv@), texts(envp@));
            let mapped = phdrs_mapped(segments@, f, 0);
            let data = stack_data(f, mapped, a, e, elf@);
            let table = table_len(a.len(), e.len());
            let rsp = stack_pointer(table, data.len() as int);
            match stack_fault(f, mapped, a, e, elf@) {
                Some(x) => r is Err && r->Err_0 == x,
                None => r matches Ok(image) && image.rsp == rsp && image.data@ == data
                    && image.table@ == words_bytes(stack_words(f, mapped, a, e, rsp + table))
                    && image.region_start == page_of(rsp as u64) && image.table@.len() == table,
            }
        }),
{
    let ghost (a, e) = (texts(argv@), texts(envp@));
    assert(f.phentsize * f.phnum <= 0xFFFF * 0xFFFF) by (nonlinear_arith)
        requires
            0 <= f.phentsize <= 0xFFFF,
            0 <= f.phnum <= 0xFFFF,
    ;
    let len = f.phentsize as u64 * f.phnum as u64;
    let mapped = find_phdrs(segments, f, len);
    if mapped.is_none() && f.phoff + len > elf.len() as u64 {
        return Err("program header table outside file");
    }
    let (data, argv_offsets, envp_offsets) = build_stack_data(
        segments,
        f,
        mapped,
        elf,
        argv,
        envp,
    );
    let has_args = argv.len() > 0;
    let words: u128 = argv.len() as u128 + envp.len() as u128 + 3 + 32 + (if has_args {
        2
    } else {
        0
    }) + 2;
    assert(words * 8 == table_len(a.len(), e.len()));
    assert(data@.len() == data.len());
    if words * 8 + data.len() as u128 > USER_STACK_TOP as u128 {
        return Err("linux stack layout too large");
    }
    let table_bytes = (words * 8) as u64;
    let rsp = (USER_STACK_TOP - (table_bytes + data.len() as u64)) / 16 * 16;
    let region_start = rsp / 4096 * 4096;
    if region_start < USER_STACK_LOW_LIMIT {
        return Err("linux stack layout too large");
    }
    let base = rsp + table_bytes;
    assert forall|i: int| 0 <= i < argv@.len() implies #[trigger] argv_offsets@[i] == text_offset(
        a,
        i,
    ) && argv_offsets@[i] <= 0x1000_0000 by {
        lemma_text_offset(a, i);
    }
    assert forall|i: int| 0 <= i < envp@.len() implies #[trigger] envp_offsets@[i] == cstrings(
        a,
    ).len() + text_offset(e, i) && envp_offsets@[i] <= 0x2000_0000 by {
        lemma_text_offset(e, i);
    }
    let table = build_stack_table(f, mapped, argv, envp, &argv_offsets, &envp_offsets, base, &data, len);
    proof {
        lemma_table_len(f, mapped, a, e, base as int);
    }
    Ok(StackImage { rsp, table, data, region_start })
}

fn build_stack_table(
    f: ProgramFacts,
    mapped: Option<u64>,
    argv: &Vec<Vec<u8>>,
    envp: &Vec<Vec<u8>>,
    argv_offsets: &Vec<u64>,
    envp_offsets: &Vec<u64>,
    base: u64,
    data: &Vec<u8>,
    phdrs: u64,
) -> (table: Vec<u8>)
    requires
        base <= USER_STACK_TOP,
        data@.len() <= USER_STACK_TOP,
        phdrs == phdr_len(f),
        data@.len() == cstrings(texts(argv@)).len() + cstrings(texts(envp@)).len() + (
        if mapped is Some { 0 } else { phdr_len(f) }) + 16,
        argv_offsets@.len() == argv@.len(),
        envp_offsets@.len() == envp@.len(),
        forall|i: int|
            0 <= i < argv@.len() ==> #[trigger] argv_offsets@[i] == text_offset(texts(argv@), i)
                && argv_offsets@[i] <= 0x1000_0000,
        forall|i: int|
            0 <= i < envp@.len() ==> #[trigger] envp_offsets@[i] == cstrings(texts(argv@)).len()
                + text_offset(texts(envp@), i) && envp_offsets@[i] <= 0x2000_0000,
    ensures
        table@ == words_bytes(
            stack_words(f, mapped, texts(argv@), texts(envp@), base as int),
        ),
{
    let ghost (a, e) = (texts(argv@), texts(envp@));
    let ghost pa = pointers(a, a.len(), base as int);
    let ghost pe = pointers(e, e.len(), base + cstrings(a).len());
    let mut table: Vec<u8> = Vec::new();
    let ghost w0 = Seq::<u64>::empty();
    assert(table@ =~= words_bytes(w0));
    let mut w = push_word(&mut table, argv.len() as u64, Ghost(w0));
    let ghost head = w@;
    let mut i: usize = 0;
    assert(head + pa.take(0) =~= head);
    while i < argv.len()
        invariant
            i <= argv@.len(),
            a == texts(argv@),
            base <= USER_STACK_TOP,
            pa == pointers(a, a.len(), base as int),
            argv_offsets@.len() == argv@.len(),
            forall|i: int|
                0 <= i < argv@.len() ==> #[trigger] argv_offsets@[i] == text_offset(
                    texts(argv@),
                    i,
                ) && argv_offsets@[i] <= 0x1000_0000,
            w@ == head + pa.take(i as int),
            table@ == words_bytes(w@),
        decreases argv@.len() - i,
    {
        assert(argv_offsets@[i as int] == text_offset(a, i as int));
        w = push_word(&mut table, base + argv_offsets[i], Ghost(w@));
        i += 1;
        assert(w@ =~= head + pa.take(i as int));
    }
    w = push_word(&mut table, 0, Ghost(w@));
    let ghost middle = w@;
    assert(middle =~= head + pa + seq![0u64]) by {
        assert(pa.take(i as int) =~= pa);
    }
    let mut i: usize = 0;
    assert(middle + pe.take(0) =~= middle);
    while i < envp.len()
        invariant
            i <= envp@.len(),
            e == texts(envp@),
            base <= USER_STACK_TOP,
            pe == pointers(e, e.len(), base + cstrings(a).len()),
            a == texts(argv@),
            envp_offsets@.len() == envp@.len(),
            forall|i: int|
                0 <= i < envp@.len() ==> #[trigger] envp_offsets@[i] == cstrings(
                    texts(argv@),
                ).len() + text_offset(texts(envp@), i) && envp_offsets@[i] <= 0x2000_0000,
            w@ == middle + pe.take(i as int),
            table@ == words_bytes(w@),
        decreases envp@.len() - i,
    {
        assert(envp_offsets@[i as int] == cstrings(a).len() + text_offset(e, i as int));
        w = push_word(&mut table, base + envp_offsets[i], Ghost(w@));
        i += 1;
        assert(w@ =~= middle + pe.take(i as int));
    }
    w = push_word(&mut table, 0, Ghost(w@));
    assert(w@ =~= middle + pe + seq![0u64]) by {
        assert(pe.take(i as int) =~= pe);
    }
    let ghost start = w@;
    let random_off = data.len() as u64 - 16;
    let phdr = match mapped {
        Some(x) => x,
        None => base + (random_off - phdrs),
    };
    let w = push_auxv(
        &mut table,
        f,
        phdr,
        base + random_off,
        argv.len() > 0,
        base,
        Ghost(w@),
    );
    assert(w@ =~= start + auxv(f, mapped, a, e, base as int));
    assert(w@ =~= stack_words(f, mapped, a, e, base as int));
    table
}

fn push_auxv(
    out: &mut Vec<u8>,
    f: ProgramFacts,
    phdr: u64,
    random: u64,
    has_args: bool,
    base: u64,
    Ghost(words): Ghost<Seq<u64>>,
) -> (after: Ghost<Seq<u64>>)
    requires
        old(out)@ == words_bytes(words),
    ensures
        final(out)@ == words_bytes(after@),
        after@ == words + flat(auxv_pairs(f, phdr, random, has_args, base)),
{
    let mut p: Vec<(u64, u64)> = Vec::new();
    p.push((AT_PHENT, f.phentsize as u64));
    p.push((AT_PHNUM, f.phnum as u64));
    p.push((AT_PAGESZ, PAGE_SIZE));
    p.push((AT_BASE, f.at_base));
    p.push((AT_FLAGS, 0));
    p.push((AT_ENTRY, f.entry));
    p.push((AT_UID, 0));
    p.push((AT_EUID, 0));
    p.push((AT_GID, 0));
    p.push((AT_EGID, 0));
    p.push((AT_HWCAP, 0));
    p.push((AT_HWCAP2, 0));
    p.push((AT_CLKTCK, 100));
    p.push((AT_SECURE, 0));
    p.push((AT_PHDR, phdr));
    p.push((AT_RANDOM, random));
    if has_args {
        p.push((AT_EXECFN, base));
    }
    p.push((AT_NULL, 0));
    let ghost pairs = auxv_pairs(f, phdr, random, has_args, base);
    assert(p@ =~= pairs);
    let ghost mut w = words;
    let mut i: usize = 0;
    assert(pairs.take(0) =~= Seq::<(u64, u64)>::empty());
    assert(w =~= words + flat(pairs.take(0)));
    while i < p.len()
        invariant
            i <= p@.len(),
            p@ == pairs,
            w == words + flat(pairs.take(i as int)),
            out@ == words_bytes(w),
        decreases p@.len() - i,
    {
        let (t, v) = p[i];
        let w1 = push_word(out, t, Ghost(w));
        let w2 = push_word(out, v, Ghost(w1@));
        proof {
            let next = pairs.take(i + 1);
            assert(next.drop_last() =~= pairs.take(i as int));
            assert(next.last() == (t, v));
            assert(w2@ =~= words + (flat(pairs.take(i as int)) + seq![t, v]));
            w = w2@;
        }
        i += 1;
    }
    assert(pairs.take(i as int) =~= pairs);
    Ghost(w)
}

proof fn lemma_text_offset(v: Seq<Seq<u8>>, i: int)
    requires
        0 <= i <= v.len(),
    ensures
        text_offset(v, i) <= cstrings(v).len(),
    decreases v.len() - i,
{
    if i < v.len() {
        lemma_cstrings_prefix(v, i);
        lemma_text_offset(v, i + 1);
    } else {
        assert(v.take(i) =~= v);
    }
}

pub(crate) proof fn lemma_text_in_place(v: Seq<Seq<u8>>, i: int, n: int)
    requires
        0 <= i < n <= v.len(),
    ensures
        text_offset(v, i) + v[i].len() + 1 <= cstrings(v.take(n)).len(),
        cstrings(v.take(n)).subrange(
            text_offset(v, i),
            text_offset(v, i) + v[i].len() + 1,
        ) == v[i].push(0u8),
    decreases n,
{
    lemma_cstrings_prefix(v, n - 1);
    let o = text_offset(v, i);
    let whole = cstrings(v.take(n));
    if i < n - 1 {
        lemma_text_in_place(v, i, n - 1);
        let part = cstrings(v.take(n - 1));
        assert(whole.subrange(o, o + v[i].len() + 1) =~= part.subrange(o, o + v[i].len() + 1));
    } else {
        assert(whole.subrange(o, o + v[i].len() + 1) =~= v[i].push(0u8));
    }
}

/// On an initial stack the stack pointer is 16-byte aligned, table and data
/// end at or below the top of the stack, and each argument stands, with its
/// terminating zero, where its pointer says.
#[verifier::spinoff_prover]
pub proof fn law_initial_stack(
    f: ProgramFacts,
    mapped: Option<u64>,
    argv: Seq<Seq<u8>>,
    envp: Seq<Seq<u8>>,
    elf: Seq<u8>,
    i: int,
)
    requires
        stack_fault(f, mapped, argv, envp, elf) is None,
        0 <= i < argv.len(),
    ensures
        ({
            let data = stack_data(f, mapped, argv, envp, elf);
            let table = table_len(argv.len(), envp.len());
            let rsp = stack_pointer(table, data.len() as int);
            let base = rsp + table;
            let at = pointers(argv, argv.len(), base)[i] - base;
            &&& rsp % 16 == 0
            &&& rsp + table + data.len() <= USER_STACK_TOP
            &&& stack_words(f, mapped, argv, envp, base)[0] == argv.len()
            &&& stack_words(f, mapped, argv, envp, base)[1 + i] == base + at
            &&& at + argv[i].len() + 1 <= data.len()
            &&& data.subrange(at, at + argv[i].len() + 1) == argv[i].push(0u8)
        }),
{
    let data = stack_data(f, mapped, argv, envp, elf);
    let table = table_len(argv.len(), envp.len());
    let rsp = stack_pointer(table, data.len() as int);
    let base = rsp + table;
    let o = text_offset(argv, i);
    lemma_text_in_place(argv, i, argv.len() as int);
    assert(argv.take(argv.len() as int) =~= argv);
    let strings = cstrings(argv);
    assert(data.len() >= strings.len());
    assert(0 <= o <= strings.len());
    assert(pointers(argv, argv.len(), base)[i] == base + o);
    assert(data.subrange(o, o + argv[i].len() + 1) =~= strings.subrange(o, o + argv[i].len() + 1));
}

// ---------------------------------------------------------------------
// Signals
// ---------------------------------------------------------------------

/// Whether bit `k` is set.
pub open spec fn has_bit(w: u64, k: u64) -> bool {
    w & (1u64 << k) != 0
}

/// Signals whose default action is to do nothing.
pub open spec fn ignored_by_default(sig: u8) -> bool {
    sig == 17 || sig == 18 || sig == 23 || sig == 28
}

pub fn signal_default_ignored(sig: u8) -> (r: bool)
    ensures
        r == ignored_by_default(sig),
{
    sig == 17 || sig == 18 || sig == 23 || sig == 28
}

/// The process after signal `sig` was sent to it while it was alive.
pub open spec fn signaled(p: Process, sig: u8) -> Process {
    let kept = Process { sig_pending: p.sig_pending | (1u64 << (sig as u64)), ..p };
    let handler = p.sigactions@[sig as int].handler;
    if sig == 9 {
        exited(p, ExitInfo::Signaled { sig })
    } else if has_bit(p.sig_blocked, sig as u64) {
        kept
    } else if handler == 1 {
        p
    } else if handler == 0 {
        if ignored_by_default(sig) {
            p
        } else {
            exited(p, ExitInfo::Signaled { sig })
        }
    } else {
        kept
    }
}

/// Delivers signal `sig` to a process:
/// - SIGKILL(9) always terminates (uncatchable, unblockable);
/// - SIG_IGN dispositions and default-ignored signals are dropped;
/// - SIG_DFL-terminate signals mark the process exited (`Signaled`);
/// - caught-handler and blocked signals are recorded pending.
/// Returns `Err(())` if it has already exited.
pub fn deliver_signal(process: &mut Process, sig: u8) -> (r: Result<(), ()>)
    requires
        old(process).wf(),
        sig < 64,
    ensures
        final(process).wf(),
        if old(process).state == ProcessState::Exited {
            r == Err::<(), ()>(()) && *final(process) == *old(process)
        } else {
            r == Ok::<(), ()>(()) && *final(process) == signaled(*old(process), sig)
        },
{
    if process.is_exited() {
        return Err(());
    }
    if sig == 9 {
        process.mark_exited(ExitInfo::Signaled { sig });
        return Ok(());
    }
    let bit = 1u64 << (sig as u64);
    let blocked = process.sig_blocked & bit != 0;
    let action = process.sigactions[sig as usize];
    if blocked {
        process.sig_pending = process.sig_pending | bit;
    } else if action.handler == 1 {
    } else if action.handler == 0 {
        if !signal_default_ignored(sig) {
            process.mark_exited(ExitInfo::Signaled { sig });
        }
    } else {
        process.sig_pending = process.sig_pending | bit;
    }
    Ok(())
}

/// SIGKILL ends a live process whatever it blocks or handles; no other
/// blocked signal ends it.
pub proof fn law_kill_is_unblockable(p: Process, sig: u8)
    requires
        p.state == ProcessState::Running,
        sig < 64,
    ensures
        signaled(p, 9).state == ProcessState::Exited,
        signaled(p, 9).exit_info == Some(ExitInfo::Signaled { sig: 9 }),
        sig != 9 && has_bit(p.sig_blocked, sig as u64) ==> signaled(p, sig).state
            == ProcessState::Running && has_bit(signaled(p, sig).sig_pending, sig as u64),
{
    let w = p.sig_pending;
    let k = sig as u64;
    assert(k < 64 ==> (w | (1u64 << k)) & (1u64 << k) != 0) by (bit_vector);
}

/// The lowest set bit from `i` on, or 64.
pub open spec fn lowest_bit(w: u64, i: u64) -> u64
    decreases 64 - i,
{
    if i >= 64 || has_bit(w, i) {
        i
    } else {
        lowest_bit(w, (i + 1) as u64)
    }
}

fn find_lowest_bit(w: u64) -> (r: u64)
    ensures
        r == lowest_bit(w, 0),
        r <= 64,
{
    let mut i: u64 = 0;
    while i < 64 && w & (1u64 << i) == 0
        invariant
            i <= 64,
            lowest_bit(w, 0) == lowest_bit(w, i),
        decreases 64 - i,
    {
        i += 1;
    }
    i
}

/// The words of the signal frame: the handler's return address at the
/// bottom, then what `rt_sigreturn` restores.
pub open spec fn sigframe(f: InterruptFrame, mask: u64, sig: u64) -> Seq<u64> {
    seq![
        SIGRETURN_TRAMPOLINE, f.rip, f.rflags, f.rsp, mask, sig, f.rax, f.rbx, f.rcx, f.rdx,
        f.rsi, f.rdi, f.rbp, f.r8, f.r9, f.r10, f.r11, f.r12, f.r13, f.r14, f.r15,
    ]
}

/// What came of looking for a signal to deliver.
pub enum Delivery {
    Nothing,
    /// The process was terminated.
    Killed,
    /// The words go to the physical address; the frame now runs the
    /// handler.
    Handler { phys: u64, words: Vec<u64> },
}

/// The signal that is next to be delivered.
pub open spec fn next_signal(p: Process) -> u64 {
    lowest_bit(p.sig_pending & !p.sig_blocked, 0)
}

/// Whether there is a signal to deliver to code interrupted with this
/// frame.
pub open spec fn deliverable(p: Process, f: InterruptFrame) -> bool {
    f.cs % 4 == 3 && p.state == ProcessState::Running && p.sig_pending & !p.sig_blocked != 0
}

/// Where the signal frame goes, if it can be written.
pub open spec fn sigframe_phys(p: Process, rsp: u64) -> Option<u64> {
    if rsp < 168 {
        None
    } else {
        translated(p.mappings@, p.mappings@.len(), (rsp - 168) as u64, 168)
    }
}

/// Process and frame after a signal to deliver was looked for.
pub open spec fn signal_delivered(p: Process, f: InterruptFrame) -> (Process, InterruptFrame) {
    if !deliverable(p, f) {
        (p, f)
    } else {
        let sig = next_signal(p);
        if sig == 0 || sig >= 64 {
            (Process { sig_pending: 0, ..p }, f)
        } else {
            let action = p.sigactions@[sig as int];
            let cleared = Process { sig_pending: p.sig_pending & !(1u64 << sig), ..p };
            if action.handler == 1 {
                (cleared, f)
            } else if action.handler == 0 && ignored_by_default(sig as u8) {
                (cleared, f)
            } else if action.handler == 0 {
                (exited(cleared, ExitInfo::Signaled { sig: sig as u8 }), f)
            } else if sigframe_phys(p, f.rsp) is None {
                (p, f)
            } else {
                (
                    Process {
                        sig_blocked: p.sig_blocked | (1u64 << sig) | action.mask,
                        ..cleared
                    },
                    InterruptFrame {
                        rip: action.handler,
                        rsp: (f.rsp - 168) as u64,
                        rdi: sig,
                        ..f
                    },
                )
            }
        }
    }
}

/// Whether a handler is entered.
pub open spec fn enters_handler(p: Process, f: InterruptFrame) -> bool {
    deliverable(p, f) && 0 < next_signal(p) < 64 && p.sigactions@[next_signal(p) as int].handler > 1
        && sigframe_phys(p, f.rsp) is Some
}

/// Called from the timer interrupt for the current process: a pending,
/// unblocked signal is delivered by redirecting the interrupt frame. A
/// caught handler gets a signal frame on the ring-3 stack; a SIG_DFL
/// signal terminates the process, or is dropped if its default is to be
/// ignored; a SIG_IGN one is dropped. One signal per
/// call; the rest stay pending.
pub fn deliver_pending_signals(process: &mut Process, frame: &mut InterruptFrame) -> (r: Delivery)
    requires
        old(process).wf(),
    ensures
        final(process).wf(),
        (*final(process), *final(frame)) == signal_delivered(*old(process), *old(frame)),
        r is Handler <==> enters_handler(*old(process), *old(frame)),
        r matches Delivery::Handler { phys, words } ==> Some(phys) == sigframe_phys(
            *old(process),
            old(frame).rsp,
        ) && words@ == sigframe(
            *old(frame),
            old(process).sig_blocked,
            next_signal(*old(process)),
        ),
        r is Killed <==> deliverable(*old(process), *old(frame)) && 0 < next_signal(*old(process))
            < 64 && old(process).sigactions@[next_signal(*old(process)) as int].handler == 0
            && !ignored_by_default(next_signal(*old(process)) as u8),
{
    if frame.cs % 4 != 3 {
        return Delivery::Nothing;
    }
    if process.is_exited() {
        return Delivery::Nothing;
    }
    let pending = process.sig_pending & !process.sig_blocked;
    if pending == 0 {
        return Delivery::Nothing;
    }
    let sig = find_lowest_bit(pending);
    if sig == 0 || sig >= 64 {
        process.sig_pending = 0;
        return Delivery::Nothing;
    }
    let action = process.sigactions[sig as usize];
    let bit = 1u64 << sig;
    if action.handler == 1 || (action.handler == 0 && signal_default_ignored(sig as u8)) {
        process.sig_pending = process.sig_pending & !bit;
        return Delivery::Nothing;
    }
    if action.handler == 0 {
        process.sig_pending = process.sig_pending & !bit;
        process.mark_exited(ExitInfo::Signaled { sig: sig as u8 });
        return Delivery::Killed;
    }
    if frame.rsp < SIGFRAME_SIZE {
        return Delivery::Nothing;
    }
    let frame_base = frame.rsp - SIGFRAME_SIZE;
    let phys = match translate(&process.mappings, frame_base, SIGFRAME_SIZE) {
        None => {
            return Delivery::Nothing;
        },
        Some(p) => p,
    };
    let old_mask = process.sig_blocked;
    let mut words: Vec<u64> = Vec::new();
    words.push(SIGRETURN_TRAMPOLINE);
    words.push(frame.rip);
    words.push(frame.rflags);
    words.push(frame.rsp);
    words.push(old_mask);
    words.push(sig);
    words.push(frame.rax);
    words.push(frame.rbx);
    words.push(frame.rcx);
    words.push(frame.rdx);
    words.push(frame.rsi);
    words.push(frame.rdi);
    words.push(frame.rbp);
    words.push(frame.r8);
    words.push(frame.r9);
    words.push(frame.r10);
    words.push(frame.r11);
    words.push(frame.r12);
    words.push(frame.r13);
    words.push(frame.r14);
    words.push(frame.r15);
    assert(words@ =~= sigframe(*old(frame), old_mask, sig));
    process.sig_blocked = old_mask | bit | action.mask;
    process.sig_pending = process.sig_pending & !bit;
    frame.rip = action.handler;
    frame.rsp = frame_base;
    frame.rdi = sig;
    Delivery::Handler { phys, words }
}

/// The frame and mask that `rt_sigreturn` restores from the words behind
/// the return address.
pub open spec fn restored(f: InterruptFrame, w: Seq<u64>) -> (InterruptFrame, u64) {
    (
        InterruptFrame {
            rip: w[0],
            rflags: w[1],
            rsp: w[2],
            rax: w[5],
            rbx: w[6],
            rcx: w[7],
            rdx: w[8],
            rsi: w[9],
            rdi: w[10],
            rbp: w[11],
            r8: w[12],
            r9: w[13],
            r10: w[14],
            r11: w[15],
            r12: w[16],
            r13: w[17],
            r14: w[18],
            r15: w[19],
            ..f
        },
        w[3],
    )
}

/// Restores the interrupted registers and the blocked mask from a signal
/// frame.
pub fn sigreturn(process: &mut Process, frame: &mut InterruptFrame, words: &Vec<u64>)
    requires
        old(process).wf(),
        words@.len() == 20,
    ensures
        final(process).wf(),
        *final(frame) == restored(*old(frame), words@).0,
        *final(process) == (Process { sig_blocked: words@[3], ..*old(process) }),
{
    frame.rip = words[0];
    frame.rflags = words[1];
    frame.rsp = words[2];
    process.sig_blocked = words[3];
    frame.rax = words[5];
    frame.rbx = words[6];
    frame.rcx = words[7];
    frame.rdx = words[8];
    frame.rsi = words[9];
    frame.rdi = words[10];
    frame.rbp = words[11];
    frame.r8 = words[12];
    frame.r9 = words[13];
    frame.r10 = words[14];
    frame.r11 = words[15];
    frame.r12 = words[16];
    frame.r13 = words[17];
    frame.r14 = words[18];
    frame.r15 = words[19];
}

/// Returning from a handler gives back the interrupted registers and the
/// mask of blocked signals, whatever the handler left in the registers.
pub proof fn law_sigreturn_undoes_delivery(p: Process, f: InterruptFrame, left: InterruptFrame)
    requires
        enters_handler(p, f),
    ensures
        ({
            let words = sigframe(f, p.sig_blocked, next_signal(p)).skip(1);
            let (g, mask) = restored(left, words);
            &&& mask == p.sig_blocked
            &&& g == (InterruptFrame {
                vector: left.vector,
                error_code: left.error_code,
                cs: left.cs,
                ss: left.ss,
                ..f
            })
        }),
{
    let all = sigframe(f, p.sig_blocked, next_signal(p));
    let words = all.skip(1);
    assert forall|i: int| 0 <= i < 20 implies words[i] == all[i + 1] by {}
    assert(words[0] == f.rip && words[1] == f.rflags && words[2] == f.rsp && words[3]
        == p.sig_blocked);
    assert(words[5] == f.rax && words[6] == f.rbx && words[7] == f.rcx && words[8] == f.rdx);
    assert(words[9] == f.rsi && words[10] == f.rdi && words[11] == f.rbp && words[12] == f.r8);
    assert(words[13] == f.r9 && words[14] == f.r10 && words[15] == f.r11 && words[16] == f.r12);
    assert(words[17] == f.r13 && words[18] == f.r14 && words[19] == f.r15);
}

// ---------------------------------------------------------------------
// Fork, exit and wait
// ---------------------------------------------------------------------

/// The pipes after the first `n` open files were duplicated.
pub open spec fn pipes_shared(ps: Seq<Option<Channel>>, fds: Seq<Option<FdEntry>>, n: nat) -> Seq<
    Option<Channel>,
>
    decreases n,
{
    if n == 0 {
        ps
    } else {
        let before = pipes_shared(ps, fds, (n - 1) as nat);
        match fds[n - 1] {
            Some(FdEntry::Pipe(id, is_read)) => match channel(before, id) {
                None => before,
                Some(c) => before.update(
                    id as int,
                    Some(
                        if is_read {
                            Channel { readers: c.readers + 1, ..c }
                        } else {
                            Channel { writers: c.writers + 1, ..c }
                        },
                    ),
                ),
            },
            _ => before,
        }
    }
}

proof fn lemma_pipes_shared_counts(
    ps: Seq<Option<Channel>>,
    fds: Seq<Option<FdEntry>>,
    n: nat,
    id: usize,
    bound: nat,
)
    requires
        n <= fds.len(),
        forall|i: usize|
            #![trigger channel(ps, i)]
            channel(ps, i) matches Some(c) ==> c.readers <= bound && c.writers <= bound,
    ensures
        channel(pipes_shared(ps, fds, n), id) matches Some(c) ==> c.readers <= bound + n
            && c.writers <= bound + n,
        pipes_shared(ps, fds, n).len() == ps.len(),
    decreases n,
{
    if n > 0 {
        lemma_pipes_shared_counts(ps, fds, (n - 1) as nat, id, bound);
        if let Some(FdEntry::Pipe(other, _)) = fds[n - 1] {
            lemma_pipes_shared_counts(ps, fds, (n - 1) as nat, other, bound);
        }
    }
}

/// Whether every pipe's ends can be counted with `n` more of them open.
pub open spec fn room_to_share(ps: Seq<Option<Channel>>, n: nat) -> bool {
    forall|i: usize|
        #![trigger channel(ps, i)]
        channel(ps, i) matches Some(c) ==> c.readers + n <= usize::MAX && c.writers + n
            <= usize::MAX
}

/// What a fork's child has for an open file of its parent.
pub open spec fn forked_fd(before: Option<FdEntry>, after: Option<FdEntry>) -> bool {
    match before {
        Some(e) => if copied_by_fork(e) {
            after is Some && same_entry(e, after->0)
        } else {
            after is None
        },
        None => after is None,
    }
}

/// The open files that a fork's child gets.
pub fn dup_fds(fds: &Vec<Option<FdEntry>>, pipes: &mut Pipes) -> (r: Vec<Option<FdEntry>>)
    requires
        old(pipes).wf(),
        room_to_share(old(pipes)@, fds@.len()),
    ensures
        final(pipes).wf(),
        final(pipes)@ == pipes_shared(old(pipes)@, fds@, fds@.len()),
        r@.len() == fds@.len(),
        forall|i: int|
            0 <= i < fds@.len() ==> forked_fd(fds@[i], #[trigger] r@[i]),
{
    let ghost ps = pipes@;
    assert(fds@.len() == fds.len());
    let mut out: Vec<Option<FdEntry>> = Vec::new();
    let mut i: usize = 0;
    while i < fds.len()
        invariant
            pipes.wf(),
            i <= fds@.len(),
            fds@.len() <= usize::MAX,
            ps == old(pipes)@,
            room_to_share(ps, fds@.len()),
            pipes@ == pipes_shared(ps, fds@, i as nat),
            out@.len() == i,
            forall|k: int|
                0 <= k < i ==> forked_fd(fds@[k], #[trigger] out@[k]),
        decreases fds@.len() - i,
    {
        let copy = match &fds[i] {
            None => None,
            Some(e) => {
                proof {
                    if let FdEntry::Pipe(id, _) = *e {
                        let bound = (usize::MAX - fds@.len()) as nat;
                        lemma_pipes_shared_counts(ps, fds@, i as nat, id, bound);
                    }
                }
                e.dup(pipes)
            },
        };
        out.push(copy);
        i += 1;
    }
    out
}

/// The mappings of a fork's child: shared ones as they are, the others on
/// the copies of their frames.
pub open spec fn forked_mapping(m: Mapping, copy: u64) -> Mapping {
    if m.shm_id is Some {
        m
    } else {
        Mapping { phys: copy, ..m }
    }
}

/// Whether a process is the copy of another that a fork makes, with the
/// mappings on the copies of their frames.
pub open spec fn is_fork_of(child: Process, parent: Process, copies: Seq<u64>, pid: usize) -> bool {
    &&& child.fds@.len() == parent.fds@.len()
    &&& forall|i: int|
        0 <= i < parent.fds@.len() ==> forked_fd(parent.fds@[i], #[trigger] child.fds@[i])
    &&& child.mappings@.len() == parent.mappings@.len()
    &&& forall|i: int|
        0 <= i < parent.mappings@.len() ==> #[trigger] child.mappings@[i] == forked_mapping(
            parent.mappings@[i],
            copies[i],
        )
    &&& child.entry == parent.entry
    &&& child.user_rsp == 0
    &&& child.abi == parent.abi
    &&& child.state == ProcessState::Running
    &&& child.exit_info is None
    &&& child.stack_low == parent.stack_low
    &&& child.stack_phys_base == stack_copy(parent.mappings@, copies, copies.len())
    &&& child.heap_start == parent.heap_start
    &&& child.heap_end == parent.heap_end
    &&& child.heap_mapped == parent.heap_mapped
    &&& child.mmap_next == parent.mmap_next
    &&& child.cloexec@ == parent.cloexec@
    &&& child.sigactions@ == parent.sigactions@
    &&& child.sig_blocked == parent.sig_blocked
    &&& child.sig_pending == 0
    &&& child.parent == Some(pid)
}

/// Copies a process for `fork`. `copies` holds, for each mapping of the
/// parent, where its frames were copied to (not looked at for shared
/// ones); `pid` is the parent's id.
pub fn fork_copy(parent: &Process, pipes: &mut Pipes, copies: &Vec<u64>, pid: usize) -> (child:
    Process)
    requires
        parent.wf(),
        old(pipes).wf(),
        room_to_share(old(pipes)@, parent.fds@.len()),
        copies@.len() == parent.mappings@.len(),
        forall|i: int|
            0 <= i < copies@.len() ==> #[trigger] copies@[i] + parent.mappings@[i].len <= u64::MAX
                && copies@[i] <= u64::MAX - 0x10_0000,
    ensures
        child.wf(),
        final(pipes).wf(),
        final(pipes)@ == pipes_shared(old(pipes)@, parent.fds@, parent.fds@.len()),
        is_fork_of(child, *parent, copies@, pid),
{
    let fds = dup_fds(&parent.fds, pipes);
    let mut mappings: Vec<Mapping> = Vec::new();
    let mut stack_phys: u64 = 0;
    let mut i: usize = 0;
    while i < parent.mappings.len()
        invariant
            parent.wf(),
            i <= parent.mappings@.len(),
            copies@.len() == parent.mappings@.len(),
            forall|i: int|
                0 <= i < copies@.len() ==> #[trigger] copies@[i] + parent.mappings@[i].len
                    <= u64::MAX && copies@[i] <= u64::MAX - 0x10_0000,
            mappings@.len() == i,
            forall|k: int|
                0 <= k < i ==> #[trigger] mappings@[k] == forked_mapping(
                    parent.mappings@[k],
                    copies@[k],
                ),
            forall|k: int| 0 <= k < i ==> good_mapping(#[trigger] mappings@[k]),
            stack_phys == stack_copy(parent.mappings@, copies@, i as nat),
            stack_phys <= u64::MAX - 0x10_0000,
        decreases parent.mappings@.len() - i,
    {
        let m = parent.mappings[i];
        assert(good_mapping(parent.mappings@[i as int]));
        assert(copies@[i as int] + parent.mappings@[i as int].len <= u64::MAX);
        if m.shm_id.is_some() {
            mappings.push(m);
        } else {
            mappings.push(Mapping { vaddr: m.vaddr, phys: copies[i], len: m.len, shm_id: None });
            if m.vaddr == USER_STACK_LOW_LIMIT {
                stack_phys = copies[i];
            }
        }
        i += 1;
    }
    let cloexec = parent.cloexec.clone();
    assert(cloexec@ =~= parent.cloexec@);
    let sigactions = parent.sigactions.clone();
    assert(sigactions@ =~= parent.sigactions@);
    Process {
        entry: parent.entry,
        user_rsp: 0,
        mappings,
        state: ProcessState::Running,
        exit_info: None,
        fds,
        stack_low: parent.stack_low,
        stack_phys_base: stack_phys,
        abi: parent.abi,
        heap_start: parent.heap_start,
        heap_end: parent.heap_end,
        heap_mapped: parent.heap_mapped,
        mmap_next: parent.mmap_next,
        cloexec,
        parent: Some(pid),
        sigactions,
        sig_blocked: parent.sig_blocked,
        sig_pending: 0,
    }
}

/// Where the stack's frames were copied to, going by the first `n`
/// mappings.
pub open spec fn stack_copy(ms: Seq<Mapping>, copies: Seq<u64>, n: nat) -> u64
    decreases n,
{
    if n == 0 {
        0
    } else if ms[n - 1].shm_id is None && ms[n - 1].vaddr == USER_STACK_LOW_LIMIT {
        copies[n - 1]
    } else {
        stack_copy(ms, copies, (n - 1) as nat)
    }
}

/// What a clone, fork or vfork asks for.
#[derive(Clone, Copy, Debug)]
pub enum ForkPlan {
    /// A thread in the same address space.
    Thread {
        stack: u64,
        fs_base: u64,
        clear_tid: Option<u64>,
        parent_tid: Option<u64>,
        child_tid: Option<u64>,
    },
    /// A child with a copy of the process, which goes on with the caller's
    /// stack and FS base.
    Fork { stack: u64, fs_base: u64 },
    Failed(&'static str),
}

pub const SYS_CLONE: u64 = 56;

pub const SYS_FORK: u64 = 57;

pub const SYS_VFORK: u64 = 58;

/// What a clone, fork or vfork with these arguments asks for; `rsp` and
/// `fs` are the caller's.
pub open spec fn fork_plan(is_process: bool, num: u64, a: Seq<u64>, rsp: u64, fs: u64) -> ForkPlan {
    let flags = a[0];
    if !is_process {
        ForkPlan::Failed("not a process")
    } else if num == 56 {
        if flags & 0x100 == 0 {
            ForkPlan::Failed("clone without CLONE_VM unsupported")
        } else {
            ForkPlan::Thread {
                stack: a[1],
                fs_base: if flags & 0x80000 != 0 {
                    a[4]
                } else {
                    fs
                },
                clear_tid: if flags & 0x200000 != 0 {
                    Some(a[3])
                } else {
                    None
                },
                parent_tid: if flags & 0x100000 != 0 {
                    Some(a[2])
                } else {
                    None
                },
                child_tid: if flags & 0x1000000 != 0 {
                    Some(a[3])
                } else {
                    None
                },
            }
        }
    } else if num == 57 || num == 58 {
        ForkPlan::Fork { stack: rsp, fs_base: fs }
    } else {
        ForkPlan::Failed("not a forkish syscall")
    }
}

/// Decides what a clone, fork or vfork does. A caller that is no process
/// cannot fork.
pub fn handle_forkish(
    is_process: bool,
    num: u64,
    args: &[u64; 6],
    user_rsp: u64,
    parent_fs: u64,
) -> (r: ForkPlan)
    ensures
        r == fork_plan(is_process, num, args@, user_rsp, parent_fs),
{
    if !is_process {
        return ForkPlan::Failed("not a process");
    }
    if num == SYS_CLONE {
        let flags = args[0];
        if flags & 0x100 == 0 {
            return ForkPlan::Failed("clone without CLONE_VM unsupported");
        }
        ForkPlan::Thread {
            stack: args[1],
            fs_base: if flags & 0x80000 != 0 { args[4] } else { parent_fs },
            clear_tid: if flags & 0x200000 != 0 { Some(args[3]) } else { None },
            parent_tid: if flags & 0x100000 != 0 { Some(args[2]) } else { None },
            child_tid: if flags & 0x1000000 != 0 { Some(args[3]) } else { None },
        }
    } else if num == SYS_FORK || num == SYS_VFORK {
        ForkPlan::Fork { stack: user_rsp, fs_base: parent_fs }
    } else {
        ForkPlan::Failed("not a forkish syscall")
    }
}

/// An 8-byte store at a physical address.
#[derive(Clone, Copy, Debug, PartialEq, Eq, Structural)]
pub struct UserStore {
    pub phys: u64,
    pub value: u64,
}

/// The store of `value` at a user address, if it is mapped.
pub open spec fn user_store(ms: Seq<Mapping>, at: Option<u64>, value: u64) -> Seq<UserStore> {
    match at {
        None => Seq::empty(),
        Some(vaddr) => match translated(ms, ms.len(), vaddr, 8) {
            None => Seq::empty(),
            Some(phys) => seq![UserStore { phys, value }],
        },
    }
}

/// The stores that tell of a new thread: its id, where the parent and where
/// the thread want it.
pub open spec fn tid_stores(plan: ForkPlan, ms: Seq<Mapping>, pid: u64) -> Seq<UserStore> {
    match plan {
        ForkPlan::Thread { parent_tid, child_tid, .. } => user_store(ms, parent_tid, pid)
            + user_store(ms, child_tid, pid),
        _ => Seq::empty(),
    }
}

fn store_user_u64(mappings: &Vec<Mapping>, at: Option<u64>, value: u64, out: &mut Vec<UserStore>)
    requires
        forall|i: int| 0 <= i < mappings@.len() ==> good_mapping(#[trigger] mappings@[i]),
    ensures
        final(out)@ == old(out)@ + user_store(mappings@, at, value),
{
    if let Some(vaddr) = at {
        if let Some(phys) = translate(mappings, vaddr, 8) {
            out.push(UserStore { phys, value });
        }
    }
    assert(out@ =~= old(out)@ + user_store(mappings@, at, value));
}

/// What is left to do once the child `pid` of a plan exists: the stores to
/// make in the memory of the process, in order. Then the caller gets `pid`.
/// A plan that failed has no child.
pub fn forkish_stores(plan: &ForkPlan, mappings: &Vec<Mapping>, pid: u64) -> (r: Result<
    Vec<UserStore>,
    &'static str,
>)
    requires
        forall|i: int| 0 <= i < mappings@.len() ==> good_mapping(#[trigger] mappings@[i]),
    ensures
        match *plan {
            ForkPlan::Failed(e) => r == Err::<Vec<UserStore>, &'static str>(e),
            _ => r matches Ok(out) && out@ == tid_stores(*plan, mappings@, pid),
        },
{
    let mut out: Vec<UserStore> = Vec::new();
    match plan {
        ForkPlan::Failed(e) => {
            return Err(*e);
        },
        ForkPlan::Fork { .. } => {},
        ForkPlan::Thread { parent_tid, child_tid, .. } => {
            store_user_u64(mappings, *parent_tid, pid, &mut out);
            store_user_u64(mappings, *child_tid, pid, &mut out);
        },
    }
    assert(out@ =~= tid_stores(*plan, mappings@, pid));
    Ok(out)
}

/// What a process keeps across `execve`: who forked it, its signal
/// dispositions and its blocked mask; files flagged close-on-exec are
/// closed: what stood behind them is returned, to be released. The image
/// has no files of its own.
pub fn execve_into_current(current: Process, image: Process) -> (out: (
    Process,
    Vec<Option<FdEntry>>,
))
    requires
        current.wf(),
        image.wf(),
        forall|i: int| 0 <= i < image.fds@.len() ==> #[trigger] image.fds@[i] is None,
    ensures
        out.1@ == flagged_entries(current),
        execed(current, image, out.0),
{
    let mut old_files = current;
    let closed = old_files.close_cloexec_fds();
    let mut r = image;
    r.parent = old_files.parent;
    r.sigactions = old_files.sigactions;
    r.sig_blocked = old_files.sig_blocked;
    r.fds = old_files.fds;
    r.cloexec = Vec::new();
    (r, closed)
}

/// The process that `execve` leaves.
pub open spec fn execed(current: Process, image: Process, r: Process) -> bool {
    &&& r.wf()
    &&& r.fds@.len() == current.fds@.len()
    &&& forall|i: int|
        0 <= i < current.fds@.len() ==> #[trigger] r.fds@[i] == if flagged(current, i) {
            None::<FdEntry>
        } else {
            current.fds@[i]
        }
    &&& r.cloexec@.len() == 0
    &&& r.parent == current.parent
    &&& r.sigactions == current.sigactions
    &&& r.sig_blocked == current.sig_blocked
    &&& r.sig_pending == image.sig_pending
    &&& r.mappings == image.mappings
    &&& r.entry == image.entry
    &&& r.abi == image.abi
    &&& r.exit_info == image.exit_info
    &&& r.user_rsp == image.user_rsp
    &&& r.state == image.state
    &&& r.heap_start == image.heap_start
    &&& r.heap_end == image.heap_end
    &&& r.heap_mapped == image.heap_mapped
    &&& r.mmap_next == image.mmap_next
    &&& r.stack_low == image.stack_low
    &&& r.stack_phys_base == image.stack_phys_base
}

/// Drops the whole fd table at exit, so that a pipe's reader sees EOF; the
/// entries are returned to be released.
pub fn close_fds_on_exit(process: &mut Process) -> (r: Vec<Option<FdEntry>>)
    ensures
        r@ == old(process).fds@,
        final(process).fds@.len() == 0,
        same_but_fds(*old(process), *final(process)),
        final(process).cloexec == old(process).cloexec,
        old(process).wf() ==> final(process).wf(),
{
    let mut out: Vec<Option<FdEntry>> = Vec::new();
    out.append(&mut process.fds);
    assert(out@ =~= old(process).fds@);
    out
}

/// Sends the interrupted code to the kernel's exit path at `exit`.
pub fn redirect_to_exit(frame: &mut InterruptFrame, exit: u64)
    ensures
        *final(frame) == (InterruptFrame { rip: exit, cs: 0x08, ss: 0x10, ..*old(frame) }),
{
    frame.rip = exit;
    frame.cs = 0x08;
    frame.ss = 0x10;
}

/// What is left of a process that was killed: its open files, to be
/// released, and the line to print.
pub struct Killed {
    pub files: Vec<Option<FdEntry>>,
    pub message: Vec<u8>,
}

/// Part of the line about a page fault.
pub open spec fn fault_part1(name: Seq<char>, cr2: u64, f: InterruptFrame) -> Seq<char> {
    "[PROC] "@ + name + " killed by page fault at "@ + hex(cr2 as nat) + " (error "@ + hex(
        f.error_code as nat,
    ) + ", rip="@ + hex(f.rip as nat) + ", r8="@ + hex(f.r8 as nat) + ", r9="@ + hex(f.r9 as nat)
}

/// Part of the line about a page fault.
pub open spec fn fault_part2(f: InterruptFrame) -> Seq<char> {
    ", r10="@ + hex(f.r10 as nat) + ", r11="@ + hex(f.r11 as nat) + ", r12="@ + hex(f.r12 as nat)
        + ", r13="@ + hex(f.r13 as nat) + ", r14="@ + hex(f.r14 as nat) + ", r15="@ + hex(
        f.r15 as nat,
    )
}

/// Part of the line about a page fault.
pub open spec fn fault_part3(f: InterruptFrame) -> Seq<char> {
    ", rbx="@ + hex(f.rbx as nat) + ", rbp="@ + hex(f.rbp as nat) + ", rdx="@ + hex(f.rdx as nat)
        + ", rcx="@ + hex(f.rcx as nat) + ", rdi="@ + hex(f.rdi as nat) + ", rsi="@ + hex(
        f.rsi as nat,
    ) + ", rsp="@ + hex(f.rsp as nat) + ")\n"@
}

/// The line about a page fault that ended a process.
pub open spec fn fault_line(name: Seq<char>, cr2: u64, f: InterruptFrame) -> Seq<char> {
    fault_part1(name, cr2, f) + fault_part2(f) + fault_part3(f)
}

fn push_fault_part1(out: &mut Vec<char>, name: &str, cr2: u64, f: &InterruptFrame)
    ensures
        final(out)@ == old(out)@ + fault_part1(name@, cr2, *f),
{
    push_str(out, "[PROC] ");
    push_str(out, name);
    push_str(out, " killed by page fault at ");
    push_hex(out, cr2);
    push_str(out, " (error ");
    push_hex(out, f.error_code);
    push_str(out, ", rip=");
    push_hex(out, f.rip);
    push_str(out, ", r8=");
    push_hex(out, f.r8);
    push_str(out, ", r9=");
    push_hex(out, f.r9);
    assert(out@ =~= old(out)@ + fault_part1(name@, cr2, *f));
}

fn push_fault_part2(out: &mut Vec<char>, f: &InterruptFrame)
    ensures
        final(out)@ == old(out)@ + fault_part2(*f),
{
    push_str(out, ", r10=");
    push_hex(out, f.r10);
    push_str(out, ", r11=");
    push_hex(out, f.r11);
    push_str(out, ", r12=");
    push_hex(out, f.r12);
    push_str(out, ", r13=");
    push_hex(out, f.r13);
    push_str(out, ", r14=");
    push_hex(out, f.r14);
    push_str(out, ", r15=");
    push_hex(out, f.r15);
    assert(out@ =~= old(out)@ + fault_part2(*f));
}

fn push_fault_part3(out: &mut Vec<char>, f: &InterruptFrame)
    ensures
        final(out)@ == old(out)@ + fault_part3(*f),
{
    push_str(out, ", rbx=");
    push_hex(out, f.rbx);
    push_str(out, ", rbp=");
    push_hex(out, f.rbp);
    push_str(out, ", rdx=");
    push_hex(out, f.rdx);
    push_str(out, ", rcx=");
    push_hex(out, f.rcx);
    push_str(out, ", rdi=");
    push_hex(out, f.rdi);
    push_str(out, ", rsi=");
    push_hex(out, f.rsi);
    push_str(out, ", rsp=");
    push_hex(out, f.rsp);
    push_str(out, ")\n");
    assert(out@ =~= old(out)@ + fault_part3(*f));
}

/// A process that faulted at `cr2` is marked exited and leaves through
/// `exit`; its open files and the line to print, at most 700 bytes of it,
/// are returned.
pub fn kill_current(
    process: &mut Process,
    name: &str,
    cr2: u64,
    frame: &mut InterruptFrame,
    exit: u64,
) -> (r: Killed)
    ensures
        r.files@ == old(process).fds@,
        r.message@ == cut_bytes(encode_utf8(fault_line(name@, cr2, *old(frame))), 700),
        final(process).fds@.len() == 0,
        *final(process) == (Process {
            fds: final(process).fds,
            ..exited(*old(process), ExitInfo::PageFault { cr2 })
        }),
        *final(frame) == (InterruptFrame { rip: exit, cs: 0x08, ss: 0x10, ..*old(frame) }),
{
    let files = close_fds_on_exit(process);
    if process.state == ProcessState::Running {
        process.state = ProcessState::Exited;
        process.exit_info = Some(ExitInfo::PageFault { cr2 });
    }
    let mut line: Vec<char> = Vec::new();
    push_fault_part1(&mut line, name, cr2, frame);
    push_fault_part2(&mut line, frame);
    push_fault_part3(&mut line, frame);
    assert(line@ =~= fault_line(name@, cr2, *frame));
    let text = string_of(&line);
    let message = sprint(700, text.as_str());
    redirect_to_exit(frame, exit);
    Killed { files, message }
}

/// The line about an exception that ended a process.
pub open spec fn exception_line(vector: u8, rip: u64) -> Seq<char> {
    "[PROC] killed by exception vector "@ + dec(vector as nat) + " at rip="@ + hex(rip as nat)
        + "\n"@
}

/// A process that raised another exception is marked exited and leaves
/// through `exit`; the line to print, at most 96 bytes of it, is returned.
pub fn kill_current_exception(
    process: &mut Process,
    vector: u8,
    frame: &mut InterruptFrame,
    exit: u64,
) -> (r: Vec<u8>)
    requires
        old(process).wf(),
    ensures
        final(process).wf(),
        *final(process) == exited(*old(process), ExitInfo::Exception { vector }),
        *final(frame) == (InterruptFrame { rip: exit, cs: 0x08, ss: 0x10, ..*old(frame) }),
        r@ == cut_bytes(encode_utf8(exception_line(vector, old(frame).rip)), 96),
{
    process.mark_exited(ExitInfo::Exception { vector });
    let mut out: Vec<char> = Vec::new();
    push_str(&mut out, "[PROC] killed by exception vector ");
    push_dec(&mut out, vector as u64);
    push_str(&mut out, " at rip=");
    push_hex(&mut out, frame.rip);
    push_str(&mut out, "\n");
    assert(out@ =~= exception_line(vector, frame.rip));
    let text = string_of(&out);
    let message = sprint(96, text.as_str());
    redirect_to_exit(frame, exit);
    message
}

/// What a process leaves behind when it ends on its own: its open files,
/// to be released, and the parent that gets a SIGCHLD.
pub fn exit_self(process: &mut Process) -> (r: (Vec<Option<FdEntry>>, Option<usize>))
    ensures
        r.0@ == old(process).fds@,
        r.1 == old(process).parent,
        final(process).fds@.len() == 0,
        *final(process) == (Process {
            fds: final(process).fds,
            ..exited(*old(process), ExitInfo::Normal)
        }),
{
    let files = close_fds_on_exit(process);
    if process.state == ProcessState::Running {
        process.state = ProcessState::Exited;
        process.exit_info = Some(ExitInfo::Normal);
    }
    (files, process.parent)
}

/// What the end of a thread calls for.
pub struct ThreadExit {
    /// Where to clear the thread's id word, and the key of the futex whose
    /// waiters wake.
    pub joined: Option<(u64, u64)>,
    /// The open files of a process that ends with all of its threads, to be
    /// released.
    pub files: Option<Vec<Option<FdEntry>>>,
}

/// The end of a thread that shares its address space: its id word is
/// cleared and its joiners wake. Only where the whole group exits do the
/// open files go and the process end.
pub fn thread_exit_self(process: &mut Process, child_tid: Option<u64>, cr3: u64, group: bool) -> (r:
    ThreadExit)
    requires
        old(process).wf(),
    ensures
        r.joined == match child_tid {
            None => None,
            Some(addr) => match translated(
                old(process).mappings@,
                old(process).mappings@.len(),
                addr,
                8,
            ) {
                None => None,
                Some(phys) => Some((phys, cr3 ^ addr)),
            },
        },
        if group {
            &&& r.files matches Some(files)
            &&& files@ == old(process).fds@
            &&& final(process).fds@.len() == 0
            &&& *final(process) == (Process {
                fds: final(process).fds,
                ..exited(*old(process), ExitInfo::Normal)
            })
        } else {
            r.files is None && *final(process) == *old(process)
        },
{
    let joined = match child_tid {
        None => None,
        Some(addr) => match translate(&process.mappings, addr, 8) {
            None => None,
            Some(phys) => Some((phys, cr3 ^ addr)),
        },
    };
    if group {
        let (files, _) = exit_self(process);
        ThreadExit { joined, files: Some(files) }
    } else {
        ThreadExit { joined, files: None }
    }
}

/// What a look at a process that is waited for comes to.
#[derive(Clone, Copy, Debug, PartialEq, Eq, Structural)]
pub enum WaitStep {
    Exited(ExitInfo),
    TimedOut,
    /// Halt, then look again.
    Wait,
}

/// One look at a process that is waited for until `deadline`.
pub fn wait(status: Option<ExitInfo>, deadline: u64, now: u64) -> (r: WaitStep)
    ensures
        r == match status {
            Some(info) => WaitStep::Exited(info),
            None => if now >= deadline {
                WaitStep::TimedOut
            } else {
                WaitStep::Wait
            },
        },
{
    match status {
        Some(info) => WaitStep::Exited(info),
        None => {
            if now >= deadline {
                WaitStep::TimedOut
            } else {
                WaitStep::Wait
            }
        },
    }
}

/// The text for an exit reason.
pub open spec fn exit_text(info: ExitInfo) -> Seq<char> {
    match info {
        ExitInfo::Normal => "exited normally"@,
        ExitInfo::PageFault { cr2 } => "killed by page fault at "@ + hex(cr2 as nat),
        ExitInfo::Exception { vector } => "killed by exception vector "@ + dec(vector as nat),
        ExitInfo::Signaled { sig } => "killed by signal "@ + dec(sig as nat),
    }
}

/// Human-readable description of an exit reason.
pub fn describe_exit(info: &ExitInfo) -> (r: String)
    ensures
        r@ == exit_text(*info),
{
    let mut out: Vec<char> = Vec::new();
    match info {
        ExitInfo::Normal => {
            push_str(&mut out, "exited normally");
        },
        ExitInfo::PageFault { cr2 } => {
            push_str(&mut out, "killed by page fault at ");
            push_hex(&mut out, *cr2);
        },
        ExitInfo::Exception { vector } => {
            push_str(&mut out, "killed by exception vector ");
            push_dec(&mut out, *vector as u64);
        },
        ExitInfo::Signaled { sig } => {
            push_str(&mut out, "killed by signal ");
            push_dec(&mut out, *sig as u64);
        },
    }
    assert(out@ =~= exit_text(*info));
    string_of(&out)
}

} // verus!
